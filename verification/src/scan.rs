use vstd::prelude::*;

use crate::markdown::{is_markdown_in, is_markdown_path, PathStyle};

verus! {

/// What a walk of the notes directory does with one directory entry.
#[derive(Clone, Copy, Debug, PartialEq, Eq)]
pub enum EntryAction {
    /// Walk into the directory.
    Descend,
    /// Collect the file as a Markdown note.
    Collect,
    /// Leave the entry alone.
    Skip,
}

/// Decides what a walk of the notes directory does with an entry, given the
/// entry's own file type (links are not followed): directories are walked
/// into, regular files with a Markdown name in the platform's path syntax
/// `style` are collected, and everything else is skipped.
pub fn classify_entry(style: PathStyle, is_dir: bool, is_file: bool, path: &str) -> (r: EntryAction)
    ensures
        r == if is_dir {
            EntryAction::Descend
        } else if is_file && is_markdown_path(style, path@) {
            EntryAction::Collect
        } else {
            EntryAction::Skip
        },
{
    if is_dir {
        EntryAction::Descend
    } else if is_file && is_markdown_in(style, path) {
        EntryAction::Collect
    } else {
        EntryAction::Skip
    }
}

} // verus!
