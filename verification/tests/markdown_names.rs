use terrain::{classify_entry, is_markdown, is_markdown_in, EntryAction, PathStyle};

#[test]
fn markdown_extension_in_any_case() {
    assert!(is_markdown("/notes/today.md"));
    assert!(is_markdown("/notes/today.MD"));
    assert!(is_markdown("/notes/today.Md"));
    assert!(is_markdown("relative/today.mD"));
    assert!(is_markdown("today.md"));
}

#[test]
fn other_extensions_are_not_markdown() {
    assert!(!is_markdown("/notes/today.txt"));
    assert!(!is_markdown("/notes/today.mdx"));
    assert!(!is_markdown("/notes/today.m"));
    assert!(!is_markdown("/notes/today"));
    assert!(!is_markdown("/notes/today."));
    assert!(!is_markdown("/notes/md"));
}

#[test]
fn hidden_file_named_md_has_no_extension() {
    // ".md" is a file stem with no extension, as std::path sees it.
    assert!(!is_markdown("/notes/.md"));
    assert!(is_markdown("/notes/.hidden.md"));
    assert!(is_markdown("/notes/..md"));
}

#[test]
fn file_name_follows_path_components() {
    assert!(is_markdown("/notes/today.md/"));
    assert!(is_markdown("/notes/today.md/."));
    assert!(is_markdown("/notes//today.md"));
    assert!(!is_markdown("/notes/today.md/.."));
    assert!(!is_markdown("/"));
    assert!(!is_markdown(""));
    assert!(!is_markdown("."));
    assert!(!is_markdown(".."));
    assert!(is_markdown("/a.md/b.md"));
    assert!(!is_markdown("/a.md/b"));
}

#[test]
fn markdown_names_agree_with_std_path() {
    let samples = [
        "/notes/today.md",
        "/notes/today.MD",
        "/notes/.md",
        "/notes/x.md/",
        "/notes/x.md/.",
        "/notes/x.md/..",
        "a..md",
        "a.b.md",
        ".",
        "./",
        "/",
        "",
        "no_ext",
        "x.mdd",
        "日本語.md",
        "日本語.ｍｄ",
    ];
    for s in samples {
        let expected = std::path::Path::new(s)
            .extension()
            .and_then(|e| e.to_str())
            .map(|e| e.eq_ignore_ascii_case("md"))
            .unwrap_or(false);
        assert_eq!(is_markdown(s), expected, "{s}");
    }
}

#[test]
fn directory_walk_decisions() {
    assert_eq!(classify_entry(PathStyle::Unix, true, false, "/notes/sub"), EntryAction::Descend);
    assert_eq!(classify_entry(PathStyle::Unix, true, false, "/notes/sub.md"), EntryAction::Descend);
    assert_eq!(classify_entry(PathStyle::Unix, false, true, "/notes/a.md"), EntryAction::Collect);
    assert_eq!(classify_entry(PathStyle::Unix, false, true, "/notes/a.txt"), EntryAction::Skip);
    assert_eq!(classify_entry(PathStyle::Unix, false, false, "/notes/link.md"), EntryAction::Skip);
}

#[test]
fn windows_names_use_both_separators() {
    assert!(is_markdown_in(PathStyle::Windows, "a.md\\"));
    assert!(is_markdown_in(PathStyle::Windows, "a.md\\."));
    assert!(!is_markdown_in(PathStyle::Windows, "x\\.md"));
    assert!(is_markdown_in(PathStyle::Windows, "C:\\notes\\today.MD"));
    assert!(is_markdown_in(PathStyle::Windows, "C:/notes/today.md"));
    assert!(!is_markdown_in(PathStyle::Windows, "C:\\notes\\today.md\\.."));
}

#[test]
fn windows_drive_is_not_part_of_the_name() {
    assert!(is_markdown_in(PathStyle::Windows, "C:a.md"));
    assert!(!is_markdown_in(PathStyle::Windows, "C:.md"));
    assert!(!is_markdown_in(PathStyle::Windows, "C:"));
    assert!(is_markdown_in(PathStyle::Unix, "C:.md"));
}

#[test]
fn unix_names_treat_backslash_as_a_character() {
    assert!(!is_markdown_in(PathStyle::Unix, "a.md\\"));
    assert!(is_markdown_in(PathStyle::Unix, "x\\.md"));
}

#[test]
fn host_style_matches_the_platform() {
    let expected = if std::path::is_separator('\\') { PathStyle::Windows } else { PathStyle::Unix };
    assert_eq!(PathStyle::host(), expected);
    assert_eq!(is_markdown("/notes/a.md"), is_markdown_in(expected, "/notes/a.md"));
}

#[test]
fn windows_walk_decisions() {
    assert_eq!(classify_entry(PathStyle::Windows, false, true, "C:\\notes\\a.md"), EntryAction::Collect);
    assert_eq!(classify_entry(PathStyle::Unix, false, true, "notes\\a.md\\"), EntryAction::Skip);
}
