use vstd::prelude::*;

use crate::markdown::{chars_of, has_drive_prefix, is_separator, PathStyle};

verus! {

broadcast use vstd::seq_lib::group_seq_properties;

/// A piece between separators that names something: neither empty (as
/// between two adjacent separators) nor a lone `.`.
pub open spec fn is_named(piece: Seq<char>) -> bool {
    piece.len() > 0 && piece != seq!['.']
}

/// Reading `p` from the left: the named pieces that a separator of `style`
/// has already closed, and the piece still open after the last separator.
pub open spec fn named_pieces(style: PathStyle, p: Seq<char>) -> (Seq<Seq<char>>, Seq<char>)
    decreases p.len(),
{
    if p.len() == 0 {
        (Seq::empty(), Seq::empty())
    } else {
        let (closed, open) = named_pieces(style, p.drop_last());
        if is_separator(style, p.last()) {
            (if is_named(open) { closed.push(open) } else { closed }, Seq::empty())
        } else {
            (closed, open.push(p.last()))
        }
    }
}

/// What a path without prefix holds before its named pieces: the root
/// (written `/`) when it starts with a separator, `.` for a relative path
/// that starts with a `.` piece, and nothing else.
pub open spec fn leading_component(style: PathStyle, p: Seq<char>) -> Seq<Seq<char>> {
    if p.len() > 0 && is_separator(style, p[0]) {
        seq![seq!['/']]
    } else if p.len() > 0 && p[0] == '.' && (p.len() == 1 || is_separator(style, p[1])) {
        seq![seq!['.']]
    } else {
        Seq::empty()
    }
}

/// The components of a path without prefix: its leading component, then
/// every piece between separators other than empty pieces and `.` pieces.
pub open spec fn unprefixed_components(style: PathStyle, p: Seq<char>) -> Seq<Seq<char>> {
    let (closed, open) = named_pieces(style, p);
    leading_component(style, p) + if is_named(open) {
        closed.push(open)
    } else {
        closed
    }
}

/// `c` in upper case, when it is an ASCII lower-case letter.
pub open spec fn ascii_upper(c: char) -> char {
    if 'a' <= c && c <= 'z' {
        ((c as u32 - 32) as u8) as char
    } else {
        c
    }
}

/// The component a drive prefix such as `c:` stands for: its letter in upper
/// case, as `Path` parses a drive, then the colon.
pub open spec fn drive_component(p: Seq<char>) -> Seq<char> {
    seq![ascii_upper(p[0]), ':']
}

/// The components of a path, as `Path::components` yields them: a drive
/// prefix (Windows, with its letter in upper case), the root (written `/`) when the
/// rest starts with a separator, a leading `.` when a relative path starts
/// with one, then every piece between separators other than empty pieces and
/// `.` pieces. Repeated and trailing separators and inner `.` pieces thus
/// leave the components unchanged. A named piece never holds a separator nor
/// equals `.`, so two paths have equal component lists exactly when `Path`'s
/// equality holds between them. Windows device, UNC and verbatim prefixes
/// are not singled out: such a path is read by its separators alone.
pub open spec fn path_components(style: PathStyle, p: Seq<char>) -> Seq<Seq<char>> {
    if has_drive_prefix(style, p) {
        seq![drive_component(p)] + unprefixed_components(style, p.subrange(2, p.len() as int))
    } else {
        unprefixed_components(style, p)
    }
}

/// Two paths name the same path in `style`, component by component.
pub open spec fn same_path(style: PathStyle, a: Seq<char>, b: Seq<char>) -> bool {
    path_components(style, a) == path_components(style, b)
}

/// The character sequences of a list of character vectors.
pub open spec fn char_views(v: Seq<Vec<char>>) -> Seq<Seq<char>> {
    v.map_values(|c: Vec<char>| c@)
}

/// Whether a piece names something.
fn piece_is_named(piece: &Vec<char>) -> (r: bool)
    ensures
        r == is_named(piece@),
{
    if piece.len() == 0 {
        false
    } else if piece.len() == 1 && piece[0] == '.' {
        assert(piece@ =~= seq!['.']);
        false
    } else {
        assert(piece@.len() == 1 ==> piece@ != seq!['.']);
        true
    }
}

/// `c` in upper case, when it is an ASCII lower-case letter.
fn upper_letter(c: char) -> (r: char)
    ensures
        r == ascii_upper(c),
{
    if 'a' <= c && c <= 'z' {
        ((c as u32 - 32) as u8) as char
    } else {
        c
    }
}

/// Whether `c` separates components in `style`.
fn separates(style: PathStyle, c: char) -> (r: bool)
    ensures
        r == is_separator(style, c),
{
    c == '/' || (style == PathStyle::Windows && c == '\\')
}

/// The components of `path` in `style`.
pub(crate) fn components_of(style: PathStyle, path: &str) -> (r: Vec<Vec<char>>)
    ensures
        char_views(r@) == path_components(style, path@),
{
    let chars = chars_of(path);
    let n = chars.len();
    let mut closed: Vec<Vec<char>> = Vec::new();
    let drive = style == PathStyle::Windows && n >= 2 && (('a' <= chars[0] && chars[0] <= 'z') || (
    'A' <= chars[0] && chars[0] <= 'Z')) && chars[1] == ':';
    let base: usize = if drive {
        2
    } else {
        0
    };
    let ghost rest = chars@.subrange(base as int, n as int);
    let ghost head: Seq<Seq<char>> = if drive {
        seq![drive_component(chars@)]
    } else {
        Seq::empty()
    };
    if drive {
        let prefix = vec![upper_letter(chars[0]), ':'];
        assert(prefix@ =~= drive_component(chars@));
        closed.push(prefix);
    }
    assert(char_views(closed@) =~= head);
    let ghost lead = leading_component(style, rest);
    assert(rest.len() == n - base);
    assert(base < n ==> rest[0] == chars@[base as int]);
    assert(base + 1 < n ==> rest[1] == chars@[base + 1]);
    let ghost with_head = char_views(closed@);
    if base < n && separates(style, chars[base]) {
        let root = vec!['/'];
        assert(root@ =~= seq!['/']);
        closed.push(root);
        assert(char_views(closed@) =~= with_head + lead);
    } else if base < n && chars[base] == '.' && (base + 1 == n || separates(style, chars[base + 1])) {
        let current = vec!['.'];
        assert(current@ =~= seq!['.']);
        closed.push(current);
        assert(char_views(closed@) =~= with_head + lead);
    } else {
        assert(char_views(closed@) =~= with_head + lead);
    }
    assert(rest.take(0).len() == 0);
    assert(named_pieces(style, rest.take(0)).0 =~= Seq::<Seq<char>>::empty());
    assert(char_views(closed@) =~= head + lead + named_pieces(style, rest.take(0)).0);
    let mut open: Vec<char> = Vec::new();
    let mut i: usize = base;
    while i < n
        invariant
            base <= i <= n == chars.len(),
            rest == chars@.subrange(base as int, n as int),
            lead == leading_component(style, rest),
            char_views(closed@) == head + lead + named_pieces(style, rest.take(i - base)).0,
            open@ == named_pieces(style, rest.take(i - base)).1,
        decreases n - i,
    {
        let ghost before = char_views(closed@);
        assert(rest.take(i + 1 - base).drop_last() =~= rest.take(i - base));
        assert(rest.take(i + 1 - base).last() == chars@[i as int]);
        if separates(style, chars[i]) {
            if piece_is_named(&open) {
                let piece = open;
                closed.push(piece);
                assert(char_views(closed@) =~= before.push(open@));
            }
            open = Vec::new();
        } else {
            open.push(chars[i]);
        }
        i = i + 1;
    }
    assert(rest.take(n - base) =~= rest);
    let ghost before = char_views(closed@);
    if piece_is_named(&open) {
        let piece = open;
        closed.push(piece);
        assert(char_views(closed@) =~= before.push(open@));
    }
    assert(char_views(closed@) =~= path_components(style, path@));
    closed
}

/// Whether two character vectors hold the same characters.
fn same_chars(a: &Vec<char>, b: &Vec<char>) -> (r: bool)
    ensures
        r == (a@ == b@),
{
    if a.len() != b.len() {
        return false;
    }
    let mut i: usize = 0;
    while i < a.len()
        invariant
            i <= a.len() == b.len(),
            forall|j: int| 0 <= j < i ==> a@[j] == b@[j],
        decreases a.len() - i,
    {
        if a[i] != b[i] {
            return false;
        }
        i = i + 1;
    }
    assert(a@ =~= b@);
    true
}

/// Whether two component lists are equal.
pub(crate) fn same_components(a: &Vec<Vec<char>>, b: &Vec<Vec<char>>) -> (r: bool)
    ensures
        r == (char_views(a@) == char_views(b@)),
{
    if a.len() != b.len() {
        assert(char_views(a@).len() != char_views(b@).len());
        return false;
    }
    let mut i: usize = 0;
    while i < a.len()
        invariant
            i <= a.len() == b.len(),
            forall|j: int| 0 <= j < i ==> char_views(a@)[j] == char_views(b@)[j],
        decreases a.len() - i,
    {
        if !same_chars(&a[i], &b[i]) {
            assert(char_views(a@)[i as int] != char_views(b@)[i as int]);
            return false;
        }
        i = i + 1;
    }
    assert(char_views(a@) =~= char_views(b@));
    true
}

} // verus!
