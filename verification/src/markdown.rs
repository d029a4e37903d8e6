use vstd::prelude::*;

verus! {

/// Position of the last `c` in `s`, or -1 when `s` holds none.
pub open spec fn last_index_of(s: Seq<char>, c: char) -> int
    decreases s.len(),
{
    if s.len() == 0 {
        -1
    } else if s.last() == c {
        s.len() - 1
    } else {
        last_index_of(s.drop_last(), c)
    }
}

/// The path syntax of a platform, as far as file names are concerned.
#[derive(Clone, Copy, Debug, PartialEq, Eq, Structural)]
pub enum PathStyle {
    /// `/` separates components.
    Unix,
    /// `/` and `\` separate components, and a drive such as `C:` may lead
    /// the path.
    Windows,
}

/// Whether `c` separates path components in `style`.
pub open spec fn is_separator(style: PathStyle, c: char) -> bool {
    c == '/' || (style == PathStyle::Windows && c == '\\')
}

/// Position of the last separator of `style` in `s`, or -1 when `s` holds none.
pub open spec fn last_separator(style: PathStyle, s: Seq<char>) -> int
    decreases s.len(),
{
    if s.len() == 0 {
        -1
    } else if is_separator(style, s.last()) {
        s.len() - 1
    } else {
        last_separator(style, s.drop_last())
    }
}

/// `last_separator` names a position of a separator, and no later position
/// holds one.
pub proof fn lemma_last_separator(style: PathStyle, s: Seq<char>)
    ensures
        -1 <= last_separator(style, s) < s.len(),
        last_separator(style, s) >= 0 ==> is_separator(style, s[last_separator(style, s)]),
        forall|k: int| last_separator(style, s) < k < s.len() ==> !is_separator(style, #[trigger] s[k]),
    decreases s.len(),
{
    if s.len() > 0 && !is_separator(style, s.last()) {
        lemma_last_separator(style, s.drop_last());
        assert forall|k: int| last_separator(style, s) < k < s.len() implies !is_separator(style, #[trigger] s[k]) by {
            if k < s.len() - 1 {
                assert(s[k] == s.drop_last()[k]);
            }
        }
    }
}

/// Whether `path` starts with a drive such as `C:`, which in `style` is a
/// prefix rather than part of a file name.
pub open spec fn has_drive_prefix(style: PathStyle, path: Seq<char>) -> bool {
    &&& style == PathStyle::Windows
    &&& path.len() >= 2
    &&& (('a' <= path[0] && path[0] <= 'z') || ('A' <= path[0] && path[0] <= 'Z'))
    &&& path[1] == ':'
}

/// `path` without its drive prefix.
pub open spec fn after_prefix(style: PathStyle, path: Seq<char>) -> Seq<char> {
    if has_drive_prefix(style, path) {
        path.subrange(2, path.len() as int)
    } else {
        path
    }
}

/// The last component of a path that has no prefix, as `Path::file_name`
/// reports it: empty components and `.` components are skipped, and a path
/// that ends in `..`, or has no other component, has no file name.
pub open spec fn last_name(style: PathStyle, path: Seq<char>) -> Option<Seq<char>>
    decreases path.len(),
{
    if path.len() == 0 {
        None
    } else {
        let i = last_separator(style, path);
        let component = path.subrange(i + 1, path.len() as int);
        if component.len() == 0 || component == seq!['.'] {
            proof {
                lemma_last_separator(style, path);
            }
            last_name(style, path.subrange(0, if i < 0 { 0 } else { i }))
        } else if component == seq!['.', '.'] {
            None
        } else {
            Some(component)
        }
    }
}

/// The file name of a path in `style`, as `Path::file_name` reports it: the
/// last named component after any drive prefix. Windows device, UNC and
/// verbatim prefixes (`\\?\`, `\\.\`, `\\server\share`) are not
/// singled out: such a path is read by its separators alone.
pub open spec fn file_name(style: PathStyle, path: Seq<char>) -> Option<Seq<char>> {
    last_name(style, after_prefix(style, path))
}

/// The extension of a file name, as `Path::extension` reports it: what
/// follows the last `.`, provided that something precedes that dot.
pub open spec fn extension(name: Seq<char>) -> Option<Seq<char>> {
    let d = last_index_of(name, '.');
    if name == seq!['.', '.'] || d <= 0 {
        None
    } else {
        Some(name.subrange(d + 1, name.len() as int))
    }
}

/// `ext` equals `md` when ASCII case is ignored.
pub open spec fn is_md_extension(ext: Seq<char>) -> bool {
    &&& ext.len() == 2
    &&& (ext[0] == 'm' || ext[0] == 'M')
    &&& (ext[1] == 'd' || ext[1] == 'D')
}

/// A path names a Markdown file in `style` when its file name has the
/// extension `md`, in any ASCII case.
pub open spec fn is_markdown_path(style: PathStyle, path: Seq<char>) -> bool {
    match file_name(style, path) {
        Some(name) => match extension(name) {
            Some(ext) => is_md_extension(ext),
            None => false,
        },
        None => false,
    }
}

/// The characters of `s`, one per element.
pub(crate) fn chars_of(s: &str) -> (r: Vec<char>)
    ensures
        r@ == s@,
{
    let mut r: Vec<char> = Vec::new();
    for c in it: s.chars()
        invariant
            r@ == it.seq().take(it.index() as int),
            it.seq() == s@,
    {
        r.push(c);
    }
    r
}


/// Position of the last `c` among `chars[lo..hi]`.
fn rfind_in(chars: &Vec<char>, c: char, lo: usize, hi: usize) -> (r: Option<usize>)
    requires
        lo <= hi <= chars.len(),
    ensures
        match r {
            Some(i) => lo <= i < hi && i - lo == last_index_of(chars@.subrange(lo as int, hi as int), c),
            None => last_index_of(chars@.subrange(lo as int, hi as int), c) == -1,
        },
{
    let mut j = hi;
    while j > lo
        invariant
            lo <= j <= hi <= chars.len(),
            last_index_of(chars@.subrange(lo as int, hi as int), c) == last_index_of(
                chars@.subrange(lo as int, j as int),
                c,
            ),
        decreases j,
    {
        let ghost prefix = chars@.subrange(lo as int, j as int);
        assert(prefix.last() == chars@[j - 1]);
        if chars[j - 1] == c {
            return Some(j - 1);
        }
        assert(prefix.drop_last() =~= chars@.subrange(lo as int, j - 1));
        j = j - 1;
    }
    None
}

/// Whether the file name `chars[start..end]` has the extension `md`.
fn has_md_extension(chars: &Vec<char>, start: usize, end: usize) -> (r: bool)
    requires
        start < end <= chars.len(),
        chars@.subrange(start as int, end as int) != seq!['.', '.'],
    ensures
        r == match extension(chars@.subrange(start as int, end as int)) {
            Some(ext) => is_md_extension(ext),
            None => false,
        },
{
    let ghost name = chars@.subrange(start as int, end as int);
    match rfind_in(chars, '.', start, end) {
        None => false,
        Some(i) => {
            if i == start {
                false
            } else {
                let ghost ext = name.subrange(i - start + 1, name.len() as int);
                assert(ext =~= chars@.subrange(i + 1, end as int));
                end - i == 3 && (chars[i + 1] == 'm' || chars[i + 1] == 'M') && (chars[i + 2] == 'd'
                    || chars[i + 2] == 'D')
            }
        },
    }
}

/// Position of the last separator of `style` among `chars[lo..hi]`.
fn rfind_separator(chars: &Vec<char>, style: PathStyle, lo: usize, hi: usize) -> (r: Option<usize>)
    requires
        lo <= hi <= chars.len(),
    ensures
        match r {
            Some(i) => lo <= i < hi && i - lo == last_separator(
                style,
                chars@.subrange(lo as int, hi as int),
            ),
            None => last_separator(style, chars@.subrange(lo as int, hi as int)) == -1,
        },
{
    let mut j = hi;
    while j > lo
        invariant
            lo <= j <= hi <= chars.len(),
            last_separator(style, chars@.subrange(lo as int, hi as int)) == last_separator(
                style,
                chars@.subrange(lo as int, j as int),
            ),
        decreases j,
    {
        let ghost prefix = chars@.subrange(lo as int, j as int);
        assert(prefix.last() == chars@[j - 1]);
        let c = chars[j - 1];
        let sep = c == '/' || (style == PathStyle::Windows && c == '\\');
        if sep {
            return Some(j - 1);
        }
        assert(prefix.drop_last() =~= chars@.subrange(lo as int, j - 1));
        j = j - 1;
    }
    None
}

/// Whether the character is an ASCII letter.
fn is_ascii_letter(c: char) -> (r: bool)
    ensures
        r == (('a' <= c && c <= 'z') || ('A' <= c && c <= 'Z')),
{
    ('a' <= c && c <= 'z') || ('A' <= c && c <= 'Z')
}

/// Whether `path` names a Markdown file in `style`: its file name has the
/// extension `md`, in any ASCII case.
pub fn is_markdown_in(style: PathStyle, path: &str) -> (r: bool)
    ensures
        r == is_markdown_path(style, path@),
{
    let chars = chars_of(path);
    let base: usize = if style == PathStyle::Windows && chars.len() >= 2 && is_ascii_letter(chars[0])
        && chars[1] == ':' {
        2
    } else {
        0
    };
    let ghost rest = after_prefix(style, chars@);
    assert(rest =~= chars@.subrange(base as int, chars@.len() as int));
    let mut end = chars.len();
    loop
        invariant
            base <= end <= chars.len(),
            last_name(style, chars@.subrange(base as int, end as int)) == last_name(style, rest),
            rest == chars@.subrange(base as int, chars@.len() as int),
            rest == after_prefix(style, path@),
            chars@ == path@,
        decreases end,
    {
        let ghost prefix = chars@.subrange(base as int, end as int);
        if end == base {
            assert(prefix.len() == 0);
            return false;
        }
        let sep = rfind_separator(&chars, style, base, end);
        let start = match sep {
            Some(i) => i + 1,
            None => base,
        };
        let ghost component = prefix.subrange(start - base, end - base);
        assert(component =~= chars@.subrange(start as int, end as int));
        if end == start || (end - start == 1 && chars[start] == '.') {
            let next = match sep {
                Some(i) => i,
                None => base,
            };
            assert(component.len() == 0 || component =~= seq!['.']);
            assert(prefix.subrange(0, next - base) =~= chars@.subrange(base as int, next as int));
            end = next;
        } else if end - start == 2 && chars[start] == '.' && chars[start + 1] == '.' {
            assert(component =~= seq!['.', '.']);
            return false;
        } else {
            assert(component.len() == 1 ==> component[0] != '.');
            assert(component.len() == 2 ==> component[0] != '.' || component[1] != '.');
            assert(component != seq!['.']);
            assert(component != seq!['.', '.']);
            return has_md_extension(&chars, start, end);
        }
    }
}

/// Whether `\\` separates path components on the platform the library runs
/// on, as `std::path::is_separator` reports it. Nothing is stated of the
/// answer: it depends on the platform the library was built for.
#[verifier::external_body]
fn backslash_separates() -> (r: bool) {
    std::path::is_separator('\\')
}

impl PathStyle {
    /// The path syntax of the platform the library runs on: Windows where
    /// `\\` separates components, Unix elsewhere.
    pub fn host() -> (r: PathStyle) {
        if backslash_separates() {
            PathStyle::Windows
        } else {
            PathStyle::Unix
        }
    }
}

/// Whether `path` names a Markdown file on the platform the library runs on:
/// its file name, read with that platform's path syntax, has the extension
/// `md` in any ASCII case.
pub fn is_markdown(path: &str) -> (r: bool)
    ensures
        r == is_markdown_path(PathStyle::Unix, path@) || r == is_markdown_path(
            PathStyle::Windows,
            path@,
        ),
{
    let style = PathStyle::host();
    is_markdown_in(style, path)
}

} // verus!
