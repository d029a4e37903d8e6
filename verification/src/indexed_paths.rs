use vstd::prelude::*;

use crate::markdown::{chars_of, PathStyle};
use crate::paths::{char_views, components_of, path_components, same_components, same_path};
use crate::order::{
    lemma_lex_asymmetric, lemma_lex_irreflexive, lemma_lex_total, lemma_lex_transitive, lex_less,
    lex_lt, strictly_sorted,
};

verus! {

broadcast use {vstd::seq_lib::group_seq_properties, vstd::set_lib::group_set_lib_default};

/// The character sequences of a list of strings.
pub open spec fn views_of(strings: Seq<String>) -> Seq<Seq<char>> {
    strings.map_values(|s: String| s@)
}

/// Whether `s` holds a path with the same components as `p` in `style`.
pub open spec fn registers(style: PathStyle, s: Set<Seq<char>>, p: Seq<char>) -> bool {
    exists|q: Seq<char>| #[trigger] s.contains(q) && same_path(style, q, p)
}

/// The registered paths after registering `p`: unchanged when a path with
/// the same components is registered already, else `p` joins them.
pub open spec fn with_path(style: PathStyle, s: Set<Seq<char>>, p: Seq<char>) -> Set<Seq<char>> {
    if registers(style, s, p) {
        s
    } else {
        s.insert(p)
    }
}

/// The registered paths after registering each of `ps` in turn.
pub open spec fn with_paths(style: PathStyle, s: Set<Seq<char>>, ps: Seq<Seq<char>>) -> Set<Seq<char>>
    decreases ps.len(),
{
    if ps.len() == 0 {
        s
    } else {
        with_path(style, with_paths(style, s, ps.drop_last()), ps.last())
    }
}

/// The registered paths after unregistering `p`: every path with the same
/// components as `p` leaves.
pub open spec fn without_path(style: PathStyle, s: Set<Seq<char>>, p: Seq<char>) -> Set<Seq<char>> {
    s.filter(|q: Seq<char>| !same_path(style, q, p))
}

/// No two members of `s` name the same path in `style`.
pub open spec fn components_distinct(style: PathStyle, s: Set<Seq<char>>) -> bool {
    forall|a: Seq<char>, b: Seq<char>|
        #![trigger s.contains(a), s.contains(b)]
        s.contains(a) && s.contains(b) && same_path(style, a, b) ==> a == b
}

/// The registered paths after unregistering each of `ps` in turn.
pub open spec fn without_paths(style: PathStyle, s: Set<Seq<char>>, ps: Seq<Seq<char>>) -> Set<Seq<char>>
    decreases ps.len(),
{
    if ps.len() == 0 {
        s
    } else {
        without_path(style, without_paths(style, s, ps.drop_last()), ps.last())
    }
}

/// The set of paths currently registered in the search index.
///
/// Registration is the permission grant: a file may be read only when its
/// path is registered here. Paths are compared as `Path` compares them,
/// component by component in the registry's path syntax, so `/kb//a.md` and
/// `/kb/a.md/` name the path `/kb/a.md`; each registered path is kept under
/// the spelling it was first registered with.
pub struct IndexedPaths {
    style: PathStyle,
    paths: Vec<String>,
}

impl IndexedPaths {
    /// The registered paths, in storage order.
    pub closed spec fn entries(&self) -> Seq<Seq<char>> {
        views_of(self.paths@)
    }

    /// The path syntax by which paths are compared.
    pub closed spec fn path_style(&self) -> PathStyle {
        self.style
    }

    /// The components of the registered paths, in storage order.
    closed spec fn keys(&self) -> Seq<Seq<Seq<char>>> {
        self.entries().map_values(|p: Seq<char>| path_components(self.style, p))
    }

    /// No path is stored twice, under any spelling.
    #[verifier::type_invariant]
    closed spec fn distinct(&self) -> bool {
        self.keys().no_duplicates()
    }

    /// Registered paths with distinct components are distinct members of the
    /// view, and no two of them name the same path.
    proof fn lemma_view_distinct(&self)
        requires
            self.keys().no_duplicates(),
        ensures
            components_distinct(self.style, self@),
            self@.finite(),
    {
        assert forall|a: Seq<char>, b: Seq<char>|
            #![trigger self@.contains(a), self@.contains(b)]
            self@.contains(a) && self@.contains(b) && same_path(self.style, a, b) implies a == b by {
            let i = choose|i: int| 0 <= i < self.entries().len() && self.entries()[i] == a;
            let j = choose|j: int| 0 <= j < self.entries().len() && self.entries()[j] == b;
            assert(self.keys()[i] == path_components(self.style, a));
            assert(self.keys()[j] == path_components(self.style, b));
        }
    }

    /// Paths stored with distinct components are distinct.
    proof fn lemma_entries_distinct(&self)
        requires
            self.keys().no_duplicates(),
        ensures
            self.entries().no_duplicates(),
    {
        assert forall|i: int, j: int|
            0 <= i < self.entries().len() && 0 <= j < self.entries().len() && i != j implies
            self.entries()[i] != self.entries()[j] by {
            assert(self.keys()[i] == path_components(self.style, self.entries()[i]));
            assert(self.keys()[j] == path_components(self.style, self.entries()[j]));
        }
    }
}

impl IndexedPaths {
    /// The registry holds finitely many paths, so the laws on listings apply
    /// to it.
    pub proof fn lemma_finite(&self)
        ensures
            self@.finite(),
    {
    }
}

impl Default for IndexedPaths {
    fn default() -> (r: Self)
        ensures
            r@ == Set::<Seq<char>>::empty(),
    {
        IndexedPaths::new()
    }
}

impl View for IndexedPaths {
    type V = Set<Seq<char>>;

    closed spec fn view(&self) -> Set<Seq<char>> {
        self.entries().to_set()
    }
}

/// Removing position `i` from a sequence without duplicates removes exactly
/// the element at `i` from its set.
proof fn lemma_remove_index_to_set(s: Seq<Seq<char>>, i: int)
    requires
        s.no_duplicates(),
        0 <= i < s.len(),
    ensures
        s.remove(i).to_set() == s.to_set().remove(s[i]),
        s.remove(i).no_duplicates(),
{
    let r = s.remove(i);
    assert forall|x: Seq<char>| r.to_set().contains(x) <==> s.to_set().remove(s[i]).contains(x) by {
        if r.contains(x) {
            let j = choose|j: int| 0 <= j < r.len() && r[j] == x;
            if j < i {
                assert(s[j] == x);
            } else {
                assert(s[j + 1] == x);
            }
        }
        if s.to_set().remove(s[i]).contains(x) {
            let j = choose|j: int| 0 <= j < s.len() && s[j] == x;
            assert(j != i);
            if j < i {
                assert(r[j] == x);
            } else {
                assert(r[j - 1] == x);
            }
        }
    }
    assert(r.to_set() =~= s.to_set().remove(s[i]));
}

impl IndexedPaths {
    /// An empty set, comparing paths in the path syntax of the platform the
    /// library runs on.
    pub fn new() -> (r: IndexedPaths)
        ensures
            r@ == Set::<Seq<char>>::empty(),
    {
        IndexedPaths::with_style(PathStyle::host())
    }

    /// An empty set, comparing paths in `style`.
    pub fn with_style(style: PathStyle) -> (r: IndexedPaths)
        ensures
            r@ == Set::<Seq<char>>::empty(),
            r.path_style() == style,
    {
        let r = IndexedPaths { style, paths: Vec::new() };
        assert(r.entries() =~= Seq::<Seq<char>>::empty());
        assert(r.keys() =~= Seq::<Seq<Seq<char>>>::empty());
        assert(r@ =~= Set::<Seq<char>>::empty());
        r
    }

    /// Where the path with the components `key` is stored, if one is.
    fn position(&self, key: &Vec<Vec<char>>) -> (r: Option<usize>)
        ensures
            match r {
                Some(i) => i < self.paths.len() && path_components(self.style, self.paths@[i as int]@)
                    == char_views(key@),
                None => forall|j: int|
                    0 <= j < self.paths.len() ==> path_components(self.style, #[trigger] self.paths@[j]@)
                        != char_views(key@),
            },
    {
        let mut i: usize = 0;
        while i < self.paths.len()
            invariant
                i <= self.paths.len(),
                forall|j: int| 0 <= j < i ==> path_components(self.style, #[trigger] self.paths@[j]@) != char_views(key@),
            decreases self.paths.len() - i,
        {
            let stored = components_of(self.style, self.paths[i].as_str());
            if same_components(&stored, key) {
                return Some(i);
            }
            i = i + 1;
        }
        None
    }

    /// A path with the components `key` is registered exactly when it is
    /// stored at some position.
    proof fn lemma_registers(&self, p: Seq<char>)
        ensures
            registers(self.style, self@, p) <==> exists|j: int|
                0 <= j < self.paths.len() && path_components(self.style, #[trigger] self.paths@[j]@)
                    == path_components(self.style, p),
    {
        if registers(self.style, self@, p) {
            let q = choose|q: Seq<char>| #[trigger] self@.contains(q) && same_path(self.style, q, p);
            assert(self.entries().contains(q));
            let j = choose|j: int| 0 <= j < self.entries().len() && self.entries()[j] == q;
            assert(self.paths@[j]@ == q);
        }
        if exists|j: int|
            0 <= j < self.paths.len() && path_components(self.style, #[trigger] self.paths@[j]@)
                == path_components(self.style, p) {
            let j = choose|j: int|
                0 <= j < self.paths.len() && path_components(self.style, #[trigger] self.paths@[j]@)
                    == path_components(self.style, p);
            assert(self.entries()[j] == self.paths@[j]@);
            assert(self@.contains(self.paths@[j]@));
        }
    }

    /// Registers `path`. A path with the same components as a registered
    /// one is registered already, and the registry keeps its first spelling.
    pub fn insert(&mut self, path: String)
        ensures
            final(self)@ == with_path(old(self).path_style(), old(self)@, path@),
            final(self).path_style() == old(self).path_style(),
            components_distinct(final(self).path_style(), final(self)@),
            final(self)@.len() == old(self)@.len() + if registers(
                old(self).path_style(),
                old(self)@,
                path@,
            ) {
                0int
            } else {
                1int
            },
    {
        proof {
            use_type_invariant(&*self);
            self.lemma_registers(path@);
            self.lemma_view_distinct();
        }
        let key = components_of(self.style, path.as_str());
        if self.position(&key).is_some() {
            return;
        }
        let ghost before = self.entries();
        let ghost before_keys = self.keys();
        let ghost old_paths = self.paths@;
        let mut paths = Vec::new();
        std::mem::swap(&mut paths, &mut self.paths);
        paths.push(path);
        assert(views_of(paths@) =~= before.push(path@));
        proof {
            assert(views_of(paths@).map_values(|p: Seq<char>| path_components(self.style, p)) =~= before_keys.push(
                path_components(self.style, path@),
            ));
            assert forall|j: int| 0 <= j < before_keys.len() implies before_keys[j] != path_components(
                self.style,
                path@,
            ) by {
                assert(before_keys[j] == path_components(self.style, before[j]));
                assert(before[j] == old_paths[j]@);
            }
        }
        self.paths = paths;
        assert(self@ =~= before.to_set().insert(path@));
        proof {
            use_type_invariant(&*self);
            self.lemma_view_distinct();
        }
    }

    /// Registers every path of `paths`, in order.
    pub fn extend(&mut self, paths: Vec<String>)
        ensures
            final(self)@ == with_paths(old(self).path_style(), old(self)@, views_of(paths@)),
            final(self).path_style() == old(self).path_style(),
    {
        let mut i: usize = 0;
        while i < paths.len()
            invariant
                i <= paths.len(),
                self.path_style() == old(self).path_style(),
                self@ == with_paths(old(self).path_style(), old(self)@, views_of(paths@).take(i as int)),
            decreases paths.len() - i,
        {
            self.insert(paths[i].clone());
            assert(views_of(paths@).take(i + 1).drop_last() =~= views_of(paths@).take(i as int));
            i = i + 1;
        }
        assert(views_of(paths@).take(paths.len() as int) =~= views_of(paths@));
    }

    /// Unregisters `path`, under whatever spelling it was registered; the
    /// result tells whether it was registered.
    pub fn remove(&mut self, path: &str) -> (r: bool)
        ensures
            final(self)@ == without_path(old(self).path_style(), old(self)@, path@),
            final(self).path_style() == old(self).path_style(),
            r == registers(old(self).path_style(), old(self)@, path@),
            components_distinct(final(self).path_style(), final(self)@),
            r ==> final(self)@.len() == old(self)@.len() - 1,
            !r ==> final(self)@ == old(self)@,
    {
        proof {
            use_type_invariant(&*self);
            self.lemma_registers(path@);
            self.lemma_entries_distinct();
            self.lemma_view_distinct();
        }
        let key = components_of(self.style, path);
        let ghost style = self.style;
        match self.position(&key) {
            None => {
                assert(without_path(style, old(self)@, path@) =~= old(self)@) by {
                    assert forall|q: Seq<char>| old(self)@.contains(q) implies !same_path(style, q, path@) by {
                        if same_path(style, q, path@) {
                            assert(registers(style, old(self)@, path@));
                        }
                    }
                }
                false
            },
            Some(i) => {
                let ghost before = self.entries();
                let ghost before_keys = self.keys();
                proof {
                    lemma_remove_index_to_set(before, i as int);
                    assert(before_keys[i as int] == path_components(style, path@));
                    assert forall|q: Seq<char>| #[trigger]
                        without_path(style, old(self)@, path@).contains(q) <==> before.to_set().remove(
                            before[i as int],
                        ).contains(q) by {
                        if before.to_set().contains(q) {
                            let j = choose|j: int| 0 <= j < before.len() && before[j] == q;
                            assert(before_keys[j] == path_components(style, q));
                            if same_path(style, q, path@) {
                                assert(before_keys[j] == before_keys[i as int]);
                            }
                        }
                    }
                    assert(without_path(style, old(self)@, path@) =~= before.to_set().remove(before[i as int]));
                }
                let mut paths = Vec::new();
                std::mem::swap(&mut paths, &mut self.paths);
                paths.remove(i);
                assert(views_of(paths@) =~= before.remove(i as int));
                proof {
                    assert(views_of(paths@).map_values(|p: Seq<char>| path_components(style, p))
                        =~= before_keys.remove(i as int));
                    assert(before.to_set().contains(before[i as int]));
                }
                self.paths = paths;
                proof {
                    use_type_invariant(&*self);
                    self.lemma_view_distinct();
                }
                true
            },
        }
    }

    /// Unregisters every path of `paths`, each under whatever spelling it was
    /// registered: the first step of applying a batch of changes.
    pub fn remove_all(&mut self, paths: &Vec<String>)
        ensures
            final(self)@ == without_paths(old(self).path_style(), old(self)@, views_of(paths@)),
            final(self).path_style() == old(self).path_style(),
    {
        let mut i: usize = 0;
        while i < paths.len()
            invariant
                i <= paths.len(),
                self.path_style() == old(self).path_style(),
                self@ == without_paths(old(self).path_style(), old(self)@, views_of(paths@).take(i as int)),
            decreases paths.len() - i,
        {
            self.remove(paths[i].as_str());
            assert(views_of(paths@).take(i + 1).drop_last() =~= views_of(paths@).take(i as int));
            i = i + 1;
        }
        assert(views_of(paths@).take(paths.len() as int) =~= views_of(paths@));
    }

    /// Registers the re-indexed paths of a batch once indexing is over:
    /// every path of `paths` when indexing succeeded, none when it failed.
    pub fn register_indexed(&mut self, paths: Vec<String>, indexed: bool)
        ensures
            final(self)@ == if indexed {
                with_paths(old(self).path_style(), old(self)@, views_of(paths@))
            } else {
                old(self)@
            },
            final(self).path_style() == old(self).path_style(),
    {
        if indexed {
            self.extend(paths);
        }
    }

    /// Whether `path` is registered, under this or another spelling of the
    /// same components.
    pub fn contains(&self, path: &str) -> (r: bool)
        ensures
            r == registers(self.path_style(), self@, path@),
            components_distinct(self.path_style(), self@),
    {
        proof {
            use_type_invariant(self);
            self.lemma_registers(path@);
            self.lemma_view_distinct();
        }
        let key = components_of(self.style, path);
        self.position(&key).is_some()
    }

    /// The number of registered paths.
    pub fn len(&self) -> (r: usize)
        ensures
            r == self@.len(),
            components_distinct(self.path_style(), self@),
    {
        proof {
            use_type_invariant(self);
            self.lemma_view_distinct();
            self.lemma_entries_distinct();
            self.entries().unique_seq_to_set();
        }
        self.paths.len()
    }

    /// Whether no path is registered.
    pub fn is_empty(&self) -> (r: bool)
        ensures
            r == (self@.len() == 0),
            r == (self@ == Set::<Seq<char>>::empty()),
    {
        proof {
            use_type_invariant(self);
            self.lemma_entries_distinct();
            self.entries().unique_seq_to_set();
            if self.paths.len() > 0 {
                assert(self@.contains(self.entries()[0]));
            } else {
                assert(self@ =~= Set::<Seq<char>>::empty());
            }
        }
        self.paths.len() == 0
    }
}


/// The full contents of a file that was read.
#[derive(Clone, Debug)]
pub struct FileContent {
    /// Canonical path of the file that was read.
    pub path: String,
    /// The file's contents.
    pub content: String,
}

/// Why a request to read a file is refused.
#[derive(Clone, Copy, Debug, PartialEq, Eq)]
pub enum ReadFileError {
    /// The requested path does not resolve to an existing file.
    NotFound,
    /// The file exists but its path is not registered in the index.
    AccessDenied,
}

impl IndexedPaths {
    /// Decides a request to read a file. `canonical` is the canonical form
    /// of the requested path, or `None` when it could not be resolved. The
    /// file may be read, under its canonical path, exactly when that path is
    /// registered, under this or another spelling of the same components.
    pub fn authorize_read(&self, canonical: Option<String>) -> (r: Result<String, ReadFileError>)
        ensures
            match canonical {
                None => r == Err::<String, ReadFileError>(ReadFileError::NotFound),
                Some(c) => if registers(self.path_style(), self@, c@) {
                    r == Ok::<String, ReadFileError>(c)
                } else {
                    r == Err::<String, ReadFileError>(ReadFileError::AccessDenied)
                },
            },
    {
        match canonical {
            None => Err(ReadFileError::NotFound),
            Some(c) => {
                if self.contains(c.as_str()) {
                    Ok(c)
                } else {
                    Err(ReadFileError::AccessDenied)
                }
            },
        }
    }
}

/// Paging of a listing of the registered paths.
#[derive(Clone, Copy, Debug)]
pub struct ListOptions {
    /// Maximum number of paths to return; 0 asks for the total alone.
    pub limit: usize,
    /// Number of paths, in sorted order, to skip before the page starts.
    pub offset: usize,
}

/// Number of paths a listing returns when the caller names no limit.
pub const DEFAULT_LIST_LIMIT: usize = 100;

impl Default for ListOptions {
    fn default() -> (r: Self)
        ensures
            r.limit == DEFAULT_LIST_LIMIT,
            r.offset == 0,
    {
        ListOptions { limit: DEFAULT_LIST_LIMIT, offset: 0 }
    }
}

/// One page of the sorted listing of the registered paths.
#[derive(Clone, Debug)]
pub struct FileList {
    /// Number of registered paths, whatever the page holds.
    pub total: usize,
    /// The offset the page was asked for.
    pub offset: usize,
    /// The paths of the page, in ascending order.
    pub paths: Vec<String>,
}

/// How many members of `s` come before `p`: the position `p` takes in the
/// sorted listing of `s`.
pub open spec fn rank(s: Set<Seq<char>>, p: Seq<char>) -> nat {
    s.filter(|q: Seq<char>| lex_lt(q, p)).len()
}

/// Length of the page at `offset` of at most `limit` entries, out of `total`.
pub open spec fn page_len(total: nat, offset: nat, limit: nat) -> nat {
    if offset >= total {
        0
    } else if limit < total - offset {
        limit
    } else {
        (total - offset) as nat
    }
}

/// `page` is the page at `offset`, of at most `limit` entries, of the sorted
/// listing of `s`: it has the length such a page has, and its entry `i` is the
/// member of `s` that has exactly `offset + i` members before it.
pub open spec fn is_page(s: Set<Seq<char>>, offset: nat, limit: nat, page: Seq<Seq<char>>) -> bool {
    &&& page.len() == page_len(s.len(), offset, limit)
    &&& forall|i: int|
        0 <= i < page.len() ==> s.contains(#[trigger] page[i]) && rank(s, page[i]) == offset + i
}

/// A strictly sorted sequence holds no element twice.
pub proof fn lemma_sorted_no_duplicates(s: Seq<Seq<char>>)
    requires
        strictly_sorted(s),
    ensures
        s.no_duplicates(),
{
    assert forall|i: int, j: int| 0 <= i < s.len() && 0 <= j < s.len() && i != j implies s[i]
        != s[j] by {
        lemma_lex_irreflexive(s[i]);
        if i < j {
            assert(lex_lt(s[i], s[j]));
        } else {
            assert(lex_lt(s[j], s[i]));
        }
    }
}

/// In a strictly sorted sequence the element at `k` has rank `k` among all.
pub proof fn lemma_rank_in_sorted(s: Seq<Seq<char>>, k: int)
    requires
        strictly_sorted(s),
        0 <= k < s.len(),
    ensures
        rank(s.to_set(), s[k]) == k,
{
    let p = s[k];
    let below = s.to_set().filter(|q: Seq<char>| lex_lt(q, p));
    assert forall|q: Seq<char>| below.contains(q) <==> s.take(k).to_set().contains(q) by {
        if below.contains(q) {
            let j = choose|j: int| 0 <= j < s.len() && s[j] == q;
            lemma_lex_irreflexive(p);
            if j > k {
                assert(lex_lt(s[k], s[j]));
                lemma_lex_asymmetric(s[k], s[j]);
            }
            assert(s.take(k)[j] == q);
        }
        if s.take(k).to_set().contains(q) {
            let j = choose|j: int| 0 <= j < k && s.take(k)[j] == q;
            assert(s[j] == q);
            assert(lex_lt(s[j], s[k]));
        }
    }
    assert(below =~= s.take(k).to_set());
    lemma_sorted_no_duplicates(s);
    assert(s.take(k).no_duplicates());
    s.take(k).unique_seq_to_set();
}

/// Inserting `x` at its place keeps a sequence strictly sorted.
proof fn lemma_insert_sorted(s: Seq<Seq<char>>, pos: int, x: Seq<char>)
    requires
        strictly_sorted(s),
        0 <= pos <= s.len(),
        forall|j: int| 0 <= j < pos ==> lex_lt(#[trigger] s[j], x),
        pos < s.len() ==> lex_lt(x, s[pos]),
    ensures
        strictly_sorted(s.insert(pos, x)),
        s.insert(pos, x).to_set() == s.to_set().insert(x),
{
    let t = s.insert(pos, x);
    assert forall|i: int, j: int| 0 <= i < j < t.len() implies lex_lt(#[trigger] t[i], #[trigger] t[j]) by {
        if j < pos {
            assert(t[i] == s[i] && t[j] == s[j]);
        } else if j == pos {
            assert(t[i] == s[i]);
        } else if i > pos {
            assert(t[i] == s[i - 1] && t[j] == s[j - 1]);
        } else if i == pos {
            if j - 1 > pos {
                assert(lex_lt(s[pos], s[j - 1]));
                lemma_lex_transitive(x, s[pos], s[j - 1]);
            }
        } else {
            assert(t[i] == s[i]);
            assert(t[j] == s[j - 1]);
            if j - 1 > pos {
                assert(lex_lt(s[pos], s[j - 1]));
                lemma_lex_transitive(x, s[pos], s[j - 1]);
            }
            lemma_lex_transitive(s[i], x, s[j - 1]);
        }
    }
    assert forall|q: Seq<char>| t.to_set().contains(q) <==> s.to_set().insert(x).contains(q) by {
        if t.contains(q) {
            let j = choose|j: int| 0 <= j < t.len() && t[j] == q;
            if j < pos {
                assert(s[j] == q);
            } else if j > pos {
                assert(s[j - 1] == q);
            }
        }
        if s.contains(q) {
            let j = choose|j: int| 0 <= j < s.len() && s[j] == q;
            if j < pos {
                assert(t[j] == q);
            } else {
                assert(t[j + 1] == q);
            }
        }
        if q == x {
            assert(t[pos] == x);
        }
    }
    assert(t.to_set() =~= s.to_set().insert(x));
}

/// The first position in the sorted `keys` whose key does not come before `key`.
fn insertion_point(keys: &Vec<Vec<char>>, key: &Vec<char>) -> (pos: usize)
    ensures
        pos <= keys.len(),
        forall|j: int| 0 <= j < pos ==> lex_lt(#[trigger] keys@[j]@, key@),
        pos < keys.len() ==> !lex_lt(keys@[pos as int]@, key@),
{
    let mut pos: usize = 0;
    while pos < keys.len()
        invariant
            pos <= keys.len(),
            forall|j: int| 0 <= j < pos ==> lex_lt(#[trigger] keys@[j]@, key@),
        decreases keys.len() - pos,
    {
        if !lex_less(&keys[pos], key) {
            return pos;
        }
        pos = pos + 1;
    }
    pos
}

impl IndexedPaths {
    /// The registered paths in ascending order.
    fn sorted_paths(&self) -> (r: Vec<String>)
        ensures
            strictly_sorted(views_of(r@)),
            views_of(r@).to_set() == self@,
            r.len() == self.paths.len(),
    {
        proof {
            use_type_invariant(self);
            self.lemma_entries_distinct();
        }
        let mut sorted: Vec<String> = Vec::new();
        let mut keys: Vec<Vec<char>> = Vec::new();
        let mut k: usize = 0;
        assert(views_of(sorted@).to_set() =~= self.entries().take(0).to_set());
        while k < self.paths.len()
            invariant
                k <= self.paths.len(),
                self.entries().no_duplicates(),
                keys.len() == sorted.len(),
                sorted.len() == k,
                forall|j: int| 0 <= j < keys.len() ==> #[trigger] keys@[j]@ == sorted@[j]@,
                strictly_sorted(views_of(sorted@)),
                views_of(sorted@).to_set() == self.entries().take(k as int).to_set(),
            decreases self.paths.len() - k,
        {
            let ghost before = views_of(sorted@);
            let ghost keys_before = keys@;
            let ghost sorted_before = sorted@;
            let key = chars_of(self.paths[k].as_str());
            let pos = insertion_point(&keys, &key);
            assert(key@ == self.entries()[k as int]);
            proof {
                assert(!self.entries().take(k as int).contains(key@));
                assert(!before.contains(key@)) by {
                    assert(!before.to_set().contains(key@));
                }
                assert forall|j: int| 0 <= j < pos implies lex_lt(#[trigger] before[j], key@) by {
                    assert(keys@[j]@ == before[j]);
                }
                if pos < before.len() {
                    assert(keys@[pos as int]@ == before[pos as int]);
                    assert(before[pos as int] != key@);
                    lemma_lex_total(before[pos as int], key@);
                }
                lemma_insert_sorted(before, pos as int, key@);
            }
            sorted.insert(pos, self.paths[k].clone());
            keys.insert(pos, key);
            assert(views_of(sorted@) =~= before.insert(pos as int, key@));
            assert forall|j: int| 0 <= j < keys.len() implies #[trigger] keys@[j]@ == sorted@[j]@ by {
                if j < pos {
                    assert(keys@[j] == keys_before[j] && sorted@[j] == sorted_before[j]);
                } else if j > pos {
                    assert(keys@[j] == keys_before[j - 1] && sorted@[j] == sorted_before[j - 1]);
                }
            }
            assert(self.entries().take(k + 1) =~= self.entries().take(k as int).push(key@));
            k = k + 1;
        }
        assert(self.entries().take(self.paths.len() as int) =~= self.entries());
        sorted
    }

    /// One page of the registered paths in ascending order, with the total
    /// number of registered paths: the page holds the paths whose positions
    /// in the sorted listing run from `offset` for at most `limit` entries.
    pub fn list_files(&self, opts: &ListOptions) -> (r: FileList)
        ensures
            r.total == self@.len(),
            r.offset == opts.offset,
            is_page(self@, opts.offset as nat, opts.limit as nat, views_of(r.paths@)),
            strictly_sorted(views_of(r.paths@)),
    {
        proof {
            use_type_invariant(self);
            self.lemma_entries_distinct();
            self.entries().unique_seq_to_set();
        }
        let sorted = self.sorted_paths();
        let n = sorted.len();
        let start = if opts.offset < n {
            opts.offset
        } else {
            n
        };
        let end = if opts.limit >= n - start {
            n
        } else {
            start + opts.limit
        };
        let ghost all = views_of(sorted@);
        let mut page: Vec<String> = Vec::new();
        let mut k = start;
        while k < end
            invariant
                start <= k <= end <= n,
                n == sorted.len(),
                all == views_of(sorted@),
                views_of(page@) == all.subrange(start as int, k as int),
                page.len() == k - start,
            decreases end - k,
        {
            let ghost prev = page@;
            page.push(sorted[k].clone());
            assert(page@ == prev.push(sorted@[k as int]));
            assert(all[k as int] == sorted@[k as int]@);
            assert(views_of(page@) =~= views_of(prev).push(all[k as int]));
            assert(views_of(page@) =~= all.subrange(start as int, k + 1));
            k = k + 1;
        }
        proof {
            assert forall|i: int| 0 <= i < page.len() implies self@.contains(
                #[trigger] views_of(page@)[i],
            ) && rank(self@, views_of(page@)[i]) == opts.offset + i by {
                assert(all[start + i] == views_of(page@)[i]);
                lemma_rank_in_sorted(all, start + i);
            }
            assert forall|i: int, j: int| 0 <= i < j < page.len() implies lex_lt(
                #[trigger] views_of(page@)[i],
                #[trigger] views_of(page@)[j],
            ) by {
                assert(views_of(page@)[i] == all[start + i]);
                assert(views_of(page@)[j] == all[start + j]);
            }
        }
        FileList { total: n, offset: opts.offset, paths: page }
    }
}

} // verus!
