use vstd::prelude::*;

use crate::events::{
    accumulated, calls_for_indexing, mark, mark_by_presence, mark_each, paths_to_index,
    paths_to_remove, presence_kind, record, EventKind, EventPath, PendingMap, RenameMode,
};
use crate::indexed_paths::{
    is_page, page_len, rank, registers, with_path, with_paths, without_path, without_paths,
};
use crate::markdown::{
    after_prefix, extension, file_name, has_drive_prefix, is_markdown_path, is_md_extension,
    is_separator, last_index_of, last_name, last_separator, lemma_last_separator, PathStyle,
};
use crate::order::{lemma_lex_irreflexive, lemma_lex_total, lemma_lex_transitive, lex_lt};
use crate::index_location::{fnv1a, fnv_step, FNV_PRIME};
use crate::paths::{is_named, named_pieces, path_components, same_path, unprefixed_components};

verus! {

broadcast use {vstd::seq_lib::group_seq_properties, vstd::set_lib::group_set_lib_default};

// ---------------------------------------------------------------------------
// Registration and read access
// ---------------------------------------------------------------------------

/// Registering a path grants read access to it under every spelling of its
/// components: after `insert(path)`, `contains` reports, and `authorize_read`
/// admits, any path with the same components.
pub proof fn law_registration_grants_read(style: PathStyle, registered: Set<Seq<char>>, path: Seq<char>, other: Seq<char>)
    requires
        same_path(style, path, other),
    ensures
        registers(style, with_path(style, registered, path), other),
{
    if !registers(style, registered, path) {
        assert(with_path(style, registered, path).contains(path));
    } else {
        let q = choose|q: Seq<char>| #[trigger] registered.contains(q) && same_path(style, q, path);
        assert(registered.contains(q) && same_path(style, q, other));
    }
}

/// Unregistering a path revokes read access to it under every spelling of
/// its components: after `remove(path)`, `contains` reports none of them and
/// `authorize_read` refuses them all.
pub proof fn law_unregistration_revokes_read(style: PathStyle, registered: Set<Seq<char>>, path: Seq<char>, other: Seq<char>)
    requires
        same_path(style, path, other),
    ensures
        !registers(style, without_path(style, registered, path), other),
{
}

/// Registering or unregistering one path leaves the access of every path
/// with other components as it was.
pub proof fn law_other_paths_unaffected(
    style: PathStyle,
    registered: Set<Seq<char>>,
    path: Seq<char>,
    other: Seq<char>,
)
    requires
        !same_path(style, path, other),
    ensures
        registers(style, with_path(style, registered, path), other) == registers(style, registered, other),
        registers(style, without_path(style, registered, path), other) == registers(style, registered, other),
{
    if registers(style, registered, other) {
        let q = choose|q: Seq<char>| #[trigger] registered.contains(q) && same_path(style, q, other);
        assert(with_path(style, registered, path).contains(q));
        assert(without_path(style, registered, path).contains(q));
    }
    if registers(style, with_path(style, registered, path), other) {
        let q = choose|q: Seq<char>| #[trigger] with_path(style, registered, path).contains(q) && same_path(style, q, other);
        assert(q != path);
        assert(registered.contains(q));
    }
}

/// Unregistering a path that was just registered, and was registered under
/// no spelling before, restores the registry.
pub proof fn law_remove_undoes_insert(style: PathStyle, registered: Set<Seq<char>>, path: Seq<char>)
    requires
        !registers(style, registered, path),
    ensures
        without_path(style, with_path(style, registered, path), path) == registered,
{
    assert forall|q: Seq<char>| registered.contains(q) implies !same_path(style, q, path) by {
        if same_path(style, q, path) {
            assert(registers(style, registered, path));
        }
    }
    assert(without_path(style, with_path(style, registered, path), path) =~= registered);
}

/// Registering a path twice, or under two spellings of the same components,
/// has the effect of registering it once; registering a registered path
/// leaves the registry, and so its count, unchanged.
pub proof fn law_insert_idempotent(style: PathStyle, registered: Set<Seq<char>>, path: Seq<char>, other: Seq<char>)
    requires
        same_path(style, path, other),
    ensures
        with_path(style, with_path(style, registered, path), other) == with_path(style, registered, path),
        registers(style, registered, path) ==> with_path(style, registered, path) == registered,
{
    law_registration_grants_read(style, registered, path, other);
}

/// Registering a path never takes another path's access away.
proof fn lemma_with_path_keeps(style: PathStyle, s: Set<Seq<char>>, p: Seq<char>, q: Seq<char>)
    requires
        registers(style, s, q),
    ensures
        registers(style, with_path(style, s, p), q),
{
    let w = choose|w: Seq<char>| #[trigger] s.contains(w) && same_path(style, w, q);
    assert(with_path(style, s, p).contains(w));
}

/// After registering each of `ps`, every one of them is registered.
proof fn lemma_with_paths_registers(style: PathStyle, s: Set<Seq<char>>, ps: Seq<Seq<char>>, i: int)
    requires
        0 <= i < ps.len(),
    ensures
        registers(style, with_paths(style, s, ps), ps[i]),
    decreases ps.len(),
{
    let init = ps.drop_last();
    if i == ps.len() - 1 {
        law_registration_grants_read(style, with_paths(style, s, init), ps[i], ps[i]);
    } else {
        lemma_with_paths_registers(style, s, init, i);
        lemma_with_path_keeps(style, with_paths(style, s, init), ps.last(), ps[i]);
    }
}

/// Unregistering paths only ever takes access away.
proof fn lemma_without_paths_subset(style: PathStyle, s: Set<Seq<char>>, ps: Seq<Seq<char>>)
    ensures
        without_paths(style, s, ps).subset_of(s),
    decreases ps.len(),
{
    if ps.len() > 0 {
        lemma_without_paths_subset(style, s, ps.drop_last());
    }
}

/// A batch's re-indexed paths are readable once the batch is applied with
/// successful indexing: after `remove_all` of the removed paths and
/// `register_indexed` of the re-indexed ones, each re-indexed path is
/// registered.
pub proof fn law_reindexed_paths_registered(
    style: PathStyle,
    s: Set<Seq<char>>,
    removed: Seq<Seq<char>>,
    reindexed: Seq<Seq<char>>,
    i: int,
)
    requires
        0 <= i < reindexed.len(),
    ensures
        registers(style, with_paths(style, without_paths(style, s, removed), reindexed), reindexed[i]),
{
    lemma_with_paths_registers(style, without_paths(style, s, removed), reindexed, i);
}

/// A batch applied with failed indexing grants no new access: every path
/// registered afterwards was registered before.
pub proof fn law_failed_indexing_adds_nothing(
    style: PathStyle,
    s: Set<Seq<char>>,
    removed: Seq<Seq<char>>,
    q: Seq<char>,
)
    requires
        registers(style, without_paths(style, s, removed), q),
    ensures
        registers(style, s, q),
{
    lemma_without_paths_subset(style, s, removed);
    let w = choose|w: Seq<char>| #[trigger] without_paths(style, s, removed).contains(w) && same_path(style, w, q);
    assert(s.contains(w));
}

/// A batch's removed paths are unreadable once their removal is applied,
/// under every spelling of their components.
pub proof fn law_removed_paths_unregistered(
    style: PathStyle,
    s: Set<Seq<char>>,
    removed: Seq<Seq<char>>,
    i: int,
    other: Seq<char>,
)
    requires
        0 <= i < removed.len(),
        same_path(style, removed[i], other),
    ensures
        !registers(style, without_paths(style, s, removed), other),
    decreases removed.len(),
{
    let init = removed.drop_last();
    if i < removed.len() - 1 {
        law_removed_paths_unregistered(style, s, init, i, other);
        lemma_without_paths_subset(style, without_paths(style, s, init), seq![removed.last()]);
        if registers(style, without_paths(style, s, removed), other) {
            let w = choose|w: Seq<char>| #[trigger]
                without_paths(style, s, removed).contains(w) && same_path(style, w, other);
            assert(without_paths(style, s, init).contains(w));
        }
    }
}

/// Unregistering a batch keeps every other path: a registered path whose
/// components no path of the batch has stays registered, under the same
/// spelling.
pub proof fn law_remove_all_keeps_others(
    style: PathStyle,
    s: Set<Seq<char>>,
    ps: Seq<Seq<char>>,
    q: Seq<char>,
)
    requires
        s.contains(q),
        forall|i: int| 0 <= i < ps.len() ==> !same_path(style, #[trigger] ps[i], q),
    ensures
        without_paths(style, s, ps).contains(q),
        registers(style, without_paths(style, s, ps), q),
    decreases ps.len(),
{
    if ps.len() > 0 {
        let init = ps.drop_last();
        assert forall|i: int| 0 <= i < init.len() implies !same_path(style, #[trigger] init[i], q) by {
            assert(init[i] == ps[i]);
        }
        law_remove_all_keeps_others(style, s, init, q);
        assert(!same_path(style, ps[ps.len() - 1], q));
    }
    assert(same_path(style, q, q));
}

/// Registering a batch never takes anything away: every path held before is
/// still held, under the same spelling, and so still registered.
pub proof fn law_with_paths_keeps(style: PathStyle, s: Set<Seq<char>>, ps: Seq<Seq<char>>)
    ensures
        s.subset_of(with_paths(style, s, ps)),
    decreases ps.len(),
{
    if ps.len() > 0 {
        law_with_paths_keeps(style, s, ps.drop_last());
    }
}

/// Registering a batch keeps every registered path registered.
pub proof fn law_with_paths_keeps_access(style: PathStyle, s: Set<Seq<char>>, ps: Seq<Seq<char>>, q: Seq<char>)
    requires
        registers(style, s, q),
    ensures
        registers(style, with_paths(style, s, ps), q),
{
    law_with_paths_keeps(style, s, ps);
    let w = choose|w: Seq<char>| #[trigger] s.contains(w) && same_path(style, w, q);
    assert(with_paths(style, s, ps).contains(w));
}

// ---------------------------------------------------------------------------
// Paged listings
// ---------------------------------------------------------------------------

/// Distinct members of a finite set have distinct ranks.
pub proof fn lemma_rank_injective(s: Set<Seq<char>>, x: Seq<char>, y: Seq<char>)
    requires
        s.finite(),
        s.contains(x),
        s.contains(y),
        x != y,
    ensures
        rank(s, x) != rank(s, y),
{
    lemma_lex_total(x, y);
    let (lo, hi) = if lex_lt(x, y) {
        (x, y)
    } else {
        (y, x)
    };
    let below_lo = s.filter(|q: Seq<char>| lex_lt(q, lo));
    let below_hi = s.filter(|q: Seq<char>| lex_lt(q, hi));
    assert forall|q: Seq<char>| below_lo.contains(q) implies below_hi.remove(lo).contains(q) by {
        lemma_lex_transitive(q, lo, hi);
        lemma_lex_irreflexive(lo);
    }
    vstd::set_lib::lemma_len_subset(below_lo, below_hi.remove(lo));
    assert(below_hi.contains(lo));
}

/// A page of a listing is determined by the registered paths, the offset
/// and the limit: two calls of `list_files` with the same options on the
/// same registry return the same paths.
pub proof fn law_page_unique(
    s: Set<Seq<char>>,
    offset: nat,
    limit: nat,
    a: Seq<Seq<char>>,
    b: Seq<Seq<char>>,
)
    requires
        s.finite(),
        is_page(s, offset, limit, a),
        is_page(s, offset, limit, b),
    ensures
        a == b,
{
    assert forall|i: int| 0 <= i < a.len() implies a[i] == b[i] by {
        if a[i] != b[i] {
            lemma_rank_injective(s, a[i], b[i]);
        }
    }
    assert(a =~= b);
}

/// Consecutive pages concatenate: the page at `offset` of `first` entries
/// followed by the page right after it of `second` entries is the page at
/// `offset` of `first + second` entries.
pub proof fn law_pages_concatenate(
    s: Set<Seq<char>>,
    offset: nat,
    first: nat,
    second: nat,
    head: Seq<Seq<char>>,
    tail: Seq<Seq<char>>,
    whole: Seq<Seq<char>>,
)
    requires
        s.finite(),
        is_page(s, offset, first, head),
        is_page(s, offset + first, second, tail),
        is_page(s, offset, first + second, whole),
    ensures
        whole == head + tail,
{
    let joined = head + tail;
    assert(joined.len() == page_len(s.len(), offset, first + second));
    assert forall|i: int| 0 <= i < joined.len() implies s.contains(#[trigger] joined[i]) && rank(
        s,
        joined[i],
    ) == offset + i by {
        if i >= head.len() {
            assert(joined[i] == tail[i - head.len()]);
            assert(head.len() == first);
        } else {
            assert(joined[i] == head[i]);
        }
    }
    law_page_unique(s, offset, first + second, whole, joined);
}

/// A listing from offset 0 with room for every path lists each registered
/// path exactly once.
pub proof fn law_full_listing_complete(s: Set<Seq<char>>, page: Seq<Seq<char>>)
    requires
        s.finite(),
        is_page(s, 0, s.len(), page),
    ensures
        page.no_duplicates(),
        page.to_set() == s,
{
    assert forall|i: int, j: int| 0 <= i < page.len() && 0 <= j < page.len() && i != j implies page[i]
        != page[j] by {
        assert(rank(s, page[i]) == i);
        assert(rank(s, page[j]) == j);
    }
    page.unique_seq_to_set();
    assert(page.to_set().subset_of(s));
    vstd::set_lib::lemma_subset_equality(page.to_set(), s);
}

/// Every path that a listing returns is registered, so `authorize_read`
/// admits it.
pub proof fn law_listed_paths_are_readable(
    s: Set<Seq<char>>,
    offset: nat,
    limit: nat,
    page: Seq<Seq<char>>,
    i: int,
)
    requires
        is_page(s, offset, limit, page),
        0 <= i < page.len(),
    ensures
        s.contains(page[i]),
{
}

/// A listing asked with a limit of 0, or an offset at or past the end,
/// holds no path.
pub proof fn law_empty_pages(s: Set<Seq<char>>, offset: nat, limit: nat, page: Seq<Seq<char>>)
    requires
        is_page(s, offset, limit, page),
        limit == 0 || offset >= s.len(),
    ensures
        page.len() == 0,
{
}

// ---------------------------------------------------------------------------
// Change events
// ---------------------------------------------------------------------------

/// Every pending path is a Markdown file in `style`, kept under its own
/// components.
pub open spec fn well_kept(style: PathStyle, m: PendingMap) -> bool {
    forall|k: Seq<Seq<char>>| #[trigger]
        m.dom().contains(k) ==> is_markdown_path(style, m[k].0) && path_components(style, m[k].0) == k
}

proof fn lemma_mark_kept(style: PathStyle, m: PendingMap, path: Seq<char>, kind: EventKind)
    requires
        well_kept(style, m),
    ensures
        well_kept(style, mark(style, m, path, kind)),
{
}

proof fn lemma_mark_each_kept(style: PathStyle, m: PendingMap, paths: Seq<EventPath>, kind: EventKind)
    requires
        well_kept(style, m),
    ensures
        well_kept(style, mark_each(style, m, paths, kind)),
    decreases paths.len(),
{
    if paths.len() > 0 {
        lemma_mark_each_kept(style, m, paths.drop_last(), kind);
        lemma_mark_kept(style, mark_each(style, m, paths.drop_last(), kind), paths.last().path@, kind);
    }
}

proof fn lemma_mark_by_presence_kept(style: PathStyle, m: PendingMap, paths: Seq<EventPath>)
    requires
        well_kept(style, m),
    ensures
        well_kept(style, mark_by_presence(style, m, paths)),
    decreases paths.len(),
{
    if paths.len() > 0 {
        lemma_mark_by_presence_kept(style, m, paths.drop_last());
    }
}

/// Only Markdown paths enter the pending events, each under its own
/// components: `accumulate` keeps every pending path a Markdown file whose
/// key is its components.
pub proof fn law_only_markdown_pending(style: PathStyle, m: PendingMap, kind: EventKind, paths: Seq<EventPath>)
    requires
        well_kept(style, m),
    ensures
        well_kept(style, accumulated(style, m, kind, paths)),
{
    match kind {
        EventKind::Rename(RenameMode::From) | EventKind::Rename(RenameMode::To) => {},
        EventKind::Rename(RenameMode::Both) => {
            if paths.len() > 0 {
                lemma_mark_kept(style, m, paths[0].path@, EventKind::Remove);
            }
        },
        EventKind::Rename(_) => {
            lemma_mark_by_presence_kept(style, m, paths);
        },
        _ => {
            lemma_mark_each_kept(style, m, paths, kind);
        },
    }
}

/// No pending kind is a rename.
pub open spec fn renames_resolved(m: PendingMap) -> bool {
    forall|k: Seq<Seq<char>>| #[trigger] m.dom().contains(k) ==> !(m[k].1 is Rename)
}

proof fn lemma_mark_each_resolved(style: PathStyle, m: PendingMap, paths: Seq<EventPath>, kind: EventKind)
    requires
        renames_resolved(m),
        !(kind is Rename),
    ensures
        renames_resolved(mark_each(style, m, paths, kind)),
    decreases paths.len(),
{
    if paths.len() > 0 {
        lemma_mark_each_resolved(style, m, paths.drop_last(), kind);
    }
}

proof fn lemma_mark_by_presence_resolved(style: PathStyle, m: PendingMap, paths: Seq<EventPath>)
    requires
        renames_resolved(m),
    ensures
        renames_resolved(mark_by_presence(style, m, paths)),
    decreases paths.len(),
{
    if paths.len() > 0 {
        lemma_mark_by_presence_resolved(style, m, paths.drop_last());
    }
}

/// Renames never reach the pending events: `accumulate` turns them into
/// creations and removals, so no pending path ever has a rename as its kind.
pub proof fn law_renames_resolved(style: PathStyle, m: PendingMap, kind: EventKind, paths: Seq<EventPath>)
    requires
        renames_resolved(m),
    ensures
        renames_resolved(accumulated(style, m, kind, paths)),
{
    match kind {
        EventKind::Rename(RenameMode::From) | EventKind::Rename(RenameMode::To) | EventKind::Rename(
            RenameMode::Both,
        ) => {},
        EventKind::Rename(_) => {
            lemma_mark_by_presence_resolved(style, m, paths);
        },
        _ => {
            lemma_mark_each_resolved(style, m, paths, kind);
        },
    }
}

/// The latest event of a path wins: after an event that is not a rename,
/// the last Markdown path it names is pending with that event's kind,
/// whatever was pending before under any spelling of its components.
pub proof fn law_latest_kind_wins(style: PathStyle, m: PendingMap, kind: EventKind, paths: Seq<EventPath>)
    requires
        !(kind is Rename),
        paths.len() > 0,
        is_markdown_path(style, paths.last().path@),
    ensures
        accumulated(style, m, kind, paths).dom().contains(path_components(style, paths.last().path@)),
        accumulated(style, m, kind, paths)[path_components(style, paths.last().path@)].1 == kind,
{
}

/// A path pending under one spelling stays under that spelling when events
/// report it under another spelling of the same components.
pub proof fn law_first_spelling_kept(style: PathStyle, m: PendingMap, path: Seq<char>, kind: EventKind)
    requires
        m.dom().contains(path_components(style, path)),
    ensures
        record(style, m, path, kind)[path_components(style, path)] == (m[path_components(style, path)].0, kind),
        record(style, m, path, kind).dom() == m.dom(),
{
    assert(record(style, m, path, kind).dom() =~= m.dom());
}

/// A rename that names its old and new path records the old one as removed
/// and the new one as created, when both are Markdown files and differ.
pub proof fn law_rename_moves(style: PathStyle, m: PendingMap, paths: Seq<EventPath>)
    requires
        paths.len() > 1,
        is_markdown_path(style, paths[0].path@),
        is_markdown_path(style, paths[1].path@),
        !same_path(style, paths[0].path@, paths[1].path@),
    ensures
        accumulated(style, m, EventKind::Rename(RenameMode::Both), paths)[path_components(style, 
            paths[0].path@,
        )].1 == EventKind::Remove,
        accumulated(style, m, EventKind::Rename(RenameMode::Both), paths)[path_components(style, 
            paths[1].path@,
        )].1 == EventKind::Create,
{
}

/// A rename that names its old and new path records the new one as
/// created whenever it is a Markdown file, whatever the old path is: a file
/// renamed to a Markdown name (as editors do when they save through a
/// temporary file) is indexed.
pub proof fn law_rename_to_markdown_creates(style: PathStyle, m: PendingMap, paths: Seq<EventPath>)
    requires
        paths.len() > 1,
        is_markdown_path(style, paths[1].path@),
    ensures
        accumulated(style, m, EventKind::Rename(RenameMode::Both), paths).dom().contains(
            path_components(style, paths[1].path@),
        ),
        accumulated(style, m, EventKind::Rename(RenameMode::Both), paths)[path_components(
            style,
            paths[1].path@,
        )].1 == EventKind::Create,
{
}

/// A rename that reports only its new path records it as created when it
/// is a Markdown file.
pub proof fn law_rename_to_creates(style: PathStyle, m: PendingMap, paths: Seq<EventPath>)
    requires
        paths.len() > 0,
        is_markdown_path(style, paths[0].path@),
    ensures
        accumulated(style, m, EventKind::Rename(RenameMode::To), paths).dom().contains(
            path_components(style, paths[0].path@),
        ),
        accumulated(style, m, EventKind::Rename(RenameMode::To), paths)[path_components(
            style,
            paths[0].path@,
        )].1 == EventKind::Create,
{
}

/// A batch never both re-indexes and removes the same path.
pub proof fn law_batch_disjoint(style: PathStyle, m: PendingMap)
    requires
        well_kept(style, m),
    ensures
        paths_to_index(m).disjoint(paths_to_remove(m)),
{
    assert forall|p: Seq<char>| paths_to_index(m).contains(p) implies !paths_to_remove(m).contains(p) by {
        let k = choose|k: Seq<Seq<char>>| #[trigger]
            m.dom().contains(k) && m[k].0 == p && calls_for_indexing(m[k].1);
        if paths_to_remove(m).contains(p) {
            let k2 = choose|k2: Seq<Seq<char>>| #[trigger] m.dom().contains(k2) && m[k2].0 == p && m[k2].1 is Remove;
            assert(k == path_components(style, p));
            assert(k2 == path_components(style, p));
        }
    }
}

/// A change to a Markdown file is re-indexed once the watch loop goes
/// quiet: after an event that creates or modifies it, the batch that the
/// quiet period hands out re-indexes the file, under the spelling it is
/// pending under, and does not remove it.
pub proof fn law_change_then_quiet_reindexes(
    style: PathStyle,
    m: PendingMap,
    kind: EventKind,
    paths: Seq<EventPath>,
)
    requires
        well_kept(style, m),
        kind is Create || kind is Modify,
        paths.len() > 0,
        is_markdown_path(style, paths.last().path@),
    ensures
        exists|q: Seq<char>|
            #[trigger] paths_to_index(accumulated(style, m, kind, paths)).contains(q) && same_path(
                style,
                q,
                paths.last().path@,
            ),
        forall|q: Seq<char>|
            #[trigger] paths_to_remove(accumulated(style, m, kind, paths)).contains(q) ==> !same_path(
                style,
                q,
                paths.last().path@,
            ),
{
    let acc = accumulated(style, m, kind, paths);
    let k = path_components(style, paths.last().path@);
    law_latest_kind_wins(style, m, kind, paths);
    law_only_markdown_pending(style, m, kind, paths);
    assert(paths_to_index(acc).contains(acc[k].0));
    assert(same_path(style, acc[k].0, paths.last().path@));
    assert forall|q: Seq<char>| #[trigger] paths_to_remove(acc).contains(q) implies !same_path(
        style,
        q,
        paths.last().path@,
    ) by {
        let k2 = choose|k2: Seq<Seq<char>>| #[trigger] acc.dom().contains(k2) && acc[k2].0 == q && acc[k2].1 is Remove;
        assert(path_components(style, q) == k2);
    }
}

/// A removed Markdown file is dropped once the watch loop goes quiet: after
/// an event that removes it, the batch that the quiet period hands out
/// removes the file, under the spelling it is pending under, and does not
/// re-index it.
pub proof fn law_removal_then_quiet_drops(style: PathStyle, m: PendingMap, paths: Seq<EventPath>)
    requires
        well_kept(style, m),
        paths.len() > 0,
        is_markdown_path(style, paths.last().path@),
    ensures
        exists|q: Seq<char>|
            #[trigger] paths_to_remove(accumulated(style, m, EventKind::Remove, paths)).contains(q)
                && same_path(style, q, paths.last().path@),
        forall|q: Seq<char>|
            #[trigger] paths_to_index(accumulated(style, m, EventKind::Remove, paths)).contains(q)
                ==> !same_path(style, q, paths.last().path@),
{
    let acc = accumulated(style, m, EventKind::Remove, paths);
    let k = path_components(style, paths.last().path@);
    law_latest_kind_wins(style, m, EventKind::Remove, paths);
    law_only_markdown_pending(style, m, EventKind::Remove, paths);
    assert(paths_to_remove(acc).contains(acc[k].0));
    assert(same_path(style, acc[k].0, paths.last().path@));
    assert forall|q: Seq<char>| #[trigger] paths_to_index(acc).contains(q) implies !same_path(
        style,
        q,
        paths.last().path@,
    ) by {
        let k2 = choose|k2: Seq<Seq<char>>| #[trigger]
            acc.dom().contains(k2) && acc[k2].0 == q && calls_for_indexing(acc[k2].1);
        assert(path_components(style, q) == k2);
    }
}

/// Every path of a batch built from events on an empty start names a
/// Markdown file.
pub proof fn law_batch_paths_are_markdown(
    style: PathStyle,
    kind: EventKind,
    paths: Seq<EventPath>,
    p: Seq<char>,
)
    requires
        paths_to_index(accumulated(style, PendingMap::empty(), kind, paths)).contains(p)
            || paths_to_remove(accumulated(style, PendingMap::empty(), kind, paths)).contains(p),
    ensures
        is_markdown_path(style, p),
{
    let m = accumulated(style, PendingMap::empty(), kind, paths);
    law_only_markdown_pending(style, PendingMap::empty(), kind, paths);
    if paths_to_index(m).contains(p) {
        let k = choose|k: Seq<Seq<char>>| #[trigger]
            m.dom().contains(k) && m[k].0 == p && calls_for_indexing(m[k].1);
    } else {
        let k = choose|k: Seq<Seq<char>>| #[trigger] m.dom().contains(k) && m[k].0 == p && m[k].1 is Remove;
    }
}

/// Whether one of `paths` is a Markdown path (in `style`) with the
/// components `k`.
pub open spec fn touches(style: PathStyle, paths: Seq<EventPath>, k: Seq<Seq<char>>) -> bool {
    exists|i: int|
        0 <= i < paths.len() && is_markdown_path(style, #[trigger] paths[i].path@)
            && path_components(style, paths[i].path@) == k
}

/// The kind that the last Markdown path of `paths` with the components `k`
/// records for a rename of unknown direction, if any path has them.
pub open spec fn last_presence(style: PathStyle, paths: Seq<EventPath>, k: Seq<Seq<char>>) -> Option<EventKind>
    decreases paths.len(),
{
    if paths.len() == 0 {
        None
    } else if is_markdown_path(style, paths.last().path@) && path_components(style, paths.last().path@) == k {
        Some(presence_kind(paths.last().exists))
    } else {
        last_presence(style, paths.drop_last(), k)
    }
}

/// What `mark_each` does to one key: a key that a path touches ends up
/// pending with `kind` under its earlier spelling, if it had one; any other
/// key is left as it was.
proof fn lemma_mark_each_key(style: PathStyle, m: PendingMap, paths: Seq<EventPath>, kind: EventKind, k: Seq<Seq<char>>)
    ensures
        touches(style, paths, k) ==> {
            &&& mark_each(style, m, paths, kind).dom().contains(k)
            &&& mark_each(style, m, paths, kind)[k].1 == kind
            &&& m.dom().contains(k) ==> mark_each(style, m, paths, kind)[k].0 == m[k].0
        },
        !touches(style, paths, k) ==> {
            &&& mark_each(style, m, paths, kind).dom().contains(k) == m.dom().contains(k)
            &&& m.dom().contains(k) ==> mark_each(style, m, paths, kind)[k] == m[k]
        },
    decreases paths.len(),
{
    if paths.len() > 0 {
        let init = paths.drop_last();
        lemma_mark_each_key(style, m, init, kind, k);
        let last = paths.last().path@;
        let hit = is_markdown_path(style, last) && path_components(style, last) == k;
        assert(touches(style, paths, k) <==> touches(style, init, k) || hit) by {
            if touches(style, paths, k) {
                let i = choose|i: int|
                    0 <= i < paths.len() && is_markdown_path(style, #[trigger] paths[i].path@)
                        && path_components(style, paths[i].path@) == k;
                if i < paths.len() - 1 {
                    assert(init[i] == paths[i]);
                }
            }
            if touches(style, init, k) {
                let i = choose|i: int|
                    0 <= i < init.len() && is_markdown_path(style, #[trigger] init[i].path@)
                        && path_components(style, init[i].path@) == k;
                assert(paths[i] == init[i]);
            }
            if hit {
                assert(paths[paths.len() - 1] == paths.last());
            }
        }
    }
}

/// What `mark_by_presence` does to one key: a key that a path touches ends
/// up pending with the kind its last such path records, under its earlier
/// spelling, if it had one; any other key is left as it was.
proof fn lemma_mark_by_presence_key(style: PathStyle, m: PendingMap, paths: Seq<EventPath>, k: Seq<Seq<char>>)
    ensures
        last_presence(style, paths, k) is Some ==> {
            &&& mark_by_presence(style, m, paths).dom().contains(k)
            &&& Some(mark_by_presence(style, m, paths)[k].1) == last_presence(style, paths, k)
            &&& m.dom().contains(k) ==> mark_by_presence(style, m, paths)[k].0 == m[k].0
        },
        last_presence(style, paths, k) is None ==> {
            &&& mark_by_presence(style, m, paths).dom().contains(k) == m.dom().contains(k)
            &&& m.dom().contains(k) ==> mark_by_presence(style, m, paths)[k] == m[k]
        },
    decreases paths.len(),
{
    if paths.len() > 0 {
        lemma_mark_by_presence_key(style, m, paths.drop_last(), k);
    }
}

/// `last_presence` names a kind exactly for the keys that a path touches.
proof fn lemma_last_presence_touches(style: PathStyle, paths: Seq<EventPath>, k: Seq<Seq<char>>)
    ensures
        (last_presence(style, paths, k) is Some) == touches(style, paths, k),
    decreases paths.len(),
{
    if paths.len() > 0 {
        let init = paths.drop_last();
        lemma_last_presence_touches(style, init, k);
        if touches(style, paths, k) {
            let i = choose|i: int|
                0 <= i < paths.len() && is_markdown_path(style, #[trigger] paths[i].path@)
                    && path_components(style, paths[i].path@) == k;
            if i < paths.len() - 1 {
                assert(init[i] == paths[i]);
            }
        }
        if touches(style, init, k) {
            let i = choose|i: int|
                0 <= i < init.len() && is_markdown_path(style, #[trigger] init[i].path@)
                    && path_components(style, init[i].path@) == k;
            assert(paths[i] == init[i]);
        }
        if last_presence(style, paths, k) is Some && !(last_presence(style, init, k) is Some) {
            assert(paths[paths.len() - 1] == paths.last());
        }
    }
}

/// An event changes only the pending entries of its own Markdown paths:
/// every other path stays pending, or not pending, exactly as it was.
pub proof fn law_accumulate_frame(
    style: PathStyle,
    m: PendingMap,
    kind: EventKind,
    paths: Seq<EventPath>,
    k: Seq<Seq<char>>,
)
    requires
        !touches(style, paths, k),
    ensures
        accumulated(style, m, kind, paths).dom().contains(k) == m.dom().contains(k),
        m.dom().contains(k) ==> accumulated(style, m, kind, paths)[k] == m[k],
{
    if paths.len() > 0 {
        assert(!(is_markdown_path(style, paths[0].path@) && path_components(style, paths[0].path@) == k));
    }
    if paths.len() > 1 {
        assert(!(is_markdown_path(style, paths[1].path@) && path_components(style, paths[1].path@) == k));
    }
    match kind {
        EventKind::Rename(RenameMode::From) | EventKind::Rename(RenameMode::To) | EventKind::Rename(
            RenameMode::Both,
        ) => {},
        EventKind::Rename(_) => {
            lemma_last_presence_touches(style, paths, k);
            lemma_mark_by_presence_key(style, m, paths, k);
        },
        _ => {
            lemma_mark_each_key(style, m, paths, kind, k);
        },
    }
}

/// Folding the same event in twice has the effect of folding it in once.
pub proof fn law_accumulate_idempotent(style: PathStyle, m: PendingMap, kind: EventKind, paths: Seq<EventPath>)
    ensures
        accumulated(style, accumulated(style, m, kind, paths), kind, paths) == accumulated(
            style,
            m,
            kind,
            paths,
        ),
{
    let once = accumulated(style, m, kind, paths);
    let twice = accumulated(style, once, kind, paths);
    match kind {
        EventKind::Rename(RenameMode::From) | EventKind::Rename(RenameMode::To) => {
            assert(twice =~= once);
        },
        EventKind::Rename(RenameMode::Both) => {
            assert(twice =~= once);
        },
        EventKind::Rename(_) => {
            assert forall|k: Seq<Seq<char>>| #[trigger] twice.dom().contains(k) <==> once.dom().contains(k) by {
                lemma_mark_by_presence_key(style, m, paths, k);
                lemma_mark_by_presence_key(style, once, paths, k);
            }
            assert forall|k: Seq<Seq<char>>| #[trigger] twice.dom().contains(k) implies twice[k] == once[k] by {
                lemma_mark_by_presence_key(style, m, paths, k);
                lemma_mark_by_presence_key(style, once, paths, k);
            }
            assert(twice =~= once);
        },
        _ => {
            assert forall|k: Seq<Seq<char>>| #[trigger] twice.dom().contains(k) <==> once.dom().contains(k) by {
                lemma_mark_each_key(style, m, paths, kind, k);
                lemma_mark_each_key(style, once, paths, kind, k);
            }
            assert forall|k: Seq<Seq<char>>| #[trigger] twice.dom().contains(k) implies twice[k] == once[k] by {
                lemma_mark_each_key(style, m, paths, kind, k);
                lemma_mark_each_key(style, once, paths, kind, k);
            }
            assert(twice =~= once);
        },
    }
}

// ---------------------------------------------------------------------------
// Path components and index locations
// ---------------------------------------------------------------------------

/// After a separator followed by characters that do not separate, the piece
/// still open is exactly those characters.
proof fn lemma_open_piece(style: PathStyle, a: Seq<char>, n: Seq<char>)
    requires
        forall|i: int| 0 <= i < n.len() ==> !is_separator(style, #[trigger] n[i]),
    ensures
        named_pieces(style, a + seq!['/'] + n).1 == n,
    decreases n.len(),
{
    let p = a + seq!['/'] + n;
    if n.len() == 0 {
        assert(p =~= a.push('/'));
    } else {
        let init = n.drop_last();
        assert forall|i: int| 0 <= i < init.len() implies !is_separator(style, #[trigger] init[i]) by {
            assert(init[i] == n[i]);
        }
        lemma_open_piece(style, a, init);
        assert(p.drop_last() =~= a + seq!['/'] + init);
        assert(p.last() == n[n.len() - 1]);
        assert(init.push(n.last()) =~= n);
    }
}

/// A path's components end with its file name: a name without separators,
/// other than `.`, put after a directory and a separator, is the path's last
/// component.
pub proof fn law_components_end_with_name(style: PathStyle, d: Seq<char>, n: Seq<char>)
    requires
        n.len() > 0,
        n != seq!['.'],
        forall|i: int| 0 <= i < n.len() ==> !is_separator(style, #[trigger] n[i]),
    ensures
        path_components(style, d + seq!['/'] + n).len() > 0,
        path_components(style, d + seq!['/'] + n).last() == n,
{
    let p = d + seq!['/'] + n;
    assert(is_named(n));
    if has_drive_prefix(style, p) {
        assert(p[1] == ':');
        if d.len() < 2 {
            assert(d.len() == 0 ==> p[0] == '/');
            assert(d.len() == 1 ==> p[1] == '/');
        }
        let rest = p.subrange(2, p.len() as int);
        assert(rest =~= d.subrange(2, d.len() as int) + seq!['/'] + n);
        lemma_open_piece(style, d.subrange(2, d.len() as int), n);
        let u = unprefixed_components(style, rest);
        assert(u.last() == n);
        assert(path_components(style, p).last() == u.last());
    } else {
        lemma_open_piece(style, d, n);
    }
}

/// Two paths in the same directory with different file names are never the
/// same path.
pub proof fn law_distinct_names_distinct_paths(style: PathStyle, d: Seq<char>, a: Seq<char>, b: Seq<char>)
    requires
        a.len() > 0,
        b.len() > 0,
        a != seq!['.'],
        b != seq!['.'],
        a != b,
        forall|i: int| 0 <= i < a.len() ==> !is_separator(style, #[trigger] a[i]),
        forall|i: int| 0 <= i < b.len() ==> !is_separator(style, #[trigger] b[i]),
    ensures
        !same_path(style, d + seq!['/'] + a, d + seq!['/'] + b),
{
    law_components_end_with_name(style, d, a);
    law_components_end_with_name(style, d, b);
}

/// The index key takes in every character of the path: extending a path by
/// one character takes one more hash step over that character.
pub proof fn law_fnv_push(s: Seq<char>, c: char)
    ensures
        fnv1a(s.push(c)) == fnv_step(fnv1a(s), c),
{
    assert(s.push(c).drop_last() =~= s);
}

/// Multiplying by the hash's prime loses nothing: distinct values stay
/// distinct.
proof fn lemma_prime_mul_injective(x: u64, y: u64)
    requires
        ((x as nat * FNV_PRIME as nat) % 0x1_0000_0000_0000_0000) as u64 == ((y as nat
            * FNV_PRIME as nat) % 0x1_0000_0000_0000_0000) as u64,
    ensures
        x == y,
{
    assert(x as nat * FNV_PRIME as nat % 0x1_0000_0000_0000_0000 == x * 0x100000001b3u64 % 0x1_0000_0000_0000_0000);
    assert(y as nat * FNV_PRIME as nat % 0x1_0000_0000_0000_0000 == y * 0x100000001b3u64 % 0x1_0000_0000_0000_0000);
    assert(((x * 0x100000001b3u64) % 0x1_0000_0000_0000_0000) as u64 == ((y * 0x100000001b3u64) % 0x1_0000_0000_0000_0000) as u64 ==> x == y) by (bit_vector);
}

/// Paths that differ only in their last character get different index
/// keys.
pub proof fn law_last_character_changes_key(s: Seq<char>, c1: char, c2: char)
    requires
        c1 != c2,
    ensures
        fnv1a(s.push(c1)) != fnv1a(s.push(c2)),
{
    law_fnv_push(s, c1);
    law_fnv_push(s, c2);
    let h = fnv1a(s);
    if fnv_step(h, c1) == fnv_step(h, c2) {
        lemma_prime_mul_injective(h ^ (c1 as u64), h ^ (c2 as u64));
        let (a, b, x) = (c1 as u64, c2 as u64, h);
        assert((x ^ a) == (x ^ b) ==> a == b) by (bit_vector);
        assert(c1 as u64 == c1 as u32 as u64);
    }
}

// ---------------------------------------------------------------------------
// Markdown names
// ---------------------------------------------------------------------------

/// `path` followed by one more character keeps its drive prefix, or lack of
/// one, unless it had only that character's place to lose.
proof fn lemma_after_prefix_push(style: PathStyle, path: Seq<char>, c: char)
    requires
        c == '/',
    ensures
        after_prefix(style, path.push(c)) == after_prefix(style, path).push(c),
{
    let p = path.push(c);
    if has_drive_prefix(style, path) {
        assert(has_drive_prefix(style, p));
        assert(p.subrange(2, p.len() as int) =~= path.subrange(2, path.len() as int).push(c));
    } else {
        assert(!has_drive_prefix(style, p));
    }
}

/// A trailing separator does not change whether a path names a Markdown
/// file.
pub proof fn law_trailing_separator(style: PathStyle, path: Seq<char>)
    ensures
        is_markdown_path(style, path.push('/')) == is_markdown_path(style, path),
{
    lemma_after_prefix_push(style, path, '/');
    let a = after_prefix(style, path);
    let p = a.push('/');
    assert(last_separator(style, p) == a.len());
    assert(p.subrange(a.len() + 1int, p.len() as int).len() == 0);
    assert(p.subrange(0, a.len() as int) =~= a);
}

/// Appending characters that do not separate leaves the last separator
/// where it was.
proof fn lemma_last_separator_append(style: PathStyle, a: Seq<char>, b: Seq<char>)
    requires
        forall|i: int| 0 <= i < b.len() ==> !is_separator(style, #[trigger] b[i]),
    ensures
        last_separator(style, a + b) == last_separator(style, a),
    decreases b.len(),
{
    if b.len() == 0 {
        assert(a + b =~= a);
    } else {
        assert((a + b).drop_last() =~= a + b.drop_last());
        assert((a + b).last() == b.last());
        lemma_last_separator_append(style, a, b.drop_last());
    }
}

/// Appending characters that are not `c` leaves the last position of `c`
/// where it was.
proof fn lemma_last_index_of_append(a: Seq<char>, b: Seq<char>, c: char)
    requires
        forall|i: int| 0 <= i < b.len() ==> b[i] != c,
    ensures
        last_index_of(a + b, c) == last_index_of(a, c),
    decreases b.len(),
{
    if b.len() == 0 {
        assert(a + b =~= a);
    } else {
        assert((a + b).drop_last() =~= a + b.drop_last());
        assert((a + b).last() == b.last());
        lemma_last_index_of_append(a, b.drop_last(), c);
    }
}

/// A file whose name is a non-empty stem followed by `.md`, in any ASCII
/// case, is a Markdown file, whatever directory holds it, in either path
/// syntax.
pub proof fn law_md_suffix(style: PathStyle, dir: Seq<char>, stem: Seq<char>, ext: Seq<char>)
    requires
        stem.len() > 0,
        forall|i: int| 0 <= i < stem.len() ==> !is_separator(style, #[trigger] stem[i]),
        is_md_extension(ext),
    ensures
        is_markdown_path(style, dir + seq!['/'] + stem + seq!['.'] + ext),
{
    let name = stem + seq!['.'] + ext;
    let path = dir + seq!['/'] + stem + seq!['.'] + ext;
    let b: int = if has_drive_prefix(style, path) { 2 } else { 0 };
    if has_drive_prefix(style, path) {
        assert(path[1] == ':');
        if dir.len() < 2 {
            assert(dir.len() == 0 ==> path[0] == '/');
            assert(dir.len() == 1 ==> path[1] == '/');
        }
    }
    assert(b <= dir.len());
    let head = dir.subrange(b, dir.len() as int) + seq!['/'];
    let rest = after_prefix(style, path);
    assert(rest =~= head + name);
    assert forall|i: int| 0 <= i < name.len() implies !is_separator(style, #[trigger] name[i]) by {
        if i < stem.len() {
            assert(name[i] == stem[i]);
        } else if i > stem.len() {
            assert(name[i] == ext[i - stem.len() - 1]);
        }
    }
    lemma_last_separator_append(style, head, name);
    assert(last_separator(style, head) == head.len() - 1);
    assert(rest.subrange(head.len() as int, rest.len() as int) =~= name);
    assert(name.len() == stem.len() + 3);
    assert(name != seq!['.']);
    assert(name != seq!['.', '.']);
    assert(last_name(style, rest) == Some(name));
    assert(file_name(style, path) == Some(name));
    let dotted = stem + seq!['.'];
    assert(name =~= dotted + ext);
    lemma_last_index_of_append(dotted, ext, '.');
    assert(last_index_of(dotted, '.') == stem.len());
    assert(name.subrange(stem.len() + 1int, name.len() as int) =~= ext);
    assert(extension(name) == Some(ext));
}

/// On a path without backslashes, both styles find the same last separator.
proof fn lemma_last_separator_agree(p: Seq<char>)
    requires
        forall|i: int| 0 <= i < p.len() ==> #[trigger] p[i] != '\\',
    ensures
        last_separator(PathStyle::Unix, p) == last_separator(PathStyle::Windows, p),
    decreases p.len(),
{
    if p.len() > 0 {
        assert(p.last() == p[p.len() - 1]);
        lemma_last_separator_agree(p.drop_last());
    }
}

/// On a path without backslashes, both styles find the same last name.
proof fn lemma_last_name_agree(p: Seq<char>)
    requires
        forall|i: int| 0 <= i < p.len() ==> #[trigger] p[i] != '\\',
    ensures
        last_name(PathStyle::Unix, p) == last_name(PathStyle::Windows, p),
    decreases p.len(),
{
    if p.len() > 0 {
        lemma_last_separator_agree(p);
        lemma_last_separator(PathStyle::Unix, p);
        let i = last_separator(PathStyle::Unix, p);
        let q = p.subrange(0, if i < 0 { 0 } else { i });
        assert forall|j: int| 0 <= j < q.len() implies #[trigger] q[j] != '\\' by {
            assert(q[j] == p[j]);
        }
        lemma_last_name_agree(q);
    }
}

/// The two path syntaxes agree on whether a path names a Markdown file
/// when the path holds no backslash and does not start with a drive: on such
/// paths `is_markdown` gives the same answer on every platform.
pub proof fn law_styles_agree(path: Seq<char>)
    requires
        forall|i: int| 0 <= i < path.len() ==> #[trigger] path[i] != '\\',
        !has_drive_prefix(PathStyle::Windows, path),
    ensures
        is_markdown_path(PathStyle::Unix, path) == is_markdown_path(PathStyle::Windows, path),
{
    lemma_last_name_agree(path);
}

} // verus!
