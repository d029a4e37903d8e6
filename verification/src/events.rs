use vstd::prelude::*;

use crate::indexed_paths::views_of;
use crate::markdown::{is_markdown_in, is_markdown_path, PathStyle};
use crate::paths::{char_views, components_of, path_components, same_components};

verus! {

broadcast use {vstd::seq_lib::group_seq_properties, vstd::set_lib::group_set_lib_default};

/// Direction of a rename that a file-system watcher reports.
#[derive(Clone, Copy, Debug, PartialEq, Eq)]
pub enum RenameMode {
    /// Direction unknown.
    Any,
    /// The event carries the new path.
    To,
    /// The event carries the old path.
    From,
    /// The event carries the old path, then the new one.
    Both,
    /// Some other, platform-specific, rename.
    Other,
}

/// What happened to the paths of a file-system event, at the granularity
/// that the index update reads.
#[derive(Clone, Copy, Debug, PartialEq, Eq)]
pub enum EventKind {
    /// Something unspecified happened.
    Any,
    /// A file was accessed without change.
    Access,
    /// A file was created.
    Create,
    /// A file was modified, other than by a rename.
    Modify,
    /// A file was renamed.
    Rename(RenameMode),
    /// A file was removed.
    Remove,
    /// Some other event.
    Other,
}

/// One path of an event.
pub struct EventPath {
    /// The path as the watcher reported it.
    pub path: String,
    /// Whether the path exists on disk; consulted only for renames of
    /// unknown direction.
    pub exists: bool,
}

/// A file-system event: what happened, and to which paths.
pub struct FsEvent {
    /// What happened.
    pub kind: EventKind,
    /// The paths concerned, in the watcher's order.
    pub paths: Vec<EventPath>,
}

/// The pending events: for each path, keyed by its components, the path as it
/// was first reported and the latest kind of event on it.
pub type PendingMap = Map<Seq<Seq<char>>, (Seq<char>, EventKind)>;

/// Records `kind` as the latest event of `path`. A path that is already
/// pending under another spelling of the same components keeps the spelling
/// it was first reported under.
pub open spec fn record(style: PathStyle, m: PendingMap, path: Seq<char>, kind: EventKind) -> PendingMap {
    let key = path_components(style, path);
    if m.dom().contains(key) {
        m.insert(key, (m[key].0, kind))
    } else {
        m.insert(key, (path, kind))
    }
}

/// Records `kind` as the latest event of `path`, if `path` is a Markdown file
/// in `style`.
pub open spec fn mark(style: PathStyle, m: PendingMap, path: Seq<char>, kind: EventKind) -> PendingMap {
    if is_markdown_path(style, path) {
        record(style, m, path, kind)
    } else {
        m
    }
}

/// Records `kind` for each path of `paths` in turn.
pub open spec fn mark_each(style: PathStyle, m: PendingMap, paths: Seq<EventPath>, kind: EventKind) -> PendingMap
    decreases paths.len(),
{
    if paths.len() == 0 {
        m
    } else {
        mark(style, mark_each(style, m, paths.drop_last(), kind), paths.last().path@, kind)
    }
}

/// The kind a rename of unknown direction stands for: a creation when the
/// path exists now, a removal otherwise.
pub open spec fn presence_kind(exists: bool) -> EventKind {
    if exists {
        EventKind::Create
    } else {
        EventKind::Remove
    }
}

/// Records, for each path of `paths` in turn, a creation or a removal
/// according to whether the path exists.
pub open spec fn mark_by_presence(style: PathStyle, m: PendingMap, paths: Seq<EventPath>) -> PendingMap
    decreases paths.len(),
{
    if paths.len() == 0 {
        m
    } else {
        mark(
            style,
            mark_by_presence(style, m, paths.drop_last()),
            paths.last().path@,
            presence_kind(paths.last().exists),
        )
    }
}

/// The pending events after one more event of `kind` on `paths`. Renames
/// become removals of the old path and creations of the new one; other
/// events are recorded as they are; only Markdown paths (in `style`) are
/// recorded, and a path keeps only its latest kind.
pub open spec fn accumulated(style: PathStyle, m: PendingMap, kind: EventKind, paths: Seq<EventPath>) -> PendingMap {
    match kind {
        EventKind::Rename(RenameMode::From) => if paths.len() > 0 {
            mark(style, m, paths[0].path@, EventKind::Remove)
        } else {
            m
        },
        EventKind::Rename(RenameMode::To) => if paths.len() > 0 {
            mark(style, m, paths[0].path@, EventKind::Create)
        } else {
            m
        },
        EventKind::Rename(RenameMode::Both) => {
            let after_old = if paths.len() > 0 {
                mark(style, m, paths[0].path@, EventKind::Remove)
            } else {
                m
            };
            if paths.len() > 1 {
                mark(style, after_old, paths[1].path@, EventKind::Create)
            } else {
                after_old
            }
        },
        EventKind::Rename(_) => mark_by_presence(style, m, paths),
        _ => mark_each(style, m, paths, kind),
    }
}

/// Events that call for (re-)indexing a path.
pub open spec fn calls_for_indexing(kind: EventKind) -> bool {
    kind is Create || kind is Modify
}

/// The paths, as first reported, whose latest event calls for (re-)indexing.
pub open spec fn paths_to_index(m: PendingMap) -> Set<Seq<char>> {
    Set::new(
        |p: Seq<char>|
            exists|k: Seq<Seq<char>>| #[trigger]
                m.dom().contains(k) && m[k].0 == p && calls_for_indexing(m[k].1),
    )
}

/// The paths, as first reported, whose latest event is a removal.
pub open spec fn paths_to_remove(m: PendingMap) -> Set<Seq<char>> {
    Set::new(
        |p: Seq<char>|
            exists|k: Seq<Seq<char>>| #[trigger] m.dom().contains(k) && m[k].0 == p && m[k].1 is Remove,
    )
}

/// File-system events not yet applied to the index: the latest kind of
/// event for each Markdown path, paths being compared by their components
/// in the pending events' path syntax.
pub struct PendingEvents {
    style: PathStyle,
    entries: Vec<(String, EventKind)>,
}

impl PendingEvents {
    /// The components of the stored paths, in storage order.
    closed spec fn keys(&self) -> Seq<Seq<Seq<char>>> {
        self.entries@.map_values(|e: (String, EventKind)| path_components(self.style, e.0@))
    }

    /// No path is stored twice, under any spelling.
    #[verifier::type_invariant]
    closed spec fn distinct(&self) -> bool {
        self.keys().no_duplicates()
    }

    /// The path syntax by which Markdown paths are recognised and paths are
    /// compared.
    pub closed spec fn path_style(&self) -> PathStyle {
        self.style
    }
}

impl View for PendingEvents {
    type V = PendingMap;

    closed spec fn view(&self) -> PendingMap {
        Map::new(
            |k: Seq<Seq<char>>| self.keys().contains(k),
            |k: Seq<Seq<char>>|
                (
                    self.entries@[self.keys().index_of(k)].0@,
                    self.entries@[self.keys().index_of(k)].1,
                ),
        )
    }
}

/// In a sequence without duplicates, an element is found at its own position.
proof fn lemma_index_of_unique<A>(s: Seq<A>, i: int)
    requires
        s.no_duplicates(),
        0 <= i < s.len(),
    ensures
        s.index_of(s[i]) == i,
{
    assert(s.contains(s[i]));
}

impl PendingEvents {
    /// No pending events; paths are read in the path syntax of the platform
    /// the library runs on.
    pub fn new() -> (r: PendingEvents)
        ensures
            r@ == PendingMap::empty(),
    {
        PendingEvents::with_style(PathStyle::host())
    }

    /// No pending events; paths are read in `style`.
    pub fn with_style(style: PathStyle) -> (r: PendingEvents)
        ensures
            r@ == PendingMap::empty(),
            r.path_style() == style,
    {
        let r = PendingEvents { style, entries: Vec::new() };
        assert(r.keys() =~= Seq::<Seq<Seq<char>>>::empty());
        assert(r@ =~= PendingMap::empty());
        r
    }

    /// Records `kind` as the latest event of `path`.
    fn record(&mut self, path: &String, kind: EventKind)
        ensures
            final(self)@ == record(old(self).path_style(), old(self)@, path@, kind),
            final(self).path_style() == old(self).path_style(),
    {
        proof {
            use_type_invariant(&*self);
        }
        let key = components_of(self.style, path.as_str());
        let ghost k = path_components(self.style, path@);
        let ghost style = self.style;
        let ghost old_keys = self.keys();
        let ghost old_entries = self.entries@;
        let ghost old_view = self@;
        let mut i: usize = 0;
        while i < self.entries.len()
            invariant
                i <= self.entries.len(),
                old_keys == self.keys(),
                old_entries == self.entries@,
                old_keys == old(self).keys(),
                old_entries == old(self).entries@,
                old_view == old(self)@,
                self.style == old(self).style,
                old_keys.no_duplicates(),
                old_keys.len() == old_entries.len(),
                char_views(key@) == k,
                style == self.style,
                k == path_components(style, path@),
                forall|j: int| 0 <= j < i ==> old_keys[j] != k,
            decreases self.entries.len() - i,
        {
            let stored = components_of(self.style, self.entries[i].0.as_str());
            if same_components(&stored, &key) {
                let spelling = self.entries[i].0.clone();
                let mut entries = Vec::new();
                std::mem::swap(&mut entries, &mut self.entries);
                proof {
                    assert(old_keys[i as int] == k);
                    lemma_index_of_unique(old_keys, i as int);
                    assert(old_keys.contains(k));
                    assert(old_view.dom().contains(k));
                    assert(old_view[k].0 == spelling@);
                }
                entries.set(i, (spelling, kind));
                proof {
                    assert(entries@.map_values(|e: (String, EventKind)| path_components(style, e.0@)) =~= old_keys);
                }
                self.entries = entries;
                proof {
                    assert(self.keys() == old_keys);
                    let target = record(style, old_view, path@, kind);
                    assert(self@.dom() =~= target.dom());
                    assert forall|q: Seq<Seq<char>>| #[trigger]
                        self@.dom().contains(q) implies self@[q] == target[q] by {
                        let j = old_keys.index_of(q);
                        assert(old_keys.contains(q));
                        assert(0 <= j < old_keys.len() && old_keys[j] == q);
                        if j != i {
                            assert(self.entries@[j] == old_entries[j]);
                        }
                    }
                    assert(self@ =~= target);
                }
                return;
            }
            i = i + 1;
        }
        let mut entries = Vec::new();
        std::mem::swap(&mut entries, &mut self.entries);
        entries.push((path.clone(), kind));
        proof {
            assert(entries@.map_values(|e: (String, EventKind)| path_components(style, e.0@)) =~= old_keys.push(k));
            assert(!old_keys.contains(k));
        }
        self.entries = entries;
        proof {
            let n = old_keys.len() as int;
            lemma_index_of_unique(self.keys(), n);
            let target = record(style, old_view, path@, kind);
            assert(!old_view.dom().contains(k));
            assert(self@.dom() =~= target.dom());
            assert forall|q: Seq<Seq<char>>| #[trigger]
                self@.dom().contains(q) implies self@[q] == target[q] by {
                if q != k {
                    let j = old_keys.index_of(q);
                    assert(old_keys.contains(q));
                    assert(self.keys()[j] == q);
                    lemma_index_of_unique(self.keys(), j);
                    assert(self.entries@[j] == old_entries[j]);
                }
            }
            assert(self@ =~= target);
        }
    }

    /// Records `kind` as the latest event of `path`, if `path` is a Markdown
    /// file.
    fn mark(&mut self, path: &String, kind: EventKind)
        ensures
            final(self)@ == mark(old(self).path_style(), old(self)@, path@, kind),
            final(self).path_style() == old(self).path_style(),
    {
        if is_markdown_in(self.style, path.as_str()) {
            self.record(path, kind);
        }
    }

    /// Records `kind` for each path of `paths` in turn.
    fn mark_each(&mut self, paths: &Vec<EventPath>, kind: EventKind)
        ensures
            final(self)@ == mark_each(old(self).path_style(), old(self)@, paths@, kind),
            final(self).path_style() == old(self).path_style(),
    {
        let mut i: usize = 0;
        while i < paths.len()
            invariant
                i <= paths.len(),
                self.path_style() == old(self).path_style(),
                self@ == mark_each(old(self).path_style(), old(self)@, paths@.take(i as int), kind),
            decreases paths.len() - i,
        {
            self.mark(&paths[i].path, kind);
            assert(paths@.take(i + 1).drop_last() =~= paths@.take(i as int));
            i = i + 1;
        }
        assert(paths@.take(paths.len() as int) =~= paths@);
    }

    /// Records a creation or a removal for each path of `paths` in turn,
    /// according to whether it exists.
    fn mark_by_presence(&mut self, paths: &Vec<EventPath>)
        ensures
            final(self)@ == mark_by_presence(old(self).path_style(), old(self)@, paths@),
            final(self).path_style() == old(self).path_style(),
    {
        let mut i: usize = 0;
        while i < paths.len()
            invariant
                i <= paths.len(),
                self.path_style() == old(self).path_style(),
                self@ == mark_by_presence(old(self).path_style(), old(self)@, paths@.take(i as int)),
            decreases paths.len() - i,
        {
            let kind = if paths[i].exists {
                EventKind::Create
            } else {
                EventKind::Remove
            };
            self.mark(&paths[i].path, kind);
            assert(paths@.take(i + 1).drop_last() =~= paths@.take(i as int));
            i = i + 1;
        }
        assert(paths@.take(paths.len() as int) =~= paths@);
    }
}

/// The index updates that a batch of pending events calls for.
pub struct BatchPlan {
    /// Paths to (re-)index: those whose latest event is a creation or a
    /// modification.
    pub to_index: Vec<String>,
    /// Paths to drop from the index: those whose latest event is a removal.
    pub to_remove: Vec<String>,
}

/// `plan` lists, once each, the paths of `m` to re-index and those to drop.
pub open spec fn plans(m: PendingMap, plan: BatchPlan) -> bool {
    &&& views_of(plan.to_index@).no_duplicates()
    &&& views_of(plan.to_index@).to_set() == paths_to_index(m)
    &&& views_of(plan.to_remove@).no_duplicates()
    &&& views_of(plan.to_remove@).to_set() == paths_to_remove(m)
}

impl PendingEvents {
    /// Empties the pending events and returns the index updates they call
    /// for; events of other kinds are dropped.
    pub fn take_batch(&mut self) -> (r: BatchPlan)
        ensures
            final(self)@ == PendingMap::empty(),
            final(self).path_style() == old(self).path_style(),
            plans(old(self)@, r),
    {
        proof {
            use_type_invariant(&*self);
        }
        let ghost keys = self.keys();
        let ghost entries = self.entries@;
        let ghost m = self@;
        let mut to_index: Vec<String> = Vec::new();
        let mut to_remove: Vec<String> = Vec::new();
        let mut i: usize = 0;
        while i < self.entries.len()
            invariant
                i <= self.entries.len(),
                keys == self.keys(),
                entries == self.entries@,
                keys.no_duplicates(),
                keys.len() == entries.len(),
                views_of(to_index@).no_duplicates(),
                views_of(to_remove@).no_duplicates(),
                forall|p: Seq<char>|
                    views_of(to_index@).contains(p) <==> exists|j: int|
                        0 <= j < i && entries[j].0@ == p && calls_for_indexing(entries[j].1),
                forall|p: Seq<char>|
                    views_of(to_remove@).contains(p) <==> exists|j: int|
                        0 <= j < i && entries[j].0@ == p && entries[j].1 is Remove,
            decreases self.entries.len() - i,
        {
            let kind = self.entries[i].1;
            let ghost p = entries[i as int].0@;
            assert forall|j: int| 0 <= j < i implies entries[j].0@ != p by {
                if entries[j].0@ == p {
                    assert(keys[j] == keys[i as int]);
                }
            }
            let ghost before_index = views_of(to_index@);
            let ghost before_remove = views_of(to_remove@);
            assert(!before_index.contains(p));
            assert(!before_remove.contains(p));
            match kind {
                EventKind::Create | EventKind::Modify => {
                    to_index.push(self.entries[i].0.clone());
                    assert(views_of(to_index@) =~= before_index.push(p));
                },
                EventKind::Remove => {
                    to_remove.push(self.entries[i].0.clone());
                    assert(views_of(to_remove@) =~= before_remove.push(p));
                },
                _ => {},
            }
            i = i + 1;
        }
        proof {
            assert forall|p: Seq<char>| views_of(to_index@).to_set().contains(p) <==> paths_to_index(m).contains(p) by {
                if views_of(to_index@).contains(p) {
                    let j = choose|j: int|
                        0 <= j < entries.len() && entries[j].0@ == p && calls_for_indexing(entries[j].1);
                    lemma_index_of_unique(keys, j);
                    assert(m.dom().contains(keys[j]));
                }
                if paths_to_index(m).contains(p) {
                    let k = choose|k: Seq<Seq<char>>| #[trigger]
                        m.dom().contains(k) && m[k].0 == p && calls_for_indexing(m[k].1);
                    let j = keys.index_of(k);
                    assert(keys.contains(k));
                }
            }
            assert forall|p: Seq<char>| views_of(to_remove@).to_set().contains(p) <==> paths_to_remove(m).contains(p) by {
                if views_of(to_remove@).contains(p) {
                    let j = choose|j: int| 0 <= j < entries.len() && entries[j].0@ == p && entries[j].1 is Remove;
                    lemma_index_of_unique(keys, j);
                    assert(m.dom().contains(keys[j]));
                }
                if paths_to_remove(m).contains(p) {
                    let k = choose|k: Seq<Seq<char>>| #[trigger]
                        m.dom().contains(k) && m[k].0 == p && m[k].1 is Remove;
                    let j = keys.index_of(k);
                    assert(keys.contains(k));
                }
            }
            assert(views_of(to_index@).to_set() =~= paths_to_index(m));
            assert(views_of(to_remove@).to_set() =~= paths_to_remove(m));
        }
        self.entries = Vec::new();
        proof {
            assert(self.keys() =~= Seq::<Seq<Seq<char>>>::empty());
            assert(self@ =~= PendingMap::empty());
        }
        BatchPlan { to_index, to_remove }
    }
}

/// Folds one file-system event into the pending events: renames become a
/// removal of the old path and a creation of the new one (by existence when
/// the direction is unknown), other events are kept as they are, only
/// Markdown paths are kept, and each path keeps only its latest kind.
pub fn accumulate(pending: &mut PendingEvents, event: &FsEvent)
    ensures
        final(pending)@ == accumulated(
            old(pending).path_style(),
            old(pending)@,
            event.kind,
            event.paths@,
        ),
        final(pending).path_style() == old(pending).path_style(),
{
    let paths = &event.paths;
    match event.kind {
        EventKind::Rename(RenameMode::From) => {
            if paths.len() > 0 {
                pending.mark(&paths[0].path, EventKind::Remove);
            }
        },
        EventKind::Rename(RenameMode::To) => {
            if paths.len() > 0 {
                pending.mark(&paths[0].path, EventKind::Create);
            }
        },
        EventKind::Rename(RenameMode::Both) => {
            if paths.len() > 0 {
                pending.mark(&paths[0].path, EventKind::Remove);
            }
            if paths.len() > 1 {
                pending.mark(&paths[1].path, EventKind::Create);
            }
        },
        EventKind::Rename(_) => {
            pending.mark_by_presence(paths);
        },
        kind => {
            pending.mark_each(paths, kind);
        },
    }
}

} // verus!
