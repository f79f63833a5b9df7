//! Walking a collection's directory tree: which entries are records, and which
//! directories to look into. Listing a directory is left to the caller.

use vstd::prelude::*;

use crate::path::{
    components, join_path, joined, lemma_joined_components, lemma_last_component,
    lemma_single_component,
};
use crate::sort::{in_order, lemma_path_lawful, merge_sort, path_relation, views_of, ByPath};
use crate::text::{chars_of, same_text, text_views};

verus! {

/// What a directory entry is.
#[derive(Debug, Clone, Copy, PartialEq, Eq, Structural)]
pub enum EntryKind {
    Directory,
    File,
    Symlink,
    /// It could not be found out.
    Unknown,
}

/// An entry of a directory; its name where that is valid text.
#[derive(Debug)]
pub struct DirEntry {
    pub name: Option<String>,
    pub kind: EntryKind,
}

/// The content of a [`DirEntry`].
pub struct EntryView {
    pub name: Option<Seq<char>>,
    pub kind: EntryKind,
}

impl View for DirEntry {
    type V = EntryView;

    open spec fn view(&self) -> EntryView {
        EntryView {
            name: match self.name {
                Some(n) => Some(n@),
                None => None,
            },
            kind: self.kind,
        }
    }
}

pub open spec fn entry_views(entries: Seq<DirEntry>) -> Seq<EntryView> {
    entries.map_values(|e: DirEntry| e@)
}

/// What becomes of an entry.
#[derive(Debug, Clone, Copy, PartialEq, Eq, Structural)]
pub enum Fate {
    Skip,
    Descend,
    Record,
}

/// The directories that hold no records.
pub open spec fn is_noise(name: Seq<char>) -> bool {
    name == "node_modules"@ || name == "target"@ || name == "__pycache__"@
}

pub open spec fn is_hidden(name: Seq<char>) -> bool {
    name.len() > 0 && name[0] == '.'
}

impl EntryView {
    /// Hidden entries, symbolic links, noise directories and schemas are skipped.
    pub open spec fn fate(self) -> Fate {
        match self.name {
            None => Fate::Skip,
            Some(name) => if is_hidden(name) {
                Fate::Skip
            } else {
                match self.kind {
                    EntryKind::Unknown | EntryKind::Symlink => Fate::Skip,
                    EntryKind::Directory => if is_noise(name) {
                        Fate::Skip
                    } else {
                        Fate::Descend
                    },
                    EntryKind::File => if name == "schema.md"@ {
                        Fate::Skip
                    } else {
                        Fate::Record
                    },
                }
            },
        }
    }
}

/// A walk in progress: paths are relative to the collection's directory, which
/// itself is the empty path.
pub struct Walk {
    pending: Vec<String>,
    found: Vec<String>,
}

/// The content of a [`Walk`].
pub struct WalkView {
    pub pending: Seq<Seq<char>>,
    pub found: Seq<Seq<char>>,
}

impl View for Walk {
    type V = WalkView;

    closed spec fn view(&self) -> WalkView {
        WalkView { pending: text_views(self.pending@), found: text_views(self.found@) }
    }
}

impl WalkView {
    /// The walk after one more entry of the directory `dir`.
    pub open spec fn after_entry(self, dir: Seq<char>, e: EntryView) -> WalkView {
        match e.fate() {
            Fate::Skip => self,
            Fate::Descend => WalkView {
                pending: self.pending.push(joined(dir, e.name->Some_0)),
                ..self
            },
            Fate::Record => WalkView {
                found: self.found.push(joined(dir, e.name->Some_0)),
                ..self
            },
        }
    }

    /// The walk after all entries of the directory `dir`.
    pub open spec fn after_listing(self, dir: Seq<char>, entries: Seq<EntryView>) -> WalkView
        decreases entries.len(),
    {
        if entries.len() == 0 {
            self
        } else {
            self.after_listing(dir, entries.drop_last()).after_entry(dir, entries.last())
        }
    }
}

fn fate_of(e: &DirEntry) -> (r: Fate)
    ensures
        r == e@.fate(),
{
    let name = match &e.name {
        Some(name) => name,
        None => {
            return Fate::Skip;
        },
    };
    let chars = chars_of(name);
    if chars.len() > 0 && chars[0] == '.' {
        return Fate::Skip;
    }
    match e.kind {
        EntryKind::Unknown | EntryKind::Symlink => Fate::Skip,
        EntryKind::Directory => if same_text(name, "node_modules") || same_text(name, "target")
            || same_text(name, "__pycache__") {
            Fate::Skip
        } else {
            Fate::Descend
        },
        EntryKind::File => if same_text(name, "schema.md") {
            Fate::Skip
        } else {
            Fate::Record
        },
    }
}

impl Walk {
    /// Starts at the collection's directory.
    pub fn new() -> (r: Walk)
        ensures
            r@ == (WalkView { pending: seq![Seq::<char>::empty()], found: Seq::empty() }),
            clean(r@),
    {
        let mut pending: Vec<String> = Vec::new();
        pending.push(String::new());
        let r = Walk { pending, found: Vec::new() };
        assert(r@.pending =~= seq![Seq::<char>::empty()]);
        assert(r@.found =~= Seq::<Seq<char>>::empty());
        r
    }

    /// The next directory to list.
    pub fn next_directory(&mut self) -> (r: Option<String>)
        ensures
            match r {
                Some(dir) => old(self)@.pending.len() > 0 && dir@ == old(self)@.pending.last()
                    && final(self)@ == (WalkView {
                    pending: old(self)@.pending.drop_last(),
                    ..old(self)@
                }),
                None => old(self)@.pending.len() == 0 && final(self)@ == old(self)@,
            },
    {
        let ghost before = self.pending@;
        let r = self.pending.pop();
        proof {
            if before.len() > 0 {
                assert(text_views(self.pending@) =~= text_views(before).drop_last());
                assert(text_views(before).last() == before.last()@);
            } else {
                assert(self.pending@ =~= before);
            }
        }
        r
    }

    /// Takes the entries of a directory in.
    pub fn add_listing(&mut self, dir: &str, entries: &[DirEntry])
        ensures
            final(self)@ == old(self)@.after_listing(dir@, entry_views(entries@)),
    {
        let ghost start = self@;
        let ghost all = entry_views(entries@);
        for i in 0..entries.len()
            invariant
                all == entry_views(entries@),
                self@ == start.after_listing(dir@, all.take(i as int)),
        {
            assert(all.take(i + 1).drop_last() =~= all.take(i as int));
            assert(all.take(i + 1).last() == entries@[i as int]@);
            let ghost pending = self.pending@;
            let ghost found = self.found@;
            let fate = fate_of(&entries[i]);
            if let Some(name) = &entries[i].name {
                match fate {
                    Fate::Skip => {},
                    Fate::Descend => {
                        self.pending.push(join_path(dir, name));
                        assert(text_views(self.pending@) =~= text_views(pending).push(
                            joined(dir@, name@),
                        ));
                    },
                    Fate::Record => {
                        self.found.push(join_path(dir, name));
                        assert(text_views(self.found@) =~= text_views(found).push(
                            joined(dir@, name@),
                        ));
                    },
                }
            }
        }
        assert(all.take(all.len() as int) =~= all);
    }

    /// The paths of all records that were found, in order.
    pub fn finish(self) -> (r: Vec<String>)
        ensures
            text_views(r@).to_multiset() == self@.found.to_multiset(),
            in_order(text_views(r@), path_relation()),
    {
        let ghost found = self@.found;
        let r = merge_sort(self.found, &ByPath);
        proof {
            assert(views_of(r@) == text_views(r@));
            assert(views_of(self.found@) == found);
            lemma_path_lawful(found.to_multiset());
        }
        r
    }
}

// ---------------------------------------------------------------------------
// Laws
// ---------------------------------------------------------------------------

/// A component that a walk may pass through.
pub open spec fn is_visible(name: Seq<char>) -> bool {
    name.len() > 0 && !is_hidden(name)
}

/// A directory that a walk may enter: the collection's own, or one whose path has
/// neither hidden nor noise components.
pub open spec fn clean_directory(path: Seq<char>) -> bool {
    path.len() == 0 || forall|i: int|
        0 <= i < components(path).len() ==> is_visible(#[trigger] components(path)[i]) && !is_noise(
            components(path)[i],
        )
}

/// A file that a walk may find: in such a directory, not hidden, no schema.
pub open spec fn clean_record(path: Seq<char>) -> bool {
    let parts = components(path);
    &&& parts.len() > 0
    &&& parts.last() != "schema.md"@
    &&& forall|i: int| 0 <= i < parts.len() ==> is_visible(#[trigger] parts[i])
    &&& forall|i: int| 0 <= i < parts.len() - 1 ==> !is_noise(#[trigger] parts[i])
}

/// All directories and files of the walk are such.
pub open spec fn clean(w: WalkView) -> bool {
    &&& forall|i: int| 0 <= i < w.pending.len() ==> clean_directory(#[trigger] w.pending[i])
    &&& forall|i: int| 0 <= i < w.found.len() ==> clean_record(#[trigger] w.found[i])
}

/// A name that a file system can give: not empty, without separator.
pub open spec fn is_name(e: EntryView) -> bool {
    e.name matches Some(name) ==> name.len() > 0 && !name.contains('/')
}

pub(crate) proof fn lemma_entry_path(dir: Seq<char>, name: Seq<char>)
    requires
        clean_directory(dir),
        name.len() > 0,
        !name.contains('/'),
    ensures
        components(joined(dir, name)) == if dir.len() == 0 {
            seq![name]
        } else {
            components(dir).push(name)
        },
        joined(dir, name).len() > 0,
{
    if dir.len() == 0 {
        lemma_single_component(name);
    } else {
        if dir.last() == '/' {
            lemma_last_component(dir);
            crate::text::lemma_split_on_len(dir, '/');
            assert(is_visible(components(dir)[components(dir).len() - 1]));
        }
        lemma_joined_components(dir, name);
    }
}

/// Walking never leads to hidden files, noise directories or schemas: every step
/// keeps the walk clean.
pub proof fn law_walk_stays_clean(w: WalkView, dir: Seq<char>, entries: Seq<EntryView>)
    requires
        clean(w),
        clean_directory(dir),
        forall|i: int| 0 <= i < entries.len() ==> is_name(#[trigger] entries[i]),
    ensures
        clean(w.after_listing(dir, entries)),
    decreases entries.len(),
{
    if entries.len() > 0 {
        let front = entries.drop_last();
        let e = entries.last();
        assert forall|i: int| 0 <= i < front.len() implies is_name(#[trigger] front[i]) by {
            assert(front[i] == entries[i]);
        }
        law_walk_stays_clean(w, dir, front);
        let before = w.after_listing(dir, front);
        let after = before.after_entry(dir, e);
        assert(is_name(entries[entries.len() - 1]));
        if e.fate() != Fate::Skip {
            let name = e.name->Some_0;
            let path = joined(dir, name);
            lemma_entry_path(dir, name);
            let parts = components(path);
            if dir.len() > 0 {
                assert forall|i: int| 0 <= i < parts.len() - 1 implies parts[i] == #[trigger] components(
                    dir,
                )[i] by {}
                assert(forall|i: int|
                    0 <= i < parts.len() - 1 ==> is_visible(#[trigger] parts[i]) && !is_noise(
                        parts[i],
                    )) by {
                    assert forall|i: int| 0 <= i < parts.len() - 1 implies is_visible(
                        #[trigger] parts[i],
                    ) && !is_noise(parts[i]) by {
                        assert(is_visible(components(dir)[i]));
                    }
                }
            }
            assert(parts[parts.len() - 1] == name);
            assert(forall|i: int|
                0 <= i < parts.len() ==> is_visible(#[trigger] parts[i])) by {
                assert forall|i: int| 0 <= i < parts.len() implies is_visible(#[trigger] parts[i]) by {
                    if i < parts.len() - 1 {
                        assert(is_visible(components(dir)[i]));
                    }
                }
            }
            if e.fate() == Fate::Descend {
                assert(clean_directory(path));
            } else {
                assert(clean_record(path));
            }
        }
        assert(clean(after));
    }
}

/// Walking misses nothing: what was found or pending stays so, in its place, and
/// every entry that is a record is then found, every directory to enter pending.
pub proof fn law_walk_misses_nothing(w: WalkView, dir: Seq<char>, entries: Seq<EntryView>)
    ensures
        ({
            let after = w.after_listing(dir, entries);
            &&& w.found.is_prefix_of(after.found)
            &&& w.pending.is_prefix_of(after.pending)
            &&& forall|i: int|
                0 <= i < entries.len() && (#[trigger] entries[i]).fate() == Fate::Record
                    ==> after.found.contains(joined(dir, entries[i].name->Some_0))
            &&& forall|i: int|
                0 <= i < entries.len() && (#[trigger] entries[i]).fate() == Fate::Descend
                    ==> after.pending.contains(joined(dir, entries[i].name->Some_0))
        }),
    decreases entries.len(),
{
    if entries.len() > 0 {
        let front = entries.drop_last();
        law_walk_misses_nothing(w, dir, front);
        let before = w.after_listing(dir, front);
        let after = w.after_listing(dir, entries);
        let path = joined(dir, entries.last().name->Some_0);
        lemma_push_keeps(before.found, path);
        lemma_push_keeps(before.pending, path);
        assert(w.found.is_prefix_of(after.found));
        assert(w.pending.is_prefix_of(after.pending));
        assert forall|i: int|
            0 <= i < entries.len() && (#[trigger] entries[i]).fate() == Fate::Record implies after.found.contains(
        joined(dir, entries[i].name->Some_0)) by {
            if i < front.len() {
                assert(front[i] == entries[i]);
            }
        }
        assert forall|i: int|
            0 <= i < entries.len() && (#[trigger] entries[i]).fate() == Fate::Descend implies after.pending.contains(
        joined(dir, entries[i].name->Some_0)) by {
            if i < front.len() {
                assert(front[i] == entries[i]);
            }
        }
    }
}

proof fn lemma_push_keeps(list: Seq<Seq<char>>, last: Seq<char>)
    ensures
        forall|p: Seq<char>| list.contains(p) ==> #[trigger] list.push(last).contains(p),
        list.push(last).contains(last),
{
    let more = list.push(last);
    assert(more[list.len() as int] == last);
    assert forall|p: Seq<char>| list.contains(p) implies #[trigger] more.contains(p) by {
        let i = choose|i: int| 0 <= i < list.len() && list[i] == p;
        assert(more[i] == p);
    }
}

} // verus!
