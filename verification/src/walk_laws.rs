//! What a whole walk of a directory tree finds.

use vstd::prelude::*;

use crate::path::{components, joined};
use crate::walk::{
    clean_directory, is_name, is_noise, is_visible, lemma_entry_path, EntryView, Fate, WalkView,
};

verus! {

// ---------------------------------------------------------------------------
// Trees
// ---------------------------------------------------------------------------

/// What listing a directory gives: nothing for one that cannot be listed.
pub open spec fn entries_at(tree: Map<Seq<char>, Seq<EntryView>>, dir: Seq<char>) -> Seq<EntryView> {
    if tree.contains_key(dir) {
        tree[dir]
    } else {
        Seq::empty()
    }
}

/// The entries of a directory have names that a file system can give, each its own.
pub open spec fn sound_listing(entries: Seq<EntryView>) -> bool {
    &&& forall|i: int| 0 <= i < entries.len() ==> is_name(#[trigger] entries[i])
    &&& forall|i: int, j: int|
        0 <= i < j < entries.len() && (#[trigger] entries[i]).name is Some ==> entries[i].name != (
        #[trigger] entries[j]).name
}

pub open spec fn sound_tree(tree: Map<Seq<char>, Seq<EntryView>>) -> bool {
    forall|dir: Seq<char>| sound_listing(#[trigger] entries_at(tree, dir))
}

/// The directory has an entry of that name with that fate.
pub open spec fn lists(
    tree: Map<Seq<char>, Seq<EntryView>>,
    dir: Seq<char>,
    name: Seq<char>,
    fate: Fate,
) -> bool {
    has_entry(entries_at(tree, dir), name, fate)
}

pub open spec fn has_entry(entries: Seq<EntryView>, name: Seq<char>, fate: Fate) -> bool {
    exists|i: int|
        0 <= i < entries.len() && (#[trigger] entries[i]).name == Some(name) && entries[i].fate()
            == fate
}

/// The path that names lead to, from the collection's directory on.
pub open spec fn path_of(names: Seq<Seq<char>>) -> Seq<char>
    decreases names.len(),
{
    if names.len() == 0 {
        Seq::empty()
    } else {
        joined(path_of(names.drop_last()), names.last())
    }
}

/// The names lead to a directory through directories that are all to be entered.
pub open spec fn leads_to_directory(
    tree: Map<Seq<char>, Seq<EntryView>>,
    names: Seq<Seq<char>>,
) -> bool
    decreases names.len(),
{
    names.len() == 0 || (leads_to_directory(tree, names.drop_last()) && lists(
        tree,
        path_of(names.drop_last()),
        names.last(),
        Fate::Descend,
    ))
}

/// The names lead to a record through such directories.
pub open spec fn leads_to_record(
    tree: Map<Seq<char>, Seq<EntryView>>,
    names: Seq<Seq<char>>,
) -> bool {
    names.len() > 0 && leads_to_directory(tree, names.drop_last()) && lists(
        tree,
        path_of(names.drop_last()),
        names.last(),
        Fate::Record,
    )
}

/// The path of a directory of the tree that is to be entered.
pub open spec fn is_directory_of(tree: Map<Seq<char>, Seq<EntryView>>, path: Seq<char>) -> bool {
    exists|names: Seq<Seq<char>>| #[trigger]
        leads_to_directory(tree, names) && path == path_of(names)
}

/// The path of a record of the tree: every directory on it is to be entered, and its
/// last name is a record's.
pub open spec fn is_record_of(tree: Map<Seq<char>, Seq<EntryView>>, path: Seq<char>) -> bool {
    exists|names: Seq<Seq<char>>| #[trigger]
        leads_to_record(tree, names) && path == path_of(names)
}

// ---------------------------------------------------------------------------
// Walks
// ---------------------------------------------------------------------------

/// A walk that begins.
pub open spec fn walk_start() -> WalkView {
    WalkView { pending: seq![Seq::<char>::empty()], found: Seq::empty() }
}

/// The walk after the next directory was taken and its listing added.
pub open spec fn walk_step(tree: Map<Seq<char>, Seq<EntryView>>, w: WalkView) -> WalkView {
    let dir = w.pending.last();
    WalkView { pending: w.pending.drop_last(), ..w }.after_listing(dir, entries_at(tree, dir))
}

/// The walk after that many steps, or fewer where nothing is pending any more.
pub open spec fn walked(tree: Map<Seq<char>, Seq<EntryView>>, steps: nat) -> WalkView
    decreases steps,
{
    if steps == 0 {
        walk_start()
    } else {
        let w = walked(tree, (steps - 1) as nat);
        if w.pending.len() == 0 {
            w
        } else {
            walk_step(tree, w)
        }
    }
}

/// The directories that were listed in those steps.
spec fn visited(tree: Map<Seq<char>, Seq<EntryView>>, steps: nat) -> Seq<Seq<char>>
    decreases steps,
{
    if steps == 0 {
        Seq::empty()
    } else {
        let before = visited(tree, (steps - 1) as nat);
        let w = walked(tree, (steps - 1) as nat);
        if w.pending.len() == 0 {
            before
        } else {
            before.push(w.pending.last())
        }
    }
}

/// The paths of the entries with that fate, in order.
spec fn picked(dir: Seq<char>, entries: Seq<EntryView>, fate: Fate) -> Seq<Seq<char>>
    decreases entries.len(),
{
    if entries.len() == 0 {
        Seq::empty()
    } else {
        let front = picked(dir, entries.drop_last(), fate);
        if entries.last().fate() == fate {
            front.push(joined(dir, entries.last().name->Some_0))
        } else {
            front
        }
    }
}

proof fn lemma_listing_adds_picked(w: WalkView, dir: Seq<char>, entries: Seq<EntryView>)
    ensures
        w.after_listing(dir, entries).pending == w.pending + picked(dir, entries, Fate::Descend),
        w.after_listing(dir, entries).found == w.found + picked(dir, entries, Fate::Record),
    decreases entries.len(),
{
    let after = w.after_listing(dir, entries);
    if entries.len() > 0 {
        lemma_listing_adds_picked(w, dir, entries.drop_last());
    }
    assert(after.pending =~= w.pending + picked(dir, entries, Fate::Descend));
    assert(after.found =~= w.found + picked(dir, entries, Fate::Record));
}

/// The path leads to an entry of that name and fate in that directory.
spec fn is_child(
    tree: Map<Seq<char>, Seq<EntryView>>,
    dir: Seq<char>,
    name: Seq<char>,
    fate: Fate,
    path: Seq<char>,
) -> bool {
    lists(tree, dir, name, fate) && path == joined(dir, name)
}

// ---------------------------------------------------------------------------
// Paths tell their names
// ---------------------------------------------------------------------------

proof fn lemma_directory_names(tree: Map<Seq<char>, Seq<EntryView>>, names: Seq<Seq<char>>)
    requires
        sound_tree(tree),
        leads_to_directory(tree, names),
    ensures
        clean_directory(path_of(names)),
        names.len() > 0 ==> path_of(names).len() > 0 && components(path_of(names)) == names,
    decreases names.len(),
{
    lemma_directory_name_texts(tree, names);
    if names.len() > 0 {
        let front = names.drop_last();
        lemma_directory_names(tree, front);
        lemma_listed_name(tree, path_of(front), names.last(), Fate::Descend);
        lemma_entry_path(path_of(front), names.last());
        if front.len() == 0 {
            assert(names =~= seq![names.last()]);
        } else {
            assert(names =~= front.push(names.last()));
        }
    }
}

proof fn lemma_directory_name_texts(tree: Map<Seq<char>, Seq<EntryView>>, names: Seq<Seq<char>>)
    requires
        sound_tree(tree),
        leads_to_directory(tree, names),
    ensures
        forall|i: int|
            0 <= i < names.len() ==> is_visible(#[trigger] names[i]) && !is_noise(names[i]),
    decreases names.len(),
{
    if names.len() > 0 {
        let front = names.drop_last();
        lemma_directory_name_texts(tree, front);
        lemma_listed_name(tree, path_of(front), names.last(), Fate::Descend);
        assert forall|i: int| 0 <= i < names.len() implies is_visible(#[trigger] names[i])
            && !is_noise(names[i]) by {
            if i < front.len() {
                assert(front[i] == names[i]);
            }
        }
    }
}

proof fn lemma_listed_name(
    tree: Map<Seq<char>, Seq<EntryView>>,
    dir: Seq<char>,
    name: Seq<char>,
    fate: Fate,
)
    requires
        sound_tree(tree),
        lists(tree, dir, name, fate),
        fate != Fate::Skip,
    ensures
        name.len() > 0,
        !name.contains('/'),
        is_visible(name),
        fate == Fate::Descend ==> !is_noise(name),
{
    let entries = entries_at(tree, dir);
    assert(sound_listing(entries));
    let i = choose|i: int|
        0 <= i < entries.len() && (#[trigger] entries[i]).name == Some(name) && entries[i].fate()
            == fate;
    assert(is_name(entries[i]));
}

/// An entry's path tells its directory and its name.
proof fn lemma_child_is_unique(
    tree: Map<Seq<char>, Seq<EntryView>>,
    d1: Seq<char>,
    n1: Seq<char>,
    f1: Fate,
    d2: Seq<char>,
    n2: Seq<char>,
    f2: Fate,
)
    requires
        sound_tree(tree),
        is_directory_of(tree, d1),
        is_directory_of(tree, d2),
        lists(tree, d1, n1, f1),
        lists(tree, d2, n2, f2),
        f1 != Fate::Skip,
        f2 != Fate::Skip,
        joined(d1, n1) == joined(d2, n2),
    ensures
        d1 == d2,
        n1 == n2,
{
    let a = choose|names: Seq<Seq<char>>| #[trigger]
        leads_to_directory(tree, names) && d1 == path_of(names);
    let b = choose|names: Seq<Seq<char>>| #[trigger]
        leads_to_directory(tree, names) && d2 == path_of(names);
    lemma_directory_names(tree, a);
    lemma_directory_names(tree, b);
    lemma_listed_name(tree, d1, n1, f1);
    lemma_listed_name(tree, d2, n2, f2);
    lemma_entry_path(d1, n1);
    lemma_entry_path(d2, n2);
    let parts = components(joined(d1, n1));
    assert(parts =~= a.push(n1));
    assert(parts =~= b.push(n2));
    assert(a.push(n1).last() == n1);
    assert(b.push(n2).last() == n2);
    assert(a.push(n1).drop_last() =~= a);
    assert(b.push(n2).drop_last() =~= b);
}

/// A child directory is a directory of the tree.
proof fn lemma_child_directory(
    tree: Map<Seq<char>, Seq<EntryView>>,
    dir: Seq<char>,
    name: Seq<char>,
)
    requires
        is_directory_of(tree, dir),
        lists(tree, dir, name, Fate::Descend),
    ensures
        is_directory_of(tree, joined(dir, name)),
{
    let names = choose|names: Seq<Seq<char>>| #[trigger]
        leads_to_directory(tree, names) && dir == path_of(names);
    let more = names.push(name);
    assert(more.drop_last() =~= names);
    assert(leads_to_directory(tree, more));
}

/// What is picked from a listing is each child with that fate, once.
proof fn lemma_picked(
    tree: Map<Seq<char>, Seq<EntryView>>,
    dir: Seq<char>,
    entries: Seq<EntryView>,
    fate: Fate,
)
    requires
        sound_tree(tree),
        is_directory_of(tree, dir),
        entries.is_prefix_of(entries_at(tree, dir)),
        fate != Fate::Skip,
    ensures
        picked(dir, entries, fate).no_duplicates(),
        forall|name: Seq<char>| #[trigger]
            has_entry(entries, name, fate) ==> picked(dir, entries, fate).contains(
                joined(dir, name),
            ),
        forall|p: Seq<char>| #[trigger]
            picked(dir, entries, fate).contains(p) ==> exists|name: Seq<char>| #[trigger]
                has_entry(entries, name, fate) && p == joined(dir, name),
    decreases entries.len(),
{
    broadcast use vstd::seq_lib::lemma_seq_contains_after_push;

    let all = entries_at(tree, dir);
    let list = picked(dir, entries, fate);
    if entries.len() > 0 {
        let front = entries.drop_last();
        let last = entries.last();
        let at = entries.len() - 1;
        let before = picked(dir, front, fate);
        assert(front.is_prefix_of(all));
        lemma_picked(tree, dir, front, fate);
        assert(sound_listing(all));
        assert(entries[at] == last && all[at] == last);
        let own = joined(dir, last.name->Some_0);
        if last.fate() == fate {
            assert(has_entry(entries, last.name->Some_0, fate));
            assert(has_entry(all, last.name->Some_0, fate));
            if before.contains(own) {
                let name = choose|name: Seq<char>| #[trigger]
                    has_entry(front, name, fate) && own == joined(dir, name);
                let i = choose|i: int|
                    0 <= i < front.len() && (#[trigger] front[i]).name == Some(name)
                        && front[i].fate() == fate;
                assert(all[i] == front[i]);
                assert(has_entry(all, name, fate));
                lemma_child_is_unique(tree, dir, name, fate, dir, last.name->Some_0, fate);
                assert(all[i].name == all[at].name);
            }
            assert(list.no_duplicates()) by {
                assert forall|i: int, j: int| 0 <= i < list.len() && 0 <= j < list.len() && i
                    != j implies list[i] != list[j] by {
                    if i < before.len() && j < before.len() {
                        assert(before[i] != before[j]);
                    } else if i < before.len() {
                        assert(before.contains(before[i]));
                    } else {
                        assert(before.contains(before[j]));
                    }
                }
            }
        }
        assert forall|name: Seq<char>| #[trigger] has_entry(entries, name, fate) implies list.contains(
            joined(dir, name),
        ) by {
            let i = choose|i: int|
                0 <= i < entries.len() && (#[trigger] entries[i]).name == Some(name)
                    && entries[i].fate() == fate;
            if i < front.len() {
                assert(front[i] == entries[i]);
                assert(has_entry(front, name, fate));
            }
        }
        assert forall|p: Seq<char>| #[trigger] list.contains(p) implies exists|name: Seq<char>|
         #[trigger]
            has_entry(entries, name, fate) && p == joined(dir, name) by {
            if before.contains(p) {
                let name = choose|name: Seq<char>| #[trigger]
                    has_entry(front, name, fate) && p == joined(dir, name);
                let i = choose|i: int|
                    0 <= i < front.len() && (#[trigger] front[i]).name == Some(name)
                        && front[i].fate() == fate;
                assert(entries[i] == front[i]);
                assert(has_entry(entries, name, fate));
            } else {
                assert(p == own);
            }
        }
    }
}

// ---------------------------------------------------------------------------
// What every step keeps
// ---------------------------------------------------------------------------

/// The path is a child with that fate of a directory in the list.
spec fn is_reached(
    tree: Map<Seq<char>, Seq<EntryView>>,
    done: Seq<Seq<char>>,
    fate: Fate,
    path: Seq<char>,
) -> bool {
    exists|dir: Seq<char>, name: Seq<char>|
        done.contains(dir) && #[trigger] is_child(tree, dir, name, fate, path)
}

/// No directory is pending or was listed twice, and each is one of the tree.
spec fn visits_once(
    tree: Map<Seq<char>, Seq<EntryView>>,
    w: WalkView,
    done: Seq<Seq<char>>,
) -> bool {
    &&& done.no_duplicates()
    &&& w.pending.no_duplicates()
    &&& forall|p: Seq<char>| #[trigger] done.contains(p) ==> !w.pending.contains(p)
    &&& forall|p: Seq<char>| #[trigger] done.contains(p) ==> is_directory_of(tree, p)
    &&& forall|p: Seq<char>| #[trigger] w.pending.contains(p) ==> is_directory_of(tree, p)
}

/// The directories known are the collection's own and the children to be entered of
/// those that were listed.
spec fn knows_children(
    tree: Map<Seq<char>, Seq<EntryView>>,
    w: WalkView,
    done: Seq<Seq<char>>,
) -> bool {
    &&& done.contains(Seq::empty()) || w.pending.contains(Seq::empty())
    &&& forall|p: Seq<char>|
        #![trigger is_reached(tree, done, Fate::Descend, p)]
        is_reached(tree, done, Fate::Descend, p) ==> done.contains(p) || w.pending.contains(p)
    &&& forall|p: Seq<char>|
        #![trigger done.contains(p)]
        #![trigger w.pending.contains(p)]
        (done.contains(p) || w.pending.contains(p)) && p.len() > 0 ==> is_reached(
            tree,
            done,
            Fate::Descend,
            p,
        )
}

/// The files found are the records in the directories that were listed, each once.
spec fn found_records(
    tree: Map<Seq<char>, Seq<EntryView>>,
    w: WalkView,
    done: Seq<Seq<char>>,
) -> bool {
    &&& w.found.no_duplicates()
    &&& forall|p: Seq<char>|
        #![trigger w.found.contains(p)]
        #![trigger is_reached(tree, done, Fate::Record, p)]
        w.found.contains(p) <==> is_reached(tree, done, Fate::Record, p)
}

/// Listing one more directory adds its children, and no path that was reached before.
proof fn lemma_reached_more(
    tree: Map<Seq<char>, Seq<EntryView>>,
    done: Seq<Seq<char>>,
    dir: Seq<char>,
    fate: Fate,
)
    requires
        sound_tree(tree),
        is_directory_of(tree, dir),
        !done.contains(dir),
        forall|p: Seq<char>| #[trigger] done.contains(p) ==> is_directory_of(tree, p),
        fate != Fate::Skip,
    ensures
        picked(dir, entries_at(tree, dir), fate).no_duplicates(),
        forall|p: Seq<char>| #[trigger]
            is_reached(tree, done.push(dir), fate, p) <==> is_reached(tree, done, fate, p)
                || picked(dir, entries_at(tree, dir), fate).contains(p),
        forall|p: Seq<char>| #[trigger]
            picked(dir, entries_at(tree, dir), fate).contains(p) ==> !is_reached(
                tree,
                done,
                fate,
                p,
            ) && exists|name: Seq<char>| #[trigger] is_child(tree, dir, name, fate, p),
{
    broadcast use vstd::seq_lib::lemma_seq_contains_after_push;

    let entries = entries_at(tree, dir);
    let list = picked(dir, entries, fate);
    let more = done.push(dir);
    lemma_picked(tree, dir, entries, fate);
    assert(more.contains(dir));
    assert forall|p: Seq<char>| #[trigger] list.contains(p) implies !is_reached(tree, done, fate, p)
        && exists|name: Seq<char>| #[trigger] is_child(tree, dir, name, fate, p) by {
        let name = choose|name: Seq<char>| #[trigger]
            has_entry(entries, name, fate) && p == joined(dir, name);
        assert(is_child(tree, dir, name, fate, p));
        if is_reached(tree, done, fate, p) {
            let (d, n) = choose|d: Seq<char>, n: Seq<char>|
                done.contains(d) && #[trigger] is_child(tree, d, n, fate, p);
            lemma_child_is_unique(tree, d, n, fate, dir, name, fate);
        }
    }
    assert forall|p: Seq<char>| #[trigger] is_reached(tree, more, fate, p) <==> is_reached(
        tree,
        done,
        fate,
        p,
    ) || list.contains(p) by {
        if is_reached(tree, more, fate, p) {
            let (d, n) = choose|d: Seq<char>, n: Seq<char>|
                more.contains(d) && #[trigger] is_child(tree, d, n, fate, p);
            if done.contains(d) {
                assert(is_reached(tree, done, fate, p));
            } else {
                assert(d == dir);
                assert(has_entry(entries, n, fate));
            }
        }
        if is_reached(tree, done, fate, p) {
            let (d, n) = choose|d: Seq<char>, n: Seq<char>|
                done.contains(d) && #[trigger] is_child(tree, d, n, fate, p);
            assert(more.contains(d));
        }
        if list.contains(p) {
            let n = choose|n: Seq<char>| #[trigger] is_child(tree, dir, n, fate, p);
            assert(is_reached(tree, more, fate, p));
        }
    }
}

proof fn lemma_concat_without_duplicates(a: Seq<Seq<char>>, b: Seq<Seq<char>>)
    requires
        a.no_duplicates(),
        b.no_duplicates(),
        forall|p: Seq<char>| #[trigger] b.contains(p) ==> !a.contains(p),
    ensures
        (a + b).no_duplicates(),
{
    assert forall|i: int, j: int| 0 <= i < a.len() && 0 <= j < b.len() implies a[i] != b[j] by {
        assert(b.contains(b[j]));
        assert(a.contains(a[i]));
    }
    vstd::seq_lib::lemma_no_dup_in_concat(a, b);
}

proof fn lemma_pop(list: Seq<Seq<char>>)
    requires
        list.len() > 0,
        list.no_duplicates(),
    ensures
        list.contains(list.last()),
        list.drop_last().no_duplicates(),
        forall|p: Seq<char>| #[trigger]
            list.drop_last().contains(p) <==> list.contains(p) && p != list.last(),
{
    let front = list.drop_last();
    assert(list[list.len() - 1] == list.last());
    assert forall|p: Seq<char>| #[trigger] front.contains(p) <==> list.contains(p) && p
        != list.last() by {
        if front.contains(p) {
            let i = choose|i: int| 0 <= i < front.len() && front[i] == p;
            assert(list[i] == p);
        }
        if list.contains(p) && p != list.last() {
            let i = choose|i: int| 0 <= i < list.len() && list[i] == p;
            assert(front[i] == p);
        }
    }
}

proof fn lemma_step_keeps(
    tree: Map<Seq<char>, Seq<EntryView>>,
    w: WalkView,
    done: Seq<Seq<char>>,
)
    requires
        sound_tree(tree),
        w.pending.len() > 0,
        visits_once(tree, w, done),
        knows_children(tree, w, done),
        found_records(tree, w, done),
    ensures
        visits_once(tree, walk_step(tree, w), done.push(w.pending.last())),
        knows_children(tree, walk_step(tree, w), done.push(w.pending.last())),
        found_records(tree, walk_step(tree, w), done.push(w.pending.last())),
{
    broadcast use vstd::seq_lib::lemma_seq_contains_after_push;
    broadcast use vstd::seq_lib::lemma_seq_concat_contains_all_elements;

    let dir = w.pending.last();
    let entries = entries_at(tree, dir);
    let rest = w.pending.drop_last();
    let after = walk_step(tree, w);
    let more = done.push(dir);
    let directories = picked(dir, entries, Fate::Descend);
    let records = picked(dir, entries, Fate::Record);
    lemma_pop(w.pending);
    assert(!done.contains(dir));
    lemma_listing_adds_picked(WalkView { pending: rest, ..w }, dir, entries);
    assert(after.pending == rest + directories);
    assert(after.found == w.found + records);
    lemma_reached_more(tree, done, dir, Fate::Descend);
    lemma_reached_more(tree, done, dir, Fate::Record);

    assert forall|p: Seq<char>| #[trigger] directories.contains(p) implies p.len() > 0
        && is_directory_of(tree, p) && !done.contains(p) && !w.pending.contains(p) by {
        let name = choose|name: Seq<char>| #[trigger]
            is_child(tree, dir, name, Fate::Descend, p);
        lemma_child_directory(tree, dir, name);
        let names = choose|names: Seq<Seq<char>>| #[trigger]
            leads_to_directory(tree, names) && dir == path_of(names);
        lemma_directory_names(tree, names);
        lemma_listed_name(tree, dir, name, Fate::Descend);
        lemma_entry_path(dir, name);
    }
    assert(visits_once(tree, after, more)) by {
        lemma_concat_without_duplicates(rest, directories);
        assert forall|i: int, j: int| 0 <= i < more.len() && 0 <= j < more.len() && i
            != j implies more[i] != more[j] by {
            if i < done.len() {
                assert(done.contains(done[i]));
            }
            if j < done.len() {
                assert(done.contains(done[j]));
            }
        }
    }
    assert(knows_children(tree, after, more)) by {
        assert forall|p: Seq<char>|
            is_reached(tree, more, Fate::Descend, p) implies more.contains(p)
            || after.pending.contains(p) by {}
        assert forall|p: Seq<char>|
            (more.contains(p) || after.pending.contains(p)) && p.len() > 0 implies is_reached(
            tree,
            more,
            Fate::Descend,
            p,
        ) by {
            if !directories.contains(p) {
                assert(done.contains(p) || w.pending.contains(p));
                assert(is_reached(tree, done, Fate::Descend, p));
            }
        }
    }
    assert(found_records(tree, after, more)) by {
        lemma_concat_without_duplicates(w.found, records);
    }
}

proof fn lemma_walk_keeps(tree: Map<Seq<char>, Seq<EntryView>>, steps: nat)
    requires
        sound_tree(tree),
    ensures
        visits_once(tree, walked(tree, steps), visited(tree, steps)),
        knows_children(tree, walked(tree, steps), visited(tree, steps)),
        found_records(tree, walked(tree, steps), visited(tree, steps)),
        walked(tree, steps).pending.len() > 0 ==> visited(tree, steps).len() == steps,
    decreases steps,
{
    if steps == 0 {
        let none = Seq::<Seq<char>>::empty();
        let root = Seq::<char>::empty();
        let w = walk_start();
        assert(w.pending[0] == root);
        assert(w.pending.contains(root));
        assert(path_of(none) == root);
        assert(leads_to_directory(tree, none));
        assert(is_directory_of(tree, root));
        assert forall|p: Seq<char>| #[trigger] w.pending.contains(p) implies p == root by {}
        assert forall|p: Seq<char>, fate: Fate| !#[trigger] is_reached(tree, none, fate, p) by {}
    } else {
        let last = (steps - 1) as nat;
        lemma_walk_keeps(tree, last);
        let w = walked(tree, last);
        if w.pending.len() > 0 {
            lemma_step_keeps(tree, w, visited(tree, last));
        }
    }
}

// ---------------------------------------------------------------------------
// Laws
// ---------------------------------------------------------------------------

proof fn lemma_all_visited(
    tree: Map<Seq<char>, Seq<EntryView>>,
    steps: nat,
    names: Seq<Seq<char>>,
)
    requires
        sound_tree(tree),
        walked(tree, steps).pending.len() == 0,
        leads_to_directory(tree, names),
    ensures
        visited(tree, steps).contains(path_of(names)),
    decreases names.len(),
{
    lemma_walk_keeps(tree, steps);
    let done = visited(tree, steps);
    if names.len() > 0 {
        let front = names.drop_last();
        lemma_all_visited(tree, steps, front);
        assert(is_child(tree, path_of(front), names.last(), Fate::Descend, path_of(names)));
        assert(is_reached(tree, done, Fate::Descend, path_of(names)));
    }
}

/// A whole walk finds exactly the records of the tree, each once: when nothing is
/// pending any more, a list of what was found holds the paths whose every directory
/// is to be entered and whose last name is a record's, and no others.
pub proof fn law_walk_finds_exactly_the_records(
    tree: Map<Seq<char>, Seq<EntryView>>,
    steps: nat,
    result: Seq<Seq<char>>,
)
    requires
        sound_tree(tree),
        walked(tree, steps).pending.len() == 0,
        result.to_multiset() == walked(tree, steps).found.to_multiset(),
    ensures
        forall|path: Seq<char>| #[trigger] result.contains(path) <==> is_record_of(tree, path),
        result.no_duplicates(),
{
    let found = walked(tree, steps).found;
    let done = visited(tree, steps);
    lemma_walk_keeps(tree, steps);
    found.to_multiset_ensures();
    result.to_multiset_ensures();
    found.lemma_multiset_has_no_duplicates();
    result.lemma_multiset_has_no_duplicates_conv();
    assert forall|path: Seq<char>| #[trigger] result.contains(path) <==> is_record_of(
        tree,
        path,
    ) by {
        assert(result.contains(path) <==> result.to_multiset().count(path) > 0);
        assert(found.contains(path) <==> found.to_multiset().count(path) > 0);
        if found.contains(path) {
            let (dir, name) = choose|dir: Seq<char>, name: Seq<char>|
                done.contains(dir) && #[trigger] is_child(tree, dir, name, Fate::Record, path);
            assert(is_directory_of(tree, dir));
            let names = choose|names: Seq<Seq<char>>| #[trigger]
                leads_to_directory(tree, names) && dir == path_of(names);
            let more = names.push(name);
            assert(more.drop_last() =~= names);
            assert(leads_to_record(tree, more));
        }
        if is_record_of(tree, path) {
            let names = choose|names: Seq<Seq<char>>| #[trigger]
                leads_to_record(tree, names) && path == path_of(names);
            lemma_all_visited(tree, steps, names.drop_last());
            assert(is_child(
                tree,
                path_of(names.drop_last()),
                names.last(),
                Fate::Record,
                path,
            ));
            assert(is_reached(tree, done, Fate::Record, path));
        }
    }
}

/// A walk of a tree with finitely many directories ends, after at most one step for
/// each: no directory is listed twice.
pub proof fn law_walk_ends(
    tree: Map<Seq<char>, Seq<EntryView>>,
    directories: Set<Seq<char>>,
)
    requires
        sound_tree(tree),
        directories.finite(),
        forall|dir: Seq<char>| #[trigger] is_directory_of(tree, dir) ==> directories.contains(dir),
    ensures
        walked(tree, directories.len()).pending.len() == 0,
{
    let steps = directories.len();
    let w = walked(tree, steps);
    let done = visited(tree, steps);
    lemma_walk_keeps(tree, steps);
    if w.pending.len() > 0 {
        let next = w.pending.last();
        assert(w.pending[w.pending.len() - 1] == next);
        assert(w.pending.contains(next));
        let listed = done.to_set();
        done.unique_seq_to_set();
        assert(listed.subset_of(directories.remove(next))) by {
            assert forall|p: Seq<char>| #[trigger] listed.contains(p) implies directories.remove(
                next,
            ).contains(p) by {
                assert(done.contains(p));
            }
        }
        vstd::set_lib::lemma_len_subset(listed, directories.remove(next));
    }
}

} // verus!
