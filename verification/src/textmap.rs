//! A map from texts, kept in the order of its keys.

use vstd::prelude::*;

use crate::text::{compare_text, lemma_ranked_total, lemma_ranked_transitive, text_lt, Order};

verus! {

/// A map from texts to values of type `V`, in the order of its keys.
pub struct TextMap<V> {
    entries: Vec<(String, V)>,
}

/// The keys increase from entry to entry.
pub open spec fn increasing<V>(entries: Seq<(String, V)>) -> bool {
    forall|i: int, j: int|
        0 <= i < j < entries.len() ==> text_lt((#[trigger] entries[i]).0@, (#[trigger] entries[j]).0@)
}

/// Whether some entry has the given key.
pub open spec fn has_key<V>(entries: Seq<(String, V)>, key: Seq<char>) -> bool {
    exists|i: int| 0 <= i < entries.len() && (#[trigger] entries[i]).0@ == key
}

/// The position of an entry with the given key.
pub open spec fn place_of<V>(entries: Seq<(String, V)>, key: Seq<char>) -> int {
    choose|i: int| 0 <= i < entries.len() && (#[trigger] entries[i]).0@ == key
}

/// The map that a list of entries makes.
pub open spec fn map_of<V: View>(entries: Seq<(String, V)>) -> Map<Seq<char>, V::V> {
    Map::new(
        |key: Seq<char>| has_key(entries, key),
        |key: Seq<char>| entries[place_of(entries, key)].1@,
    )
}

proof fn lemma_unique<V>(entries: Seq<(String, V)>, i: int, j: int)
    requires
        increasing(entries),
        0 <= i < entries.len(),
        0 <= j < entries.len(),
        entries[i].0@ == entries[j].0@,
    ensures
        i == j,
{
    lemma_ranked_total(entries[i].0@, entries[i].0@, false);
    if i < j {
        assert(text_lt(entries[i].0@, entries[j].0@));
    } else if j < i {
        assert(text_lt(entries[j].0@, entries[i].0@));
    }
}

/// An entry at a known position is what the map holds under its key.
pub proof fn lemma_entry<V: View>(entries: Seq<(String, V)>, i: int)
    requires
        increasing(entries),
        0 <= i < entries.len(),
    ensures
        map_of(entries).contains_key(entries[i].0@),
        map_of(entries)[entries[i].0@] == entries[i].1@,
        place_of(entries, entries[i].0@) == i,
{
    let k = entries[i].0@;
    assert(has_key(entries, k));
    lemma_unique(entries, place_of(entries, k), i);
}

/// A map has as many keys as its list has entries.
proof fn lemma_map_len<V: View>(entries: Seq<(String, V)>)
    requires
        increasing(entries),
    ensures
        map_of(entries).dom().finite(),
        map_of(entries).dom().len() == entries.len(),
{
    let keys = entries.map_values(|e: (String, V)| e.0@);
    assert(keys.no_duplicates()) by {
        assert forall|i: int, j: int|
            0 <= i < keys.len() && 0 <= j < keys.len() && i != j implies keys[i] != keys[j] by {
            if keys[i] == keys[j] {
                lemma_unique(entries, i, j);
            }
        }
    }
    keys.unique_seq_to_set();
    assert(map_of(entries).dom() =~= keys.to_set()) by {
        assert forall|k: Seq<char>| #[trigger] map_of(entries).dom().contains(k) implies keys.to_set().contains(k) by {
            let i = choose|i: int| 0 <= i < entries.len() && (#[trigger] entries[i]).0@ == k;
            assert(keys[i] == k);
        }
        assert forall|k: Seq<char>| #[trigger] keys.to_set().contains(k) implies map_of(entries).dom().contains(k) by {
            let i = choose|i: int| 0 <= i < keys.len() && keys[i] == k;
            assert(entries[i].0@ == k);
        }
    }
}

impl<V: View> View for TextMap<V> {
    type V = Map<Seq<char>, V::V>;

    closed spec fn view(&self) -> Map<Seq<char>, V::V> {
        map_of(self.entries@)
    }
}

impl<V> TextMap<V> {
    #[verifier::type_invariant]
    spec fn sorted(&self) -> bool {
        increasing(self.entries@)
    }
}

impl<V: View> TextMap<V> {
    /// The entries in the order of their keys.
    pub closed spec fn list(&self) -> Seq<(String, V)> {
        self.entries@
    }

    pub fn new() -> (r: Self)
        ensures
            r@ == Map::<Seq<char>, V::V>::empty(),
    {
        let r = TextMap { entries: Vec::new() };
        assert(r@ =~= Map::<Seq<char>, V::V>::empty());
        r
    }

    /// The number of keys.
    pub fn len(&self) -> (r: usize)
        ensures
            self@.dom().finite(),
            r == self@.dom().len(),
    {
        proof {
            use_type_invariant(self);
            lemma_map_len(self.entries@);
        }
        self.entries.len()
    }

    /// The entries in the order of their keys.
    pub fn entries(&self) -> (r: &Vec<(String, V)>)
        ensures
            r@ == self.list(),
            increasing(r@),
            self@ == map_of(r@),
    {
        proof {
            use_type_invariant(self);
        }
        &self.entries
    }

    /// The position of the first key that is not below `key`.
    fn seek(&self, key: &str) -> (r: usize)
        ensures
            r <= self.entries@.len(),
            forall|i: int| 0 <= i < r ==> text_lt((#[trigger] self.entries@[i]).0@, key@),
            forall|i: int|
                r <= i < self.entries@.len() ==> !text_lt((#[trigger] self.entries@[i]).0@, key@),
    {
        proof {
            use_type_invariant(self);
        }
        let mut low: usize = 0;
        let mut high: usize = self.entries.len();
        while low < high
            invariant
                low <= high <= self.entries@.len(),
                increasing(self.entries@),
                forall|i: int| 0 <= i < low ==> text_lt((#[trigger] self.entries@[i]).0@, key@),
                forall|i: int|
                    high <= i < self.entries@.len() ==> !text_lt((#[trigger] self.entries@[i]).0@, key@),
            decreases high - low,
        {
            let mid: usize = low + (high - low) / 2;
            let ghost m = self.entries@[mid as int].0@;
            if matches!(compare_text(&self.entries[mid].0, key), Order::Less) {
                proof {
                    assert forall|i: int| 0 <= i < mid + 1 implies text_lt(
                        (#[trigger] self.entries@[i]).0@,
                        key@,
                    ) by {
                        if i < mid {
                            lemma_ranked_transitive(self.entries@[i].0@, m, key@, false);
                        }
                    }
                }
                low = mid + 1;
            } else {
                proof {
                    assert forall|i: int| mid <= i < self.entries@.len() implies !text_lt(
                        (#[trigger] self.entries@[i]).0@,
                        key@,
                    ) by {
                        if mid < i && text_lt(self.entries@[i].0@, key@) {
                            lemma_ranked_transitive(m, self.entries@[i].0@, key@, false);
                        }
                    }
                }
                high = mid;
            }
        }
        low
    }

    /// The value under `key`.
    pub fn get(&self, key: &str) -> (r: Option<&V>)
        ensures
            match r {
                Some(v) => self@.contains_key(key@) && self@[key@] == v@,
                None => !self@.contains_key(key@),
            },
    {
        proof {
            use_type_invariant(self);
        }
        let i = self.seek(key);
        if i < self.entries.len() && matches!(compare_text(&self.entries[i].0, key), Order::Equal) {
            proof {
                lemma_ranked_total(self.entries@[i as int].0@, key@, false);
                lemma_entry(self.entries@, i as int);
            }
            Some(&self.entries[i].1)
        } else {
            proof {
                lemma_absent(self.entries@, key@, i as int);
            }
            None
        }
    }

    /// Whether `key` is in the map.
    pub fn contains_key(&self, key: &str) -> (r: bool)
        ensures
            r == self@.contains_key(key@),
    {
        self.get(key).is_some()
    }

    /// Puts a value under `key` and gives back what was there.
    pub fn insert(&mut self, key: &str, value: V) -> (r: Option<V>)
        ensures
            final(self)@ == old(self)@.insert(key@, value@),
            match r {
                Some(v) => old(self)@.contains_key(key@) && old(self)@[key@] == v@,
                None => !old(self)@.contains_key(key@),
            },
    {
        proof {
            use_type_invariant(&*self);
        }
        let ghost before = self.entries@;
        let i = self.seek(key);
        if i < self.entries.len() && matches!(compare_text(&self.entries[i].0, key), Order::Equal) {
            proof {
                lemma_ranked_total(before[i as int].0@, key@, false);
                lemma_entry(before, i as int);
            }
            let mut taken = value;
            let mut entries: Vec<(String, V)> = Vec::new();
            std::mem::swap(&mut self.entries, &mut entries);
            std::mem::swap(&mut entries[i].1, &mut taken);
            proof {
                lemma_updated(before, entries@, i as int, value);
            }
            std::mem::swap(&mut self.entries, &mut entries);
            Some(taken)
        } else {
            proof {
                lemma_absent(before, key@, i as int);
            }
            let entry = (key.to_string(), value);
            proof {
                lemma_inserted(before, entry, i as int);
            }
            let mut entries: Vec<(String, V)> = Vec::new();
            std::mem::swap(&mut self.entries, &mut entries);
            entries.insert(i, entry);
            std::mem::swap(&mut self.entries, &mut entries);
            None
        }
    }

    /// Takes `key` out and gives back what was under it.
    pub fn remove(&mut self, key: &str) -> (r: Option<V>)
        ensures
            final(self)@ == old(self)@.remove(key@),
            match r {
                Some(v) => old(self)@.contains_key(key@) && old(self)@[key@] == v@,
                None => !old(self)@.contains_key(key@),
            },
    {
        proof {
            use_type_invariant(&*self);
        }
        let ghost before = self.entries@;
        let i = self.seek(key);
        if i < self.entries.len() && matches!(compare_text(&self.entries[i].0, key), Order::Equal) {
            proof {
                lemma_ranked_total(before[i as int].0@, key@, false);
                lemma_entry(before, i as int);
                lemma_removed(before, i as int);
            }
            let mut entries: Vec<(String, V)> = Vec::new();
            std::mem::swap(&mut self.entries, &mut entries);
            let entry = entries.remove(i);
            std::mem::swap(&mut self.entries, &mut entries);
            Some(entry.1)
        } else {
            proof {
                lemma_absent(before, key@, i as int);
                assert(old(self)@.remove(key@) =~= old(self)@);
            }
            None
        }
    }
}

proof fn lemma_absent<V: View>(entries: Seq<(String, V)>, key: Seq<char>, at: int)
    requires
        increasing(entries),
        0 <= at <= entries.len(),
        forall|i: int| 0 <= i < at ==> text_lt((#[trigger] entries[i]).0@, key),
        forall|i: int| at <= i < entries.len() ==> !text_lt((#[trigger] entries[i]).0@, key),
        at < entries.len() ==> entries[at].0@ != key,
    ensures
        !has_key(entries, key),
        forall|i: int| at <= i < entries.len() ==> text_lt(key, (#[trigger] entries[i]).0@),
{
    assert forall|i: int| 0 <= i < entries.len() implies (#[trigger] entries[i]).0@ != key && (at
        <= i ==> text_lt(key, entries[i].0@)) by {
        lemma_ranked_total(entries[i].0@, key, false);
        if at < i {
            assert(text_lt(entries[at].0@, entries[i].0@));
            assert(entries[at].0@ != key);
            lemma_ranked_total(entries[at].0@, key, false);
            lemma_ranked_transitive(key, entries[at].0@, entries[i].0@, false);
            lemma_ranked_total(key, entries[i].0@, false);
        }
    }
}

proof fn lemma_updated<V: View>(
    before: Seq<(String, V)>,
    after: Seq<(String, V)>,
    at: int,
    value: V,
)
    requires
        increasing(before),
        0 <= at < before.len(),
        after == before.update(at, (before[at].0, value)),
    ensures
        increasing(after),
        map_of(after) == map_of(before).insert(before[at].0@, value@),
{
    assert forall|i: int, j: int| 0 <= i < j < after.len() implies text_lt(
        (#[trigger] after[i]).0@,
        (#[trigger] after[j]).0@,
    ) by {
        assert(text_lt(before[i].0@, before[j].0@));
    }
    let key = before[at].0@;
    assert forall|k: Seq<char>| has_key(after, k) == has_key(before, k) by {
        if has_key(after, k) {
            let i = place_of(after, k);
            assert(before[i].0@ == k);
        }
        if has_key(before, k) {
            let i = place_of(before, k);
            assert(after[i].0@ == k);
        }
    }
    assert forall|k: Seq<char>| has_key(before, k) implies #[trigger] map_of(after)[k] == map_of(
        before,
    ).insert(key, value@)[k] by {
        let i = place_of(before, k);
        assert(after[i].0@ == k);
        lemma_entry(after, i);
        lemma_entry(before, i);
        lemma_entry(before, at);
        if k == key {
            lemma_unique(before, i, at);
        }
    }
    assert(has_key(before, key));
    assert(map_of(after) =~= map_of(before).insert(key, value@));
}

proof fn lemma_inserted<V: View>(before: Seq<(String, V)>, entry: (String, V), at: int)
    requires
        increasing(before),
        0 <= at <= before.len(),
        forall|i: int| 0 <= i < at ==> text_lt((#[trigger] before[i]).0@, entry.0@),
        forall|i: int| at <= i < before.len() ==> text_lt(entry.0@, (#[trigger] before[i]).0@),
        !has_key(before, entry.0@),
    ensures
        increasing(before.insert(at, entry)),
        map_of(before.insert(at, entry)) == map_of(before).insert(entry.0@, entry.1@),
{
    let after = before.insert(at, entry);
    let key = entry.0@;
    assert forall|i: int, j: int| 0 <= i < j < after.len() implies text_lt(
        (#[trigger] after[i]).0@,
        (#[trigger] after[j]).0@,
    ) by {
        let i0 = if i < at {
            i
        } else {
            i - 1
        };
        let j0 = if j < at {
            j
        } else {
            j - 1
        };
        if i == at {
            assert(text_lt(key, before[j0].0@));
        } else if j == at {
            assert(text_lt(before[i0].0@, key));
        } else {
            assert(text_lt(before[i0].0@, before[j0].0@));
        }
    }
    assert(after[at] == entry);
    assert forall|k: Seq<char>| has_key(after, k) == (has_key(before, k) || k == key) by {
        if has_key(after, k) && k != key {
            let i = place_of(after, k);
            let i0 = if i < at {
                i
            } else {
                i - 1
            };
            assert(before[i0].0@ == k);
        }
        if has_key(before, k) {
            let i = place_of(before, k);
            let i1 = if i < at {
                i
            } else {
                i + 1
            };
            assert(after[i1].0@ == k);
        }
    }
    assert forall|k: Seq<char>| has_key(after, k) implies #[trigger] map_of(after)[k] == map_of(
        before,
    ).insert(key, entry.1@)[k] by {
        if k == key {
            lemma_entry(after, at);
        } else {
            let i = place_of(before, k);
            let i1 = if i < at {
                i
            } else {
                i + 1
            };
            assert(after[i1] == before[i]);
            lemma_entry(after, i1);
            lemma_entry(before, i);
        }
    }
    assert(map_of(after) =~= map_of(before).insert(key, entry.1@));
}

proof fn lemma_removed<V: View>(before: Seq<(String, V)>, at: int)
    requires
        increasing(before),
        0 <= at < before.len(),
    ensures
        increasing(before.remove(at)),
        map_of(before.remove(at)) == map_of(before).remove(before[at].0@),
{
    let after = before.remove(at);
    let key = before[at].0@;
    assert forall|i: int, j: int| 0 <= i < j < after.len() implies text_lt(
        (#[trigger] after[i]).0@,
        (#[trigger] after[j]).0@,
    ) by {
        let i1 = if i < at {
            i
        } else {
            i + 1
        };
        let j1 = if j < at {
            j
        } else {
            j + 1
        };
        assert(text_lt(before[i1].0@, before[j1].0@));
    }
    assert forall|k: Seq<char>| has_key(after, k) == (has_key(before, k) && k != key) by {
        if has_key(after, k) {
            let i = place_of(after, k);
            let i1 = if i < at {
                i
            } else {
                i + 1
            };
            assert(before[i1].0@ == k);
            if k == key {
                lemma_unique(before, i1, at);
            }
        }
        if has_key(before, k) && k != key {
            let i = place_of(before, k);
            let i0 = if i < at {
                i
            } else {
                i - 1
            };
            assert(after[i0].0@ == k);
        }
    }
    assert forall|k: Seq<char>| has_key(after, k) implies #[trigger] map_of(after)[k] == map_of(
        before,
    )[k] by {
        let i = place_of(before, k);
        let i0 = if i < at {
            i
        } else {
            i - 1
        };
        assert(after[i0] == before[i]);
        lemma_entry(after, i0);
        lemma_entry(before, i);
    }
    assert(map_of(after) =~= map_of(before).remove(key));
}

} // verus!
