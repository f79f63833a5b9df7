//! What an index lists and serves, stated on the values in its files.

use vstd::prelude::*;

use crate::filter::{FilterView, OpView};
use crate::filter_laws::pattern_of;
use crate::index::{
    add_keys, built, candidate, candidate_for_all, changed, changed_paths, drop_paths, fresh,
    item_keys, paths_at, records_map, serviceable, some_serviceable, value_keys, without,
    FieldsView, IndexView, IndexedView, Signature, Stamp,
};
use crate::index_laws::{
    entries_carry, entry_of, held_at, law_build_describes_files, lemma_stock_of, listed, stock_of,
    stocked,
};
use crate::key::{key_of, lemma_kind_bounds};
use crate::query::lists_candidates;
use crate::record::RecordErrorView;
use crate::text_laws::{comes_before, hex_number, law_texts_compare_like_a_dictionary};
use crate::value::{NumberView, ValueView};
use crate::value_laws::{carries, lemma_carries, lemma_core};

verus! {

/// The keys of single values: a letter for the kind, and then the text, the digit of the
/// truth value, or sixteen digits for a number; other values have none.
pub proof fn law_keys_of_values(v: ValueView)
    ensures
        forall|s: Seq<char>| #[trigger]
            carries(v, ValueView::String(s)) ==> key_of(v) == Some(seq!['s'] + s),
        carries(v, ValueView::Bool(true)) ==> key_of(v) == Some(seq!['b', '1']),
        carries(v, ValueView::Bool(false)) ==> key_of(v) == Some(seq!['b', '0']),
        forall|n: NumberView| #[trigger]
            carries(v, ValueView::Number(n)) ==> (key_of(v) matches Some(k) && k.len() == 17 && k[0]
                == 'n'),
        carries(v, ValueView::Null) ==> key_of(v) is None,
        forall|items: Seq<ValueView>| #[trigger]
            carries(v, ValueView::Sequence(items)) ==> key_of(v) is None,
        forall|entries: Seq<(ValueView, ValueView)>| #[trigger]
            carries(v, ValueView::Mapping(entries)) ==> key_of(v) is None,
{
    reveal_strlit("s");
    reveal_strlit("n");
    reveal_strlit("b");
    reveal_strlit("1");
    reveal_strlit("0");
    assert("s"@ =~= seq!['s']);
    assert("b"@ + "1"@ =~= seq!['b', '1']);
    assert("b"@ + "0"@ =~= seq!['b', '0']);
    lemma_carries(v, ValueView::Bool(true));
    lemma_carries(v, ValueView::Bool(false));
    lemma_carries(v, ValueView::Null);
    assert forall|s: Seq<char>| #[trigger] carries(v, ValueView::String(s)) implies key_of(v)
        == Some(seq!['s'] + s) by {
        lemma_carries(v, ValueView::String(s));
    }
    assert forall|n: NumberView| #[trigger] carries(v, ValueView::Number(n)) implies (key_of(
        v,
    ) matches Some(k) && k.len() == 17 && k[0] == 'n') by {
        lemma_carries(v, ValueView::Number(n));
        crate::key::lemma_hex_len(crate::key::place(n.double()), 16);
    }
    assert forall|items: Seq<ValueView>| #[trigger]
        carries(v, ValueView::Sequence(items)) implies key_of(v) is None by {
        lemma_carries(v, ValueView::Sequence(items));
    }
    assert forall|entries: Seq<(ValueView, ValueView)>| #[trigger]
        carries(v, ValueView::Mapping(entries)) implies key_of(v) is None by {
        lemma_carries(v, ValueView::Mapping(entries));
    }
}

proof fn lemma_hex_fixed(n: nat, width: nat)
    requires
        n < crate::key::hex_bound(width),
    ensures
        hex_number(crate::key::hex_fixed(n, width)) == n,
        crate::key::hex_fixed(n, width).len() == width,
    decreases width,
{
    if width > 0 {
        let s = crate::key::hex_fixed(n, width);
        lemma_hex_fixed(n / 16, (width - 1) as nat);
        assert(s.drop_last() =~= crate::key::hex_fixed(n / 16, (width - 1) as nat));
    }
}

/// The digits of a number's key are the place of its double in the order of all doubles:
/// patterns without sign come in their order behind those with a sign, which come in the
/// opposite order; both zeros have one place.
pub proof fn law_keys_of_numbers(v: ValueView, n: NumberView)
    requires
        carries(v, ValueView::Number(n)),
    ensures
        key_of(v) matches Some(k) && k[0] == 'n' && hex_number(k.skip(1)) == (if pattern_of(n)
            == 0x8000_0000_0000_0000 {
            0x8000_0000_0000_0000int
        } else if pattern_of(n) < 0x8000_0000_0000_0000 {
            0x8000_0000_0000_0000 + pattern_of(n)
        } else {
            0xffff_ffff_ffff_ffff - pattern_of(n)
        }),
{
    reveal_strlit("n");
    lemma_carries(v, ValueView::Number(n));
    let place = crate::key::place(n.double());
    let digits = crate::key::hex_fixed(place, 16);
    crate::key::lemma_place_bound(n.double());
    lemma_hex_fixed(place, 16);
    let k = key_of(v)->Some_0;
    assert(k.skip(1) =~= digits);
}

/// A value has a key: its own, or one of its items' where it is a sequence.
pub open spec fn has_index_key(v: ValueView, key: Seq<char>) -> bool {
    ||| key_of(v) == Some(key)
    ||| exists|items: Seq<ValueView>, i: int|
        #![trigger carries(v, ValueView::Sequence(items)), items[i]]
        carries(v, ValueView::Sequence(items)) && 0 <= i < items.len() && key_of(items[i]) == Some(
            key,
        )
}

proof fn lemma_item_keys(items: Seq<ValueView>, key: Seq<char>)
    ensures
        item_keys(items).contains(key) <==> exists|i: int|
            0 <= i < items.len() && key_of(#[trigger] items[i]) == Some(key),
    decreases items.len(),
{
    let all = item_keys(items);
    if items.len() > 0 {
        let front = items.drop_last();
        let before = item_keys(front);
        lemma_item_keys(front, key);
        if all.contains(key) {
            let k = choose|k: int| 0 <= k < all.len() && all[k] == key;
            if k < before.len() {
                assert(before[k] == key);
                assert(before.contains(key));
                let i = choose|i: int| 0 <= i < front.len() && key_of(#[trigger] front[i]) == Some(key);
                assert(key_of(items[i]) == Some(key));
            } else {
                assert(key_of(items[items.len() - 1]) == Some(key));
            }
        }
        if exists|i: int| 0 <= i < items.len() && key_of(#[trigger] items[i]) == Some(key) {
            let i = choose|i: int| 0 <= i < items.len() && key_of(#[trigger] items[i]) == Some(key);
            if i < front.len() {
                assert(key_of(front[i]) == Some(key));
                assert(before.contains(key));
                let k = choose|k: int| 0 <= k < before.len() && before[k] == key;
                assert(all[k] == key);
            } else {
                assert(all[all.len() - 1] == key);
            }
        }
    }
}

proof fn lemma_value_keys(v: ValueView, key: Seq<char>)
    ensures
        value_keys(v).contains(key) <==> has_index_key(v, key),
{
    lemma_core(v);
    let keys = value_keys(v);
    if let ValueView::Sequence(items) = v.untagged() {
        lemma_item_keys(items, key);
        assert(carries(v, ValueView::Sequence(items)));
        if keys.contains(key) {
            let i = choose|i: int| 0 <= i < items.len() && key_of(#[trigger] items[i]) == Some(key);
            assert(key_of(items[i]) == Some(key));
        }
    } else {
        if key_of(v) is Some {
            assert(keys[0] == key_of(v)->Some_0);
        }
    }
    if exists|items: Seq<ValueView>, i: int|
        #![trigger carries(v, ValueView::Sequence(items)), items[i]]
        carries(v, ValueView::Sequence(items)) && 0 <= i < items.len() && key_of(items[i]) == Some(
            key,
        ) {
        let (items, i) = choose|items: Seq<ValueView>, i: int|
            #![trigger carries(v, ValueView::Sequence(items)), items[i]]
            carries(v, ValueView::Sequence(items)) && 0 <= i < items.len() && key_of(items[i])
                == Some(key);
        lemma_carries(v, ValueView::Sequence(items));
        assert(key_of(items[i]) == Some(key));
    }
}

/// The frontmatter is a mapping with an entry for the field whose value has the key.
pub open spec fn holds_key(frontmatter: ValueView, field: Seq<char>, key: Seq<char>) -> bool {
    exists|entries: Seq<(ValueView, ValueView)>, i: int|
        #![trigger carries(frontmatter, ValueView::Mapping(entries)), entries[i]]
        carries(frontmatter, ValueView::Mapping(entries)) && 0 <= i < entries.len() && carries(
            entries[i].0,
            ValueView::String(field),
        ) && has_index_key(entries[i].1, key)
}

proof fn lemma_holds_key(frontmatter: ValueView, field: Seq<char>, key: Seq<char>)
    ensures
        crate::index_laws::carries(frontmatter, field, key) <==> holds_key(frontmatter, field, key),
{
    lemma_core(frontmatter);
    if let ValueView::Mapping(entries) = frontmatter.untagged() {
        assert(carries(frontmatter, ValueView::Mapping(entries)));
        if entries_carry(entries, field, key) {
            let i = choose|i: int|
                0 <= i < entries.len() && (#[trigger] entries[i]).0.as_str() == Some(field)
                    && value_keys(entries[i].1).contains(key);
            lemma_carries(entries[i].0, ValueView::String(field));
            lemma_value_keys(entries[i].1, key);
            assert(holds_key(frontmatter, field, key));
        }
    }
    if holds_key(frontmatter, field, key) {
        let (entries, i) = choose|entries: Seq<(ValueView, ValueView)>, i: int|
            #![trigger carries(frontmatter, ValueView::Mapping(entries)), entries[i]]
            carries(frontmatter, ValueView::Mapping(entries)) && 0 <= i < entries.len() && carries(
                entries[i].0,
                ValueView::String(field),
            ) && has_index_key(entries[i].1, key);
        lemma_carries(frontmatter, ValueView::Mapping(entries));
        lemma_carries(entries[i].0, ValueView::String(field));
        lemma_value_keys(entries[i].1, key);
        assert(entries[i].0.as_str() == Some(field));
    }
}

/// An index that was built from files with different paths lists a path under a field
/// and a key exactly where a file with that path and a signature holds the key in the
/// field, and has exactly the signatures of those files.
pub proof fn law_built_indexes_list_what_files_hold(
    files: Seq<IndexedView>,
    ix: IndexView,
    field: Seq<char>,
    key: Seq<char>,
    path: Seq<char>,
)
    requires
        changed_paths(files).no_duplicates(),
        built(files) == Ok::<IndexView, crate::record::RecordErrorView>(ix),
    ensures
        listed(ix.fields, field, key, path) <==> exists|i: int|
            0 <= i < files.len() && (#[trigger] files[i]).file.path == path
                && files[i].signature is Some && (files[i].file.record() matches Ok(r) && holds_key(
                r.frontmatter(),
                field,
                key,
            )),
        ix.records.contains_key(path) <==> exists|i: int|
            0 <= i < files.len() && (#[trigger] files[i]).file.path == path
                && files[i].signature is Some && files[i].file.record() is Ok,
        forall|i: int|
            0 <= i < files.len() && (#[trigger] files[i]).file.path == path
                && files[i].signature is Some && files[i].file.record() is Ok ==> ix.records[path]
                == files[i].signature->Some_0,
{
    law_build_describes_files(files);
    lemma_stock_of(files);
    let stock = stock_of(files);
    assert(listed(ix.fields, field, key, path) <==> stocked(stock, field, key, path));
    if stock.contains_key(path) {
        crate::index_laws::lemma_stock_paths(files, path);
        let paths = changed_paths(files);
        let k = choose|k: int| 0 <= k < paths.len() && paths[k] == path;
        assert(files[k].file.path == path);
        assert(held_at(stock, files[k].file.path) == entry_of(files[k]));
        lemma_holds_key(stock[path].1, field, key);
        assert(ix.records.contains_key(path));
        assert(files[k].signature is Some && files[k].file.record() is Ok);
        assert forall|i: int|
            0 <= i < files.len() && (#[trigger] files[i]).file.path == path implies i == k by {
            assert(paths[i] == paths[k]);
        }
    } else {
        assert forall|i: int|
            0 <= i < files.len() && (#[trigger] files[i]).file.path == path implies !(
        files[i].signature is Some && files[i].file.record() is Ok) by {
            assert(held_at(stock, files[i].file.path) == entry_of(files[i]));
        }
        assert(!ix.records.contains_key(path));
    }
}

/// The candidates of an index for a filter that it serves: for `eq` and `contains` the
/// paths listed under the key; for the comparisons those listed under a key of the same
/// kind that does not come before, or not behind, the key of the target.
pub proof fn law_candidates_are_what_is_listed(
    ix: IndexView,
    field: Seq<char>,
    t: ValueView,
    key: Seq<char>,
    path: Seq<char>,
)
    requires
        ix.fields.contains_key(field),
        key_of(t) == Some(key),
        forall|k: Seq<char>| #[trigger] ix.fields[field].contains_key(k) ==> k.len() > 0,
    ensures
        candidate(ix, FilterView { field, op: OpView::Eq(t) }, path) <==> listed(
            ix.fields,
            field,
            key,
            path,
        ),
        candidate(ix, FilterView { field, op: OpView::Contains(t) }, path) <==> listed(
            ix.fields,
            field,
            key,
            path,
        ),
        candidate(ix, FilterView { field, op: OpView::Ge(t) }, path) <==> exists|k: Seq<char>|
         #[trigger]
            listed(ix.fields, field, k, path) && k[0] == key[0] && !comes_before(k, key, false),
        candidate(ix, FilterView { field, op: OpView::Gt(t) }, path) <==> candidate(
            ix,
            FilterView { field, op: OpView::Ge(t) },
            path,
        ),
        candidate(ix, FilterView { field, op: OpView::Le(t) }, path) <==> exists|k: Seq<char>|
         #[trigger]
            listed(ix.fields, field, k, path) && k[0] == key[0] && !comes_before(key, k, false),
        candidate(ix, FilterView { field, op: OpView::Lt(t) }, path) <==> candidate(
            ix,
            FilterView { field, op: OpView::Le(t) },
            path,
        ),
{
    let buckets = ix.fields[field];
    crate::index::lemma_key_letter(t);
    let up = FilterView { field, op: OpView::Ge(t) };
    let down = FilterView { field, op: OpView::Le(t) };
    assert forall|k: Seq<char>| #[trigger] buckets.contains_key(k) implies (
    crate::index::in_range(k, key, crate::key::kind_end(key), false) <==> k[0] == key[0]
        && !comes_before(k, key, false)) && (crate::index::in_range(k, seq![key[0]], key, true)
        <==> k[0] == key[0] && !comes_before(key, k, false)) by {
        lemma_kind_bounds(key, k);
        law_texts_compare_like_a_dictionary(k, key);
        lemma_kind_ends(key, k);
    }
    assert forall|k: Seq<char>| #[trigger] listed(ix.fields, field, k, path) <==> buckets.contains_key(
        k,
    ) && buckets[k].contains(path) by {}
    if candidate(ix, up, path) {
        let k = choose|k: Seq<char>| #[trigger]
            buckets.contains_key(k) && crate::index::in_range(
                k,
                key,
                crate::key::kind_end(key),
                false,
            ) && buckets[k].contains(path);
        assert(listed(ix.fields, field, k, path));
    }
    if exists|k: Seq<char>| #[trigger]
        listed(ix.fields, field, k, path) && k[0] == key[0] && !comes_before(k, key, false) {
        let k = choose|k: Seq<char>| #[trigger]
            listed(ix.fields, field, k, path) && k[0] == key[0] && !comes_before(k, key, false);
        assert(buckets.contains_key(k));
    }
    if candidate(ix, down, path) {
        let k = choose|k: Seq<char>| #[trigger]
            buckets.contains_key(k) && crate::index::in_range(k, seq![key[0]], key, true)
                && buckets[k].contains(path);
        assert(listed(ix.fields, field, k, path));
    }
    if exists|k: Seq<char>| #[trigger]
        listed(ix.fields, field, k, path) && k[0] == key[0] && !comes_before(key, k, false) {
        let k = choose|k: Seq<char>| #[trigger]
            listed(ix.fields, field, k, path) && k[0] == key[0] && !comes_before(key, k, false);
        assert(buckets.contains_key(k));
    }
}

/// A text between the letter of a kind and a key of that kind begins with the letter.
proof fn lemma_kind_ends(key: Seq<char>, k: Seq<char>)
    requires
        key.len() > 0,
        k.len() > 0,
        key[0] == 'b' || key[0] == 'n' || key[0] == 's',
    ensures
        !(crate::text::text_order(k, seq![key[0]]) is Less) && !comes_before(key, k, false)
            ==> k[0] == key[0],
        k[0] == key[0] ==> !(crate::text::text_order(k, seq![key[0]]) is Less),
        !comes_before(k, key, false) && crate::text::text_order(k, crate::key::kind_end(key)) is Less
            ==> k[0] == key[0],
        k[0] == key[0] ==> crate::text::text_order(k, crate::key::kind_end(key)) is Less,
{
    lemma_kind_bounds(key, k);
    let letter = seq![key[0]];
    law_texts_compare_like_a_dictionary(k, letter);
    if k[0] != key[0] {
        let none = Seq::<char>::empty();
        assert(k.take(0) =~= none && key.take(0) =~= none && letter.take(0) =~= none);
        if (k[0] as u32) < (key[0] as u32) {
            assert(crate::text_laws::parts_below(k, letter, 0, false));
            assert(crate::text_laws::parts_below(k, key, 0, false));
        } else {
            assert(crate::text_laws::parts_below(key, k, 0, false));
        }
    }
}

/// An index is fresh exactly where it has a signature for each of the files and no
/// other, and each is the file's present one.
pub proof fn law_fresh_means_the_same_signatures(
    records: Map<Seq<char>, Signature>,
    current: Seq<Stamp>,
)
    requires
        records.dom().finite(),
        current.map_values(|s: Stamp| s.0@).no_duplicates(),
    ensures
        fresh(records, current) <==> {
            &&& forall|i: int|
                0 <= i < current.len() ==> (#[trigger] current[i]).1 is Some
                    && records.contains_key(current[i].0@) && records[current[i].0@]
                    == current[i].1->Some_0
            &&& forall|path: Seq<char>| #[trigger]
                records.contains_key(path) ==> exists|i: int|
                    0 <= i < current.len() && (#[trigger] current[i]).0@ == path
        },
{
    let paths = current.map_values(|s: Stamp| s.0@);
    crate::index_laws::law_fresh_iff_unchanged(records, current);
    if fresh(records, current) {
        assert forall|path: Seq<char>| #[trigger] records.contains_key(path) implies exists|i: int|
            0 <= i < current.len() && (#[trigger] current[i]).0@ == path by {
            assert(records.dom().contains(path));
            assert(paths.to_set().contains(path));
            assert(paths.contains(path));
            let i = choose|i: int| 0 <= i < paths.len() && paths[i] == path;
            assert(current[i].0@ == path);
        }
        assert forall|i: int| 0 <= i < current.len() implies (#[trigger] current[i]).1 is Some
            && records.contains_key(current[i].0@) && records[current[i].0@]
            == current[i].1->Some_0 by {
            assert(crate::index::stamp_matches(records, current[i]));
        }
    }
    if (forall|i: int|
        0 <= i < current.len() ==> (#[trigger] current[i]).1 is Some && records.contains_key(
            current[i].0@,
        ) && records[current[i].0@] == current[i].1->Some_0) && (forall|path: Seq<char>| #[trigger]
        records.contains_key(path) ==> exists|i: int|
            0 <= i < current.len() && (#[trigger] current[i]).0@ == path) {
        assert forall|i: int| 0 <= i < current.len() implies crate::index::stamp_matches(
            records,
            #[trigger] current[i],
        ) by {}
        assert(records.dom() =~= paths.to_set()) by {
            assert forall|p: Seq<char>| records.dom().contains(p) implies paths.to_set().contains(p) by {
                assert(records.contains_key(p));
                let i = choose|i: int| 0 <= i < current.len() && (#[trigger] current[i]).0@ == p;
                assert(paths[i] == p);
                assert(paths.contains(p));
            }
            assert forall|p: Seq<char>| paths.to_set().contains(p) implies records.dom().contains(p) by {
                assert(paths.contains(p));
                let i = choose|i: int| 0 <= i < paths.len() && paths[i] == p;
                assert(current[i].0@ == p);
                assert(crate::index::stamp_matches(records, current[i]));
            }
        }
    }
}

/// A path is added behind those that are listed under a key already; taking paths away
/// leaves the others in their order, under the keys and fields that there were.
pub proof fn law_postings_keep_their_order(
    buckets: Map<Seq<char>, Seq<Seq<char>>>,
    keys: Seq<Seq<char>>,
    key: Seq<char>,
    other: Seq<char>,
    path: Seq<char>,
    paths: Seq<Seq<char>>,
    gone: Seq<Seq<char>>,
    fields: FieldsView,
)
    ensures
        add_keys(buckets, Seq::empty(), path) == buckets,
        ({
            let before = add_keys(buckets, keys, path);
            let after = add_keys(buckets, keys.push(key), path);
            &&& paths_at(after, key) == paths_at(before, key).push(path)
            &&& other != key ==> paths_at(after, other) == paths_at(before, other)
        }),
        without(Seq::empty(), gone) == Seq::<Seq<char>>::empty(),
        without(paths.push(path), gone) == if gone.contains(path) {
            without(paths, gone)
        } else {
            without(paths, gone).push(path)
        },
        drop_paths(fields, gone).dom() == fields.dom(),
        fields.contains_key(other) ==> drop_paths(fields, gone)[other].dom() == fields[other].dom(),
        fields.contains_key(other) && fields[other].contains_key(key) ==> drop_paths(
            fields,
            gone,
        )[other][key] == without(fields[other][key], gone),
{
    assert(keys.push(key).drop_last() =~= keys);
    assert(paths.push(path).drop_last() =~= paths);
    assert(drop_paths(fields, gone).dom() =~= fields.dom());
    if fields.contains_key(other) {
        assert(drop_paths(fields, gone)[other].dom() =~= fields[other].dom());
    }
}

/// An index is built file by file: a file without a signature counts for nothing, and the
/// first one that is no record is the error.
pub proof fn law_building_stops_at_errors(files: Seq<IndexedView>, f: IndexedView)
    ensures
        built(Seq::empty()) matches Ok(ix) && ix.records =~= Map::empty() && ix.fields
            =~= Map::empty(),
        built(files) matches Err(e) ==> built(files.push(f)) == Err::<IndexView, RecordErrorView>(e),
        built(files) matches Ok(ix) ==> {
            &&& f.signature is None ==> built(files.push(f)) == Ok::<IndexView, RecordErrorView>(ix)
            &&& f.signature is Some && f.file.record() is Err ==> built(files.push(f)) == Err::<
                IndexView,
                RecordErrorView,
            >(f.file.record()->Err_0)
            &&& f.signature is Some && f.file.record() is Ok ==> built(files.push(f)) is Ok
        },
{
    assert(files.push(f).drop_last() =~= files);
}

/// Bringing an index up to date stops at the first file that is no record: that one is
/// then in the index no more, and later ones are not looked at.
pub proof fn law_reconciling_stops_at_errors(
    ix: IndexView,
    files: Seq<IndexedView>,
    f: IndexedView,
)
    ensures
        changed(ix, Seq::empty()) == (ix, None::<RecordErrorView>),
        ({
            let (before, error) = changed(ix, files);
            let (after, now) = changed(ix, files.push(f));
            &&& error is Some ==> after == before && now == error
            &&& error is None && f.signature is None ==> now is None && after.fields
                == before.fields && after.records == before.records.remove(f.file.path)
            &&& error is None && f.signature is Some && f.file.record() is Err ==> now == Some(
                f.file.record()->Err_0,
            ) && after.fields == before.fields && after.records == before.records.remove(f.file.path)
            &&& error is None && f.signature is Some && f.file.record() is Ok ==> now is None
                && after.records.contains_key(f.file.path) && after.records[f.file.path]
                == f.signature->Some_0
        }),
{
    assert(files.push(f).drop_last() =~= files);
}

/// The candidates are listed in the order of their texts, each once, and are those that
/// every filter the index serves leaves.
pub proof fn law_lists_of_candidates(
    paths: Seq<Seq<char>>,
    ix: IndexView,
    filters: Seq<FilterView>,
    f: FilterView,
    path: Seq<char>,
)
    ensures
        lists_candidates(paths, ix, filters) ==> {
            &&& forall|i: int, j: int|
                0 <= i < j < paths.len() ==> comes_before(
                    #[trigger] paths[i],
                    #[trigger] paths[j],
                    false,
                )
            &&& paths.contains(path) <==> candidate_for_all(ix, filters, path)
        },
        candidate_for_all(ix, filters.push(f), path) <==> candidate_for_all(ix, filters, path) && (
        serviceable(ix, f) ==> candidate(ix, f, path)),
        candidate_for_all(ix, Seq::empty(), path),
        some_serviceable(ix, filters.push(f)) <==> some_serviceable(ix, filters) || serviceable(
            ix,
            f,
        ),
        !some_serviceable(ix, Seq::empty()),
{
    if lists_candidates(paths, ix, filters) {
        assert forall|i: int, j: int| 0 <= i < j < paths.len() implies comes_before(
            #[trigger] paths[i],
            #[trigger] paths[j],
            false,
        ) by {
            law_texts_compare_like_a_dictionary(paths[i], paths[j]);
        }
    }
    crate::index::lemma_plan_step(ix, filters, f);
}

/// Saved parts are put together entry by entry; a later entry replaces an earlier one for
/// the same path.
pub proof fn law_saved_records(list: Seq<(String, Signature)>, entry: (String, Signature))
    ensures
        records_map(Seq::empty()) =~= Map::empty(),
        records_map(list.push(entry)) == records_map(list).insert(entry.0@, entry.1),
{
    assert(list.push(entry).drop_last() =~= list);
}

} // verus!
