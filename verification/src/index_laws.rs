//! What an index guarantees: it lists exactly the records that hold a key,
//! building and reconciling keep that, and no record that meets a query's filters
//! is missing among its candidates.

use vstd::prelude::*;

use crate::filter::{all_accept, equal_values, some_equal, FilterView, OpView};
use crate::index::{
    add_entries, add_keys, add_record, buckets_at, built, candidate, candidate_for_all, changed,
    changed_paths, drop_paths, empty_index, fresh, item_keys, op_key, paths_at, reconciled,
    serviceable, stamp_matches, value_keys, without, FieldsView, IndexView, IndexedView, Signature,
    Stamp,
};
use crate::key::{key_of, law_equal_values_share_key, law_key_follows_order, lemma_kind_bounds};
use crate::record::RecordView;
use crate::text::lemma_ranked_total;
use crate::value::{lookup_from, ValueView};

verus! {

/// The indexed records: signature and frontmatter by path.
pub type Stock = Map<Seq<char>, (Signature, ValueView)>;

/// Whether some entry holds the key in the field.
pub open spec fn entries_carry(
    entries: Seq<(ValueView, ValueView)>,
    field: Seq<char>,
    key: Seq<char>,
) -> bool {
    exists|i: int|
        0 <= i < entries.len() && (#[trigger] entries[i]).0.as_str() == Some(field) && value_keys(
            entries[i].1,
        ).contains(key)
}

/// Whether some entry is about the field.
pub open spec fn entries_mention(entries: Seq<(ValueView, ValueView)>, field: Seq<char>) -> bool {
    exists|i: int| 0 <= i < entries.len() && (#[trigger] entries[i]).0.as_str() == Some(field)
}

/// Whether a record's frontmatter holds the key in the field.
pub open spec fn carries(frontmatter: ValueView, field: Seq<char>, key: Seq<char>) -> bool {
    match frontmatter.as_mapping() {
        Some(entries) => entries_carry(entries, field, key),
        None => false,
    }
}

/// Whether a record's frontmatter has the field.
pub open spec fn mentions(frontmatter: ValueView, field: Seq<char>) -> bool {
    match frontmatter.as_mapping() {
        Some(entries) => entries_mention(entries, field),
        None => false,
    }
}

/// Whether the postings list a path under a field and a key.
pub open spec fn listed(
    fields: FieldsView,
    field: Seq<char>,
    key: Seq<char>,
    path: Seq<char>,
) -> bool {
    paths_at(buckets_at(fields, field), key).contains(path)
}

/// Whether a record of the stock holds the key in the field.
pub open spec fn stocked(stock: Stock, field: Seq<char>, key: Seq<char>, path: Seq<char>) -> bool {
    stock.contains_key(path) && carries(stock[path].1, field, key)
}

/// The postings list exactly the records that hold each key, and every field that
/// a record has is known.
pub open spec fn postings_agree(fields: FieldsView, stock: Stock) -> bool {
    &&& forall|field: Seq<char>, key: Seq<char>, path: Seq<char>|
        #![trigger listed(fields, field, key, path)]
        listed(fields, field, key, path) <==> stocked(stock, field, key, path)
    &&& forall|field: Seq<char>, path: Seq<char>|
        #![trigger fields.contains_key(field), stock.contains_key(path)]
        stock.contains_key(path) && mentions(stock[path].1, field) ==> fields.contains_key(field)
}

/// The recorded signatures are those of the stock.
pub open spec fn records_agree(records: Map<Seq<char>, Signature>, stock: Stock) -> bool {
    records == stock.map_values(|e: (Signature, ValueView)| e.0)
}

/// The index describes exactly the records of the stock.
pub open spec fn describes(ix: IndexView, stock: Stock) -> bool {
    records_agree(ix.records, stock) && postings_agree(ix.fields, stock)
}

// ---------------------------------------------------------------------------
// Adding and dropping
// ---------------------------------------------------------------------------

proof fn lemma_push_contains(s: Seq<Seq<char>>, x: Seq<char>, y: Seq<char>)
    ensures
        s.push(x).contains(y) <==> s.contains(y) || y == x,
{
    let t = s.push(x);
    assert(t[s.len() as int] == x);
    if s.contains(y) {
        let i = choose|i: int| 0 <= i < s.len() && s[i] == y;
        assert(t[i] == y);
    }
    if t.contains(y) && y != x {
        let i = choose|i: int| 0 <= i < t.len() && t[i] == y;
        assert(s[i] == y);
    }
}

proof fn lemma_add_keys(
    buckets: Map<Seq<char>, Seq<Seq<char>>>,
    keys: Seq<Seq<char>>,
    path: Seq<char>,
    key: Seq<char>,
    p: Seq<char>,
)
    ensures
        paths_at(add_keys(buckets, keys, path), key).contains(p) <==> paths_at(buckets, key).contains(
            p,
        ) || (p == path && keys.contains(key)),
    decreases keys.len(),
{
    if keys.len() > 0 {
        let front = keys.drop_last();
        lemma_add_keys(buckets, front, path, key, p);
        let before = add_keys(buckets, front, path);
        lemma_push_contains(paths_at(before, keys.last()), path, p);
        assert(keys =~= front.push(keys.last()));
        lemma_push_contains(front, keys.last(), key);
    }
}

proof fn lemma_add_entries(
    fields: FieldsView,
    entries: Seq<(ValueView, ValueView)>,
    path: Seq<char>,
    field: Seq<char>,
    key: Seq<char>,
    p: Seq<char>,
)
    ensures
        listed(add_entries(fields, entries, path), field, key, p) <==> listed(fields, field, key, p)
            || (p == path && entries_carry(entries, field, key)),
        add_entries(fields, entries, path).contains_key(field) <==> fields.contains_key(field)
            || entries_mention(entries, field),
    decreases entries.len(),
{
    if entries.len() > 0 {
        let front = entries.drop_last();
        let e = entries.last();
        let n = entries.len() - 1;
        lemma_add_entries(fields, front, path, field, key, p);
        let before = add_entries(fields, front, path);
        if let Some(f) = e.0.as_str() {
            lemma_add_keys(buckets_at(before, f), value_keys(e.1), path, key, p);
        }
        if entries_carry(front, field, key) {
            let i = choose|i: int|
                0 <= i < front.len() && (#[trigger] front[i]).0.as_str() == Some(field) && value_keys(
                    front[i].1,
                ).contains(key);
            assert(entries[i] == front[i]);
        }
        if entries_carry(entries, field, key) {
            let i = choose|i: int|
                0 <= i < entries.len() && (#[trigger] entries[i]).0.as_str() == Some(field)
                    && value_keys(entries[i].1).contains(key);
            if i < n {
                assert(front[i] == entries[i]);
            }
        }
        if entries_mention(front, field) {
            let i = choose|i: int|
                0 <= i < front.len() && (#[trigger] front[i]).0.as_str() == Some(field);
            assert(entries[i] == front[i]);
        }
        if entries_mention(entries, field) {
            let i = choose|i: int|
                0 <= i < entries.len() && (#[trigger] entries[i]).0.as_str() == Some(field);
            if i < n {
                assert(front[i] == entries[i]);
            }
        }
        assert(entries[n] == e);
    }
}

/// Adding a record that is not in the stock, or is there with the same frontmatter,
/// keeps the agreement.
proof fn lemma_add_record(
    fields: FieldsView,
    stock: Stock,
    path: Seq<char>,
    sig: Signature,
    frontmatter: ValueView,
)
    requires
        postings_agree(fields, stock),
        stock.contains_key(path) ==> stock[path].1 == frontmatter,
    ensures
        postings_agree(add_record(fields, path, frontmatter), stock.insert(path, (sig, frontmatter))),
{
    let after = add_record(fields, path, frontmatter);
    let more = stock.insert(path, (sig, frontmatter));
    assert forall|field: Seq<char>, key: Seq<char>, p: Seq<char>|
        #![trigger listed(after, field, key, p)]
        listed(after, field, key, p) <==> stocked(more, field, key, p) by {
        if let Some(entries) = frontmatter.as_mapping() {
            lemma_add_entries(fields, entries, path, field, key, p);
        }
        assert(listed(fields, field, key, p) <==> stocked(stock, field, key, p));
    }
    assert forall|field: Seq<char>, p: Seq<char>|
        #![trigger after.contains_key(field), more.contains_key(p)]
        more.contains_key(p) && mentions(more[p].1, field) implies after.contains_key(field) by {
        if let Some(entries) = frontmatter.as_mapping() {
            lemma_add_entries(fields, entries, path, field, field, p);
        }
        if p != path {
            assert(stock.contains_key(p));
            assert(fields.contains_key(field));
        }
    }
}

proof fn lemma_without(paths: Seq<Seq<char>>, gone: Seq<Seq<char>>, p: Seq<char>)
    ensures
        without(paths, gone).contains(p) <==> paths.contains(p) && !gone.contains(p),
    decreases paths.len(),
{
    if paths.len() > 0 {
        let front = paths.drop_last();
        lemma_without(front, gone, p);
        assert(paths =~= front.push(paths.last()));
        lemma_push_contains(front, paths.last(), p);
        lemma_push_contains(without(front, gone), paths.last(), p);
    }
}

/// Dropping paths from the postings drops their records from the stock.
proof fn lemma_drop_paths(fields: FieldsView, stock: Stock, gone: Seq<Seq<char>>)
    requires
        postings_agree(fields, stock),
    ensures
        postings_agree(drop_paths(fields, gone), stock.remove_keys(gone.to_set())),
{
    let after = drop_paths(fields, gone);
    let rest = stock.remove_keys(gone.to_set());
    assert forall|field: Seq<char>, key: Seq<char>, p: Seq<char>|
        #![trigger listed(after, field, key, p)]
        listed(after, field, key, p) <==> stocked(rest, field, key, p) by {
        assert(listed(fields, field, key, p) <==> stocked(stock, field, key, p));
        if fields.contains_key(field) && fields[field].contains_key(key) {
            lemma_without(fields[field][key], gone, p);
        }
        assert(gone.to_set().contains(p) <==> gone.contains(p));
    }
    assert forall|field: Seq<char>, p: Seq<char>|
        #![trigger after.contains_key(field), rest.contains_key(p)]
        rest.contains_key(p) && mentions(rest[p].1, field) implies after.contains_key(field) by {
        assert(stock.contains_key(p));
        assert(fields.contains_key(field));
    }
}

// ---------------------------------------------------------------------------
// Building and reconciling
// ---------------------------------------------------------------------------

/// The stock with one more file, where it exists and can be parsed.
pub open spec fn stock_file(stock: Stock, f: IndexedView) -> Stock {
    match (f.signature, f.file.record()) {
        (Some(sig), Ok(record)) => stock.insert(f.file.path, (sig, record.frontmatter())),
        _ => stock,
    }
}

/// The stock that a list of files makes.
pub open spec fn stock_of(files: Seq<IndexedView>) -> Stock
    decreases files.len(),
{
    if files.len() == 0 {
        Map::empty()
    } else {
        stock_file(stock_of(files.drop_last()), files.last())
    }
}

/// The stock after the given files changed: each is taken out, and put back where
/// it still exists.
pub open spec fn stock_after(stock: Stock, files: Seq<IndexedView>) -> Stock
    decreases files.len(),
{
    if files.len() == 0 {
        stock
    } else {
        let before = stock_after(stock, files.drop_last());
        stock_file(before.remove(files.last().file.path), files.last())
    }
}

proof fn lemma_last_path_new(files: Seq<IndexedView>)
    requires
        files.len() > 0,
        changed_paths(files).no_duplicates(),
    ensures
        changed_paths(files.drop_last()).no_duplicates(),
        !changed_paths(files.drop_last()).contains(files.last().file.path),
        changed_paths(files) == changed_paths(files.drop_last()).push(files.last().file.path),
{
    let all = changed_paths(files);
    let front = changed_paths(files.drop_last());
    assert(all =~= front.push(files.last().file.path));
    assert(front =~= all.drop_last());
    if front.contains(files.last().file.path) {
        let i = choose|i: int| 0 <= i < front.len() && front[i] == files.last().file.path;
        assert(all[i] == all[all.len() - 1]);
    }
}

pub proof fn lemma_stock_paths(files: Seq<IndexedView>, p: Seq<char>)
    requires
        stock_of(files).contains_key(p),
    ensures
        changed_paths(files).contains(p),
    decreases files.len(),
{
    if files.len() > 0 {
        let front = files.drop_last();
        assert(changed_paths(files) =~= changed_paths(front).push(files.last().file.path));
        lemma_push_contains(changed_paths(front), files.last().file.path, p);
        if stock_of(front).contains_key(p) {
            lemma_stock_paths(front, p);
        }
    }
}

/// A built index describes exactly the files it was built from.
pub proof fn law_build_describes_files(files: Seq<IndexedView>)
    requires
        changed_paths(files).no_duplicates(),
    ensures
        built(files) matches Ok(ix) ==> describes(ix, stock_of(files)),
    decreases files.len(),
{
    if files.len() == 0 {
        let ix = empty_index();
        assert(records_agree(ix.records, stock_of(files))) by {
            assert(ix.records =~= stock_of(files).map_values(|e: (Signature, ValueView)| e.0));
        }
        assert(postings_agree(ix.fields, stock_of(files)));
    } else {
        let front = files.drop_last();
        let f = files.last();
        lemma_last_path_new(files);
        law_build_describes_files(front);
        if let Ok(ix) = built(files) {
            let before = built(front)->Ok_0;
            let stock = stock_of(front);
            if let (Some(sig), Ok(record)) = (f.signature, f.file.record()) {
                if stock.contains_key(f.file.path) {
                    lemma_stock_paths(front, f.file.path);
                }
                lemma_add_record(before.fields, stock, f.file.path, sig, record.frontmatter());
                assert(ix.records =~= stock_of(files).map_values(
                    |e: (Signature, ValueView)| e.0,
                ));
            }
        }
    }
}

/// What a file contributes to the stock: nothing where it is gone or is no record.
pub open spec fn entry_of(f: IndexedView) -> Option<(Signature, ValueView)> {
    match (f.signature, f.file.record()) {
        (Some(sig), Ok(record)) => Some((sig, record.frontmatter())),
        _ => None,
    }
}

/// What the stock holds under a path.
pub open spec fn held_at(stock: Stock, path: Seq<char>) -> Option<(Signature, ValueView)> {
    if stock.contains_key(path) {
        Some(stock[path])
    } else {
        None
    }
}

/// A path that is listed several times is listed with the same file each time.
pub open spec fn repeats_agree(files: Seq<IndexedView>) -> bool {
    forall|i: int, j: int|
        0 <= i < j < files.len() && (#[trigger] files[i]).file.path == (#[trigger] files[j]).file.path
            ==> files[i] == files[j]
}

/// Every file that exists is a record.
pub open spec fn all_parse(files: Seq<IndexedView>) -> bool {
    forall|i: int|
        0 <= i < files.len() && (#[trigger] files[i]).signature is Some ==> files[i].file.record() is Ok
}

proof fn lemma_repeats_front(files: Seq<IndexedView>)
    requires
        files.len() > 0,
        repeats_agree(files),
    ensures
        repeats_agree(files.drop_last()),
        forall|i: int|
            0 <= i < files.len() - 1 && (#[trigger] files[i]).file.path == files.last().file.path
                ==> files[i] == files.last(),
        changed_paths(files) == changed_paths(files.drop_last()).push(files.last().file.path),
{
    let front = files.drop_last();
    assert forall|i: int, j: int|
        0 <= i < j < front.len() && (#[trigger] front[i]).file.path == (
        #[trigger] front[j]).file.path implies front[i] == front[j] by {
        assert(front[i] == files[i] && front[j] == files[j]);
    }
    let n = files.len() - 1;
    assert forall|i: int|
        0 <= i < n && (#[trigger] files[i]).file.path == files.last().file.path implies files[i]
        == files.last() by {
        assert(files[n].file.path == files[i].file.path);
    }
    assert(changed_paths(files) =~= changed_paths(front).push(files.last().file.path));
}

/// The stock after changes holds, under every path that was listed, what the file
/// contributes, and under every other path what it held before.
proof fn lemma_stock_after(stock: Stock, files: Seq<IndexedView>)
    requires
        repeats_agree(files),
    ensures
        forall|i: int|
            0 <= i < files.len() ==> held_at(
                stock_after(stock, files),
                (#[trigger] files[i]).file.path,
            ) == entry_of(files[i]),
        forall|p: Seq<char>|
            !changed_paths(files).contains(p) ==> #[trigger] held_at(stock_after(stock, files), p)
                == held_at(stock, p),
    decreases files.len(),
{
    if files.len() > 0 {
        let front = files.drop_last();
        let f = files.last();
        let path = f.file.path;
        lemma_repeats_front(files);
        lemma_stock_after(stock, front);
        let before = stock_after(stock, front);
        let after = stock_after(stock, files);
        assert forall|i: int| 0 <= i < files.len() implies held_at(
            after,
            (#[trigger] files[i]).file.path,
        ) == entry_of(files[i]) by {
            if files[i].file.path != path {
                assert(front[i] == files[i]);
                assert(held_at(before, files[i].file.path) == entry_of(front[i]));
            }
        }
        assert forall|p: Seq<char>| !changed_paths(files).contains(p) implies #[trigger] held_at(
            after,
            p,
        ) == held_at(stock, p) by {
            lemma_push_contains(changed_paths(front), path, p);
            assert(held_at(before, p) == held_at(stock, p));
        }
    }
}

/// The changes one by one, from an index whose postings already lack the changed
/// paths.
proof fn lemma_changed(ix: IndexView, stock: Stock, rest: Stock, files: Seq<IndexedView>)
    requires
        records_agree(ix.records, stock),
        postings_agree(ix.fields, rest),
        repeats_agree(files),
        forall|p: Seq<char>| #[trigger] changed_paths(files).contains(p) ==> !rest.contains_key(p),
        changed(ix, files).1 is None,
    ensures
        records_agree(changed(ix, files).0.records, stock_after(stock, files)),
        postings_agree(changed(ix, files).0.fields, stock_after(rest, files)),
    decreases files.len(),
{
    if files.len() > 0 {
        let front = files.drop_last();
        let f = files.last();
        let path = f.file.path;
        lemma_repeats_front(files);
        assert forall|p: Seq<char>| #[trigger]
            changed_paths(front).contains(p) implies !rest.contains_key(p) by {
            lemma_push_contains(changed_paths(front), path, p);
            assert(changed_paths(files).contains(p));
        }
        lemma_changed(ix, stock, rest, front);
        let before = changed(ix, front).0;
        let r = stock_after(rest, front);
        lemma_push_contains(changed_paths(front), path, path);
        assert(changed_paths(files).contains(path));
        lemma_stock_after(rest, front);
        assert(held_at(r, path) is None || held_at(r, path) == entry_of(f)) by {
            if changed_paths(front).contains(path) {
                let i = choose|i: int|
                    0 <= i < changed_paths(front).len() && changed_paths(front)[i] == path;
                assert(front[i] == files[i]);
                assert(files[i] == f);
                assert(held_at(r, front[i].file.path) == entry_of(front[i]));
            } else {
                assert(held_at(r, path) == held_at(rest, path));
            }
        }
        let after = changed(ix, files).0;
        match (f.signature, f.file.record()) {
            (Some(sig), Ok(record)) => {
                lemma_add_record(before.fields, r, path, sig, record.frontmatter());
                assert(stock_after(rest, files) =~= r.insert(path, (sig, record.frontmatter())));
            },
            _ => {
                assert(entry_of(f) is None);
                assert(r.remove(path) =~= r);
            },
        }
        assert(after.records =~= stock_after(stock, files).map_values(
            |e: (Signature, ValueView)| e.0,
        ));
    }
}

proof fn lemma_changed_succeeds(ix: IndexView, files: Seq<IndexedView>)
    requires
        all_parse(files),
    ensures
        changed(ix, files).1 is None,
    decreases files.len(),
{
    if files.len() > 0 {
        let front = files.drop_last();
        assert forall|i: int|
            0 <= i < front.len() && (#[trigger] front[i]).signature is Some implies front[i].file.record() is Ok by {
            assert(front[i] == files[i]);
        }
        lemma_changed_succeeds(ix, front);
        let f = files[files.len() - 1];
        assert(f.signature is Some ==> f.file.record() is Ok);
    }
}

/// Stocks that hold the same under every path are the same.
proof fn lemma_same_stock(a: Stock, b: Stock)
    requires
        forall|p: Seq<char>| #[trigger] held_at(a, p) == held_at(b, p),
    ensures
        a == b,
{
    assert forall|p: Seq<char>| #[trigger] a.contains_key(p) == b.contains_key(p) by {
        assert(held_at(a, p) == held_at(b, p));
    }
    assert forall|p: Seq<char>| a.contains_key(p) implies #[trigger] a[p] == b[p] by {
        assert(held_at(a, p) == held_at(b, p));
    }
    assert(a =~= b);
}

/// Reconciling keeps an index exact: where all changed files that exist parse, it
/// succeeds, and an index that described the records before the given files changed
/// describes them afterwards. A path may be listed several times.
pub proof fn law_reconcile_keeps_description(
    ix: IndexView,
    stock: Stock,
    files: Seq<IndexedView>,
)
    requires
        describes(ix, stock),
        repeats_agree(files),
    ensures
        all_parse(files) ==> reconciled(ix, files).1 is None,
        reconciled(ix, files) matches (after, None) ==> describes(after, stock_after(stock, files)),
{
    let gone = changed_paths(files);
    let rest = stock.remove_keys(gone.to_set());
    let bare = IndexView { records: ix.records, fields: drop_paths(ix.fields, gone) };
    if all_parse(files) {
        lemma_changed_succeeds(bare, files);
    }
    lemma_drop_paths(ix.fields, stock, gone);
    if changed(bare, files).1 is None {
        assert forall|p: Seq<char>| #[trigger] gone.contains(p) implies !rest.contains_key(p) by {
            assert(gone.to_set().contains(p));
        }
        lemma_changed(bare, stock, rest, files);
        lemma_stock_after(stock, files);
        lemma_stock_after(rest, files);
        let a = stock_after(stock, files);
        let b = stock_after(rest, files);
        assert forall|p: Seq<char>| #[trigger] held_at(a, p) == held_at(b, p) by {
            if gone.contains(p) {
                let i = choose|i: int| 0 <= i < gone.len() && gone[i] == p;
                assert(held_at(a, files[i].file.path) == entry_of(files[i]));
                assert(held_at(b, files[i].file.path) == entry_of(files[i]));
            } else {
                assert(!gone.to_set().contains(p));
                assert(held_at(stock, p) == held_at(rest, p));
            }
        }
        lemma_same_stock(a, b);
    }
}

/// The stock that a list of files makes holds, under each path, what the file
/// contributes.
pub proof fn lemma_stock_of(files: Seq<IndexedView>)
    requires
        changed_paths(files).no_duplicates(),
    ensures
        forall|i: int|
            0 <= i < files.len() ==> held_at(stock_of(files), (#[trigger] files[i]).file.path)
                == entry_of(files[i]),
    decreases files.len(),
{
    if files.len() > 0 {
        let front = files.drop_last();
        let path = files.last().file.path;
        lemma_last_path_new(files);
        lemma_stock_of(front);
        assert forall|i: int| 0 <= i < files.len() implies held_at(
            stock_of(files),
            (#[trigger] files[i]).file.path,
        ) == entry_of(files[i]) by {
            if i < front.len() {
                assert(front[i] == files[i]);
                assert(changed_paths(front)[i] == files[i].file.path);
                assert(files[i].file.path != path);
                assert(held_at(stock_of(front), front[i].file.path) == entry_of(front[i]));
            } else if stock_of(front).contains_key(path) {
                lemma_stock_paths(front, path);
            }
        }
    }
}

/// `changes` tells how the files `now` differ from the files `earlier`: each listed
/// file is as it is now, or gone where there is none; every file that is not listed
/// is as it was.
pub open spec fn tells_changes(
    changes: Seq<IndexedView>,
    earlier: Seq<IndexedView>,
    now: Seq<IndexedView>,
) -> bool {
    &&& forall|i: int|
        0 <= i < changes.len() ==> held_at(stock_of(now), (#[trigger] changes[i]).file.path)
            == entry_of(changes[i])
    &&& forall|p: Seq<char>|
        !changed_paths(changes).contains(p) ==> #[trigger] held_at(stock_of(now), p) == held_at(
            stock_of(earlier),
            p,
        )
}

/// Reconciling the files that changed is building anew: where the index was built
/// from the earlier files and the list tells all changes, possibly more and some
/// repeatedly, reconciling succeeds, and the result has the same records with the
/// same signatures, and under every field and key the same paths, as an index built
/// from the files as they are now.
pub proof fn law_reconcile_equals_build(
    earlier: Seq<IndexedView>,
    changes: Seq<IndexedView>,
    now: Seq<IndexedView>,
    field: Seq<char>,
    key: Seq<char>,
    path: Seq<char>,
)
    requires
        changed_paths(earlier).no_duplicates(),
        changed_paths(now).no_duplicates(),
        all_parse(earlier),
        all_parse(changes),
        all_parse(now),
        repeats_agree(changes),
        tells_changes(changes, earlier, now),
    ensures
        ({
            let (after, error) = reconciled(built(earlier)->Ok_0, changes);
            let fresh = built(now)->Ok_0;
            &&& built(earlier) is Ok
            &&& built(now) is Ok
            &&& error is None
            &&& after.records == fresh.records
            &&& listed(after.fields, field, key, path) <==> listed(fresh.fields, field, key, path)
        }),
{
    lemma_built_succeeds(earlier);
    lemma_built_succeeds(now);
    law_build_describes_files(earlier);
    law_build_describes_files(now);
    let ix = built(earlier)->Ok_0;
    law_reconcile_keeps_description(ix, stock_of(earlier), changes);
    lemma_stock_after(stock_of(earlier), changes);
    let a = stock_after(stock_of(earlier), changes);
    let b = stock_of(now);
    assert forall|p: Seq<char>| #[trigger] held_at(a, p) == held_at(b, p) by {
        let all = changed_paths(changes);
        if all.contains(p) {
            let i = choose|i: int| 0 <= i < all.len() && all[i] == p;
            assert(held_at(a, changes[i].file.path) == entry_of(changes[i]));
            assert(held_at(b, changes[i].file.path) == entry_of(changes[i]));
        } else {
            assert(held_at(b, p) == held_at(stock_of(earlier), p));
        }
    }
    lemma_same_stock(a, b);
    law_descriptions_agree(
        reconciled(ix, changes).0,
        built(now)->Ok_0,
        b,
        field,
        key,
        path,
    );
}

/// Building succeeds where every file that exists is a record.
pub proof fn lemma_built_succeeds(files: Seq<IndexedView>)
    requires
        all_parse(files),
    ensures
        built(files) is Ok,
    decreases files.len(),
{
    if files.len() > 0 {
        let front = files.drop_last();
        assert forall|i: int|
            0 <= i < front.len() && (#[trigger] front[i]).signature is Some implies front[i].file.record() is Ok by {
            assert(front[i] == files[i]);
        }
        lemma_built_succeeds(front);
        let f = files[files.len() - 1];
        assert(f.signature is Some ==> f.file.record() is Ok);
    }
}

/// Two indexes that describe the same records have the same signatures and list the same paths under every field and
/// key.
pub proof fn law_descriptions_agree(
    a: IndexView,
    b: IndexView,
    stock: Stock,
    field: Seq<char>,
    key: Seq<char>,
    path: Seq<char>,
)
    requires
        describes(a, stock),
        describes(b, stock),
    ensures
        a.records == b.records,
        listed(a.fields, field, key, path) <==> listed(b.fields, field, key, path),
{
    assert(listed(a.fields, field, key, path) <==> stocked(stock, field, key, path));
    assert(listed(b.fields, field, key, path) <==> stocked(stock, field, key, path));
}

// ---------------------------------------------------------------------------
// Freshness
// ---------------------------------------------------------------------------

/// An index is fresh exactly where the records on disk, each listed once, are the
/// indexed ones with unchanged signatures: nothing was added, removed or changed.
pub proof fn law_fresh_iff_unchanged(records: Map<Seq<char>, Signature>, current: Seq<Stamp>)
    requires
        records.dom().finite(),
        current.map_values(|s: Stamp| s.0@).no_duplicates(),
    ensures
        fresh(records, current) <==> {
            &&& records.dom() == current.map_values(|s: Stamp| s.0@).to_set()
            &&& forall|i: int|
                0 <= i < current.len() ==> stamp_matches(records, #[trigger] current[i])
        },
{
    let paths = current.map_values(|s: Stamp| s.0@);
    let set = paths.to_set();
    paths.unique_seq_to_set();
    if forall|i: int| 0 <= i < current.len() ==> stamp_matches(records, #[trigger] current[i]) {
        assert(set.subset_of(records.dom())) by {
            assert forall|p: Seq<char>| #[trigger] set.contains(p) implies records.dom().contains(p) by {
                let i = choose|i: int| 0 <= i < paths.len() && paths[i] == p;
                assert(stamp_matches(records, current[i]));
            }
        }
        if current.len() == records.dom().len() {
            vstd::set_lib::lemma_subset_equality(set, records.dom());
        }
    }
}

// ---------------------------------------------------------------------------
// Candidates
// ---------------------------------------------------------------------------

proof fn lemma_lookup_entry(entries: Seq<(ValueView, ValueView)>, name: Seq<char>, from: int)
    requires
        0 <= from,
    ensures
        lookup_from(entries, name, from) matches Some(v) ==> exists|i: int|
            from <= i < entries.len() && (#[trigger] entries[i]) == (ValueView::String(name), v),
    decreases entries.len() - from,
{
    if from < entries.len() && entries[from].0 != ValueView::String(name) {
        lemma_lookup_entry(entries, name, from + 1);
    } else if from < entries.len() {
        assert(entries[from] == (ValueView::String(name), entries[from].1));
    }
}

/// A field of a record is indexed under the keys of its value.
proof fn lemma_field_carried(record: RecordView, field: Seq<char>, key: Seq<char>)
    requires
        record.field(field) is Some,
        value_keys(record.field(field)->Some_0).contains(key),
    ensures
        carries(record.frontmatter(), field, key),
{
    let entries = record.frontmatter().as_mapping()->Some_0;
    let v = record.field(field)->Some_0;
    lemma_lookup_entry(entries, field, 0);
    let i = choose|i: int|
        0 <= i < entries.len() && (#[trigger] entries[i]) == (ValueView::String(field), v);
    assert(entries[i].0.as_str() == Some(field));
}

proof fn lemma_item_key(items: Seq<ValueView>, i: int, key: Seq<char>)
    requires
        0 <= i < items.len(),
        key_of(items[i]) == Some(key),
    ensures
        item_keys(items).contains(key),
    decreases items.len(),
{
    let front = items.drop_last();
    if i < front.len() {
        lemma_item_key(front, i, key);
    }
    if let Some(k) = key_of(items.last()) {
        lemma_push_contains(item_keys(front), k, key);
    }
}

proof fn lemma_listed_bucket(fields: FieldsView, field: Seq<char>, key: Seq<char>, path: Seq<char>)
    requires
        listed(fields, field, key, path),
        fields.contains_key(field),
    ensures
        fields[field].contains_key(key),
        fields[field][key].contains(path),
{
}

/// No record is missed: a record of the stock that meets every filter is among
/// the candidates of an index that describes the stock.
pub proof fn law_candidates_complete(
    ix: IndexView,
    stock: Stock,
    filters: Seq<FilterView>,
    record: RecordView,
)
    requires
        describes(ix, stock),
        stock.contains_key(record.path),
        stock[record.path].1 == record.frontmatter(),
        all_accept(filters, record),
    ensures
        candidate_for_all(ix, filters, record.path),
{
    assert forall|i: int|
        0 <= i < filters.len() && serviceable(ix, #[trigger] filters[i]) implies candidate(
        ix,
        filters[i],
        record.path,
    ) by {
        let f = filters[i];
        assert(f.accepts(record));
        let v = record.field(f.field)->Some_0;
        let key = op_key(f.op)->Some_0;
        match f.op {
            OpView::Eq(t) => {
                law_equal_values_share_key(v, t);
                assert(seq![key][0] == key);
                lemma_field_carried(record, f.field, key);
                assert(listed(ix.fields, f.field, key, record.path));
            },
            OpView::Contains(t) => {
                if let Some(items) = v.as_sequence() {
                    assert(some_equal(items, t));
                    let j = choose|j: int|
                        0 <= j < items.len() && equal_values(#[trigger] items[j], t);
                    law_equal_values_share_key(items[j], t);
                    lemma_item_key(items, j, key);
                } else {
                    law_equal_values_share_key(v, t);
                    assert(seq![key][0] == key);
                }
                lemma_field_carried(record, f.field, key);
                assert(listed(ix.fields, f.field, key, record.path));
            },
            OpView::Ge(t) | OpView::Gt(t) | OpView::Le(t) | OpView::Lt(t) => {
                law_key_follows_order(v, t);
                let own = key_of(v)->Some_0;
                assert(seq![own][0] == own);
                lemma_field_carried(record, f.field, own);
                assert(listed(ix.fields, f.field, own, record.path));
                lemma_listed_bucket(ix.fields, f.field, own, record.path);
                reveal_strlit("n");
                reveal_strlit("s");
                reveal_strlit("b");
                lemma_kind_bounds(key, own);
                lemma_ranked_total(own, key, false);
            },
            _ => {},
        }
    }
}

} // verus!
