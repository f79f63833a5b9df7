//! Stable sorting by a caller-given relation.

use vstd::multiset::Multiset;
use vstd::prelude::*;
use vstd::seq_lib::group_to_multiset_ensures;

use crate::text::{
    compare_paths, compare_text, lemma_ranked_total, lemma_ranked_transitive, path_lt, text_lt,
    Order,
};

verus! {

broadcast use group_to_multiset_ensures;

/// A way to order values of type `T`.
pub trait Sorter<T: View> {
    /// Which of two values has to stand first.
    spec fn relation(&self) -> spec_fn(T::V, T::V) -> bool;

    fn less(&self, a: &T, b: &T) -> (r: bool)
        ensures
            r == (self.relation())(a@, b@),
    ;
}

/// The views of a list.
pub open spec fn views_of<T: View>(list: Seq<T>) -> Seq<T::V> {
    list.map_values(|x: T| x@)
}

/// The relation orders the values of `m`: no two of them each have to stand
/// before the other, and standing in order is transitive.
pub open spec fn lawful<V>(rel: spec_fn(V, V) -> bool, m: Multiset<V>) -> bool {
    &&& forall|x: V, y: V|
        m.contains(x) && m.contains(y) && #[trigger] rel(x, y) ==> !rel(y, x)
    &&& forall|x: V, y: V, z: V|
        m.contains(x) && m.contains(y) && m.contains(z) && !(#[trigger] rel(y, x)) && !(
        #[trigger] rel(z, y)) ==> !rel(z, x)
}

/// The relation tells any two different values of `m` apart.
pub open spec fn decides<V>(rel: spec_fn(V, V) -> bool, m: Multiset<V>) -> bool {
    forall|x: V, y: V|
        #![trigger m.contains(x), m.contains(y)]
        m.contains(x) && m.contains(y) && x != y ==> rel(x, y) || rel(y, x)
}

/// No value has to stand before one that precedes it.
pub open spec fn in_order<V>(s: Seq<V>, rel: spec_fn(V, V) -> bool) -> bool {
    forall|i: int, j: int| 0 <= i < j < s.len() ==> !rel(#[trigger] s[j], #[trigger] s[i])
}

/// `r` holds the same values as `s`, in order wherever the relation orders them.
pub open spec fn sorting<V>(r: Seq<V>, s: Seq<V>, rel: spec_fn(V, V) -> bool) -> bool {
    &&& r.to_multiset() == s.to_multiset()
    &&& lawful(rel, s.to_multiset()) ==> in_order(r, rel)
}

/// Two lists merged: always the first of what is left of them, of the second list
/// only where it has to stand before that of the first.
pub open spec fn merged<V>(a: Seq<V>, b: Seq<V>, rel: spec_fn(V, V) -> bool) -> Seq<V>
    decreases a.len() + b.len(),
{
    if a.len() == 0 {
        b
    } else if b.len() == 0 {
        a
    } else if rel(b[0], a[0]) {
        seq![b[0]] + merged(a, b.skip(1), rel)
    } else {
        seq![a[0]] + merged(a.skip(1), b, rel)
    }
}

/// The list that sorting gives, also where the relation does not order the values.
pub open spec fn sorted_by<V>(s: Seq<V>, rel: spec_fn(V, V) -> bool) -> Seq<V>
    decreases s.len(),
{
    if s.len() <= 1 {
        s
    } else {
        let mid = s.len() as int / 2;
        merged(sorted_by(s.take(mid), rel), sorted_by(s.skip(mid), rel), rel)
    }
}

pub proof fn lemma_lawful_part<V>(rel: spec_fn(V, V) -> bool, m: Multiset<V>, part: Multiset<V>)
    requires
        lawful(rel, m),
        part.subset_of(m),
    ensures
        lawful(rel, part),
{
}

proof fn lemma_member<V>(s: Seq<V>, i: int)
    requires
        0 <= i < s.len(),
    ensures
        s.to_multiset().contains(s[i]),
{
    assert(s.contains(s[i]));
}

/// Merging keeps the values, and their order wherever the relation orders them.
proof fn lemma_merged<V>(a: Seq<V>, b: Seq<V>, rel: spec_fn(V, V) -> bool)
    ensures
        merged(a, b, rel).to_multiset() == a.to_multiset().add(b.to_multiset()),
        lawful(rel, a.to_multiset().add(b.to_multiset())) && in_order(a, rel) && in_order(b, rel)
            ==> in_order(merged(a, b, rel), rel),
    decreases a.len() + b.len(),
{
    let m = a.to_multiset().add(b.to_multiset());
    let r = merged(a, b, rel);
    if a.len() == 0 {
        assert(a =~= Seq::<V>::empty());
        assert(m =~= b.to_multiset());
    } else if b.len() == 0 {
        assert(b =~= Seq::<V>::empty());
        assert(m =~= a.to_multiset());
    } else {
        let from_b = rel(b[0], a[0]);
        let x = if from_b {
            a
        } else {
            a.skip(1)
        };
        let y = if from_b {
            b.skip(1)
        } else {
            b
        };
        let first = if from_b {
            b[0]
        } else {
            a[0]
        };
        let rest = merged(x, y, rel);
        lemma_merged(x, y, rel);
        assert(a =~= seq![a[0]] + a.skip(1));
        assert(b =~= seq![b[0]] + b.skip(1));
        vstd::seq_lib::lemma_multiset_commutative(seq![a[0]], a.skip(1));
        vstd::seq_lib::lemma_multiset_commutative(seq![b[0]], b.skip(1));
        vstd::seq_lib::lemma_multiset_commutative(seq![first], rest);
        assert(seq![first] + rest == r);
        assert(r.to_multiset() =~= m);
        if lawful(rel, m) && in_order(a, rel) && in_order(b, rel) {
            assert(x.to_multiset().add(y.to_multiset()).subset_of(m));
            lemma_lawful_part(rel, m, x.to_multiset().add(y.to_multiset()));
            assert(in_order(x, rel) && in_order(y, rel)) by {
                assert(forall|i: int| 0 <= i < a.len() - 1 ==> a.skip(1)[i] == a[i + 1]);
                assert(forall|i: int| 0 <= i < b.len() - 1 ==> b.skip(1)[i] == b[i + 1]);
            }
            lemma_member(a, 0);
            lemma_member(b, 0);
            assert forall|k: int| 0 <= k < rest.len() implies !rel(#[trigger] rest[k], first) by {
                lemma_member(rest, k);
                let z = rest[k];
                if x.to_multiset().contains(z) {
                    vstd::seq_lib::to_multiset_contains(x, z);
                    let i = choose|i: int| 0 <= i < x.len() && x[i] == z;
                    let n = if from_b {
                        i
                    } else {
                        i + 1
                    };
                    assert(a[n] == z);
                    lemma_member(a, n);
                    if n > 0 {
                        assert(!rel(a[n], a[0]));
                    }
                } else {
                    assert(y.to_multiset().contains(z));
                    vstd::seq_lib::to_multiset_contains(y, z);
                    let i = choose|i: int| 0 <= i < y.len() && y[i] == z;
                    let n = if from_b {
                        i + 1
                    } else {
                        i
                    };
                    assert(b[n] == z);
                    lemma_member(b, n);
                    if n > 0 {
                        assert(!rel(b[n], b[0]));
                    }
                }
            }
            assert forall|i: int, j: int| 0 <= i < j < r.len() implies !rel(
                #[trigger] r[j],
                #[trigger] r[i],
            ) by {
                assert(r[j] == rest[j - 1]);
                if i > 0 {
                    assert(r[i] == rest[i - 1]);
                    assert(!rel(rest[j - 1], rest[i - 1]));
                }
            }
        }
    }
}

/// Sorting keeps the values and puts them in order wherever the relation orders
/// them.
pub proof fn lemma_sorted_by<V>(s: Seq<V>, rel: spec_fn(V, V) -> bool)
    ensures
        sorting(sorted_by(s, rel), s, rel),
    decreases s.len(),
{
    if s.len() > 1 {
        let mid = s.len() as int / 2;
        let a = s.take(mid);
        let b = s.skip(mid);
        lemma_sorted_by(a, rel);
        lemma_sorted_by(b, rel);
        assert(s =~= a + b);
        vstd::seq_lib::lemma_multiset_commutative(a, b);
        lemma_merged(sorted_by(a, rel), sorted_by(b, rel), rel);
        assert(s.to_multiset() =~= a.to_multiset().add(b.to_multiset()));
        if lawful(rel, s.to_multiset()) {
            lemma_lawful_part(rel, s.to_multiset(), a.to_multiset());
            lemma_lawful_part(rel, s.to_multiset(), b.to_multiset());
        }
    }
}

/// There is at most one way to put values in order, where the relation decides
/// between any two of them.
pub proof fn lemma_sorting_unique<V>(r: Seq<V>, s: Seq<V>, rel: spec_fn(V, V) -> bool)
    requires
        r.to_multiset() == s.to_multiset(),
        decides(rel, r.to_multiset()),
        in_order(r, rel),
        in_order(s, rel),
    ensures
        r == s,
    decreases r.len(),
{
    assert(r.len() == r.to_multiset().len());
    assert(s.len() == s.to_multiset().len());
    if r.len() == 0 {
        assert(r =~= s);
    } else {
        let x = r.last();
        let y = s.last();
        lemma_member(r, r.len() - 1);
        lemma_member(s, s.len() - 1);
        if x != y {
            assert(r.contains(y));
            assert(s.contains(x));
            let i = choose|i: int| 0 <= i < r.len() && r[i] == y;
            let j = choose|j: int| 0 <= j < s.len() && s[j] == x;
            assert(!rel(r[r.len() - 1], r[i]));
            assert(!rel(s[s.len() - 1], s[j]));
            assert(false);
        }
        let r1 = r.drop_last();
        let s1 = s.drop_last();
        assert(r =~= r1.push(x));
        assert(s =~= s1.push(x));
        assert(r1.to_multiset() =~= r.to_multiset().remove(x));
        assert(s1.to_multiset() =~= s.to_multiset().remove(x));
        assert forall|a: V, b: V|
            #![trigger r1.to_multiset().contains(a), r1.to_multiset().contains(b)]
            r1.to_multiset().contains(a) && r1.to_multiset().contains(b) && a != b implies rel(a, b)
            || rel(b, a) by {
            assert(r.to_multiset().contains(a) && r.to_multiset().contains(b));
        }
        lemma_sorting_unique(r1, s1, rel);
    }
}

/// The values of `v` from the last to the first.
pub fn reversed<T>(v: Vec<T>) -> (r: Vec<T>)
    ensures
        r@ == v@.reverse(),
{
    let mut rest = v;
    let mut out: Vec<T> = Vec::new();
    let ghost n = v@.len();
    while rest.len() > 0
        invariant
            n == v@.len(),
            rest@.len() + out@.len() == n,
            rest@ == v@.take(rest@.len() as int),
            forall|i: int| 0 <= i < out@.len() ==> out@[i] == v@[n - 1 - i],
        decreases rest@.len(),
    {
        let ghost before = rest@;
        let x = rest.pop().unwrap();
        assert(x == before.last());
        out.push(x);
        assert(rest@ =~= v@.take(rest@.len() as int));
    }
    assert(out@ =~= v@.reverse());
    out
}

proof fn lemma_views_push<T: View>(s: Seq<T>, x: T)
    ensures
        views_of(s.push(x)) == views_of(s).push(x@),
{
    assert(views_of(s.push(x)) =~= views_of(s).push(x@));
}

/// Merges two lists. Where both are in order, so is the result; equal values of
/// the first list stay before those of the second.
fn merge<T: View, S: Sorter<T>>(left: Vec<T>, right: Vec<T>, sorter: &S) -> (r: Vec<T>)
    ensures
        views_of(r@) == merged(views_of(left@), views_of(right@), sorter.relation()),
        views_of(r@).to_multiset() == views_of(left@).to_multiset().add(
            views_of(right@).to_multiset(),
        ),
        ({
            let rel = sorter.relation();
            lawful(
                rel,
                views_of(left@).to_multiset().add(views_of(right@).to_multiset()),
            ) && in_order(views_of(left@), rel) && in_order(views_of(right@), rel) ==> in_order(
                views_of(r@),
                rel,
            )
        }),
{
    let ghost a = views_of(left@);
    let ghost b = views_of(right@);
    let ghost m = a.to_multiset().add(b.to_multiset());
    let ghost rel = sorter.relation();
    let ghost good = lawful(rel, m) && in_order(a, rel) && in_order(b, rel);
    let ghost mut i: int = 0;
    let ghost mut j: int = 0;
    let mut xs = reversed(left);
    let mut ys = reversed(right);
    let mut out: Vec<T> = Vec::new();
    proof {
        assert(a.skip(0) =~= a);
        assert(b.skip(0) =~= b);
        assert(views_of(out@) =~= Seq::<T::V>::empty());
        assert(views_of(out@).to_multiset() =~= Multiset::empty());
        assert(views_of(out@) + merged(a, b, rel) =~= merged(a, b, rel));
    }
    while xs.len() > 0 || ys.len() > 0
        invariant
            a == views_of(left@),
            b == views_of(right@),
            m == a.to_multiset().add(b.to_multiset()),
            rel == sorter.relation(),
            good == (lawful(rel, m) && in_order(a, rel) && in_order(b, rel)),
            0 <= i <= a.len(),
            0 <= j <= b.len(),
            xs@ == left@.skip(i).reverse(),
            ys@ == right@.skip(j).reverse(),
            views_of(out@) + merged(a.skip(i), b.skip(j), rel) == merged(a, b, rel),
            views_of(out@).to_multiset() =~= a.take(i).to_multiset().add(b.take(j).to_multiset()),
            good ==> in_order(views_of(out@), rel),
            good ==> forall|p: int, q: int|
                0 <= p < out@.len() && i <= q < a.len() ==> !rel(
                    #[trigger] a[q],
                    #[trigger] views_of(out@)[p],
                ),
            good ==> forall|p: int, q: int|
                0 <= p < out@.len() && j <= q < b.len() ==> !rel(
                    #[trigger] b[q],
                    #[trigger] views_of(out@)[p],
                ),
        decreases xs@.len() + ys@.len(),
    {
        let take_right: bool = if ys.len() == 0 {
            false
        } else if xs.len() == 0 {
            true
        } else {
            sorter.less(&ys[ys.len() - 1], &xs[xs.len() - 1])
        };
        let ghost done = out@;
        let ghost xs0 = xs@;
        let ghost ys0 = ys@;
        let ghost i0 = i;
        let ghost j0 = j;
        proof {
            if xs0.len() > 0 {
                assert(xs0.last() == left@[i]);
                assert(a[i] == left@[i]@);
            }
            if ys0.len() > 0 {
                assert(ys0.last() == right@[j]);
                assert(b[j] == right@[j]@);
            }
            assert forall|q: int| 0 <= q < a.len() implies m.contains(#[trigger] a[q]) by {
                lemma_member(a, q);
            }
            assert forall|q: int| 0 <= q < b.len() implies m.contains(#[trigger] b[q]) by {
                lemma_member(b, q);
            }
        }
        if take_right {
            let y = ys.pop().unwrap();
            proof {
                assert(y@ == b[j]);
                if good {
                    assert forall|q: int| i <= q < a.len() implies !rel(#[trigger] a[q], b[j]) by {
                        assert(rel(b[j], a[i]));
                        assert(!rel(a[i], b[j]));
                        assert(i == q || !rel(a[q], a[i]));
                    }
                    assert forall|q: int| j + 1 <= q < b.len() implies !rel(#[trigger] b[q], b[j]) by {
                    }
                }
                assert(b.take(j + 1) =~= b.take(j).push(b[j]));
                assert(ys@ =~= right@.skip(j + 1).reverse());
                lemma_views_push(done, y);
                j = j + 1;
            }
            out.push(y);
        } else {
            let x = xs.pop().unwrap();
            proof {
                assert(x@ == a[i]);
                if good {
                    assert forall|q: int| j <= q < b.len() implies !rel(#[trigger] b[q], a[i]) by {
                        assert(!rel(b[j], a[i]));
                        assert(j == q || !rel(b[q], b[j]));
                    }
                    assert forall|q: int| i + 1 <= q < a.len() implies !rel(#[trigger] a[q], a[i]) by {
                    }
                }
                assert(a.take(i + 1) =~= a.take(i).push(a[i]));
                assert(xs@ =~= left@.skip(i + 1).reverse());
                lemma_views_push(done, x);
                i = i + 1;
            }
            out.push(x);
        }
        proof {
            let v0 = views_of(done);
            let v = views_of(out@);
            assert(v.drop_last() =~= v0);
            assert(forall|p: int| 0 <= p < done.len() ==> v[p] == v0[p]);
            let x = a.skip(i0);
            let y = b.skip(j0);
            let rest = merged(a.skip(i), b.skip(j), rel);
            assert(v == v0.push(v.last()));
            if take_right {
                assert(y[0] == b[j0]);
                assert(y.skip(1) =~= b.skip(j));
                assert(v.last() == b[j0]);
                if x.len() == 0 {
                    assert(y =~= seq![y[0]] + y.skip(1));
                    assert(rest == b.skip(j));
                } else {
                    assert(x[0] == a[i0]);
                }
            } else {
                assert(x[0] == a[i0]);
                assert(x.skip(1) =~= a.skip(i));
                assert(v.last() == a[i0]);
                if y.len() == 0 {
                    assert(x =~= seq![x[0]] + x.skip(1));
                    assert(rest =~= a.skip(i));
                } else {
                    assert(y[0] == b[j0]);
                }
            }
            assert(merged(x, y, rel) =~= seq![v.last()] + rest);
            assert(v + rest =~= v0 + (seq![v.last()] + rest));
        }
    }
    assert(a.take(a.len() as int) =~= a);
    assert(b.take(b.len() as int) =~= b);
    assert(views_of(out@) + merged(a.skip(i), b.skip(j), rel) =~= views_of(out@));
    out
}

/// Sorts a list. The result holds the same values; it is in order wherever the
/// relation orders them.
pub fn merge_sort<T: View, S: Sorter<T>>(list: Vec<T>, sorter: &S) -> (r: Vec<T>)
    ensures
        views_of(r@) == sorted_by(views_of(list@), sorter.relation()),
        sorting(views_of(r@), views_of(list@), sorter.relation()),
        r@.len() == list@.len(),
    decreases list@.len(),
{
    let ghost all = views_of(list@);
    let mut left = list;
    if left.len() <= 1 {
        return left;
    }
    let mid: usize = left.len() / 2;
    let right = left.split_off(mid);
    let ghost a = views_of(left@);
    let ghost b = views_of(right@);
    proof {
        assert(all =~= a + b);
        assert(all.take(mid as int) =~= a);
        assert(all.skip(mid as int) =~= b);
        vstd::seq_lib::lemma_multiset_commutative(a, b);
        assert(all.to_multiset() =~= a.to_multiset().add(b.to_multiset()));
        let rel = sorter.relation();
        if lawful(rel, all.to_multiset()) {
            lemma_lawful_part(rel, all.to_multiset(), a.to_multiset());
            lemma_lawful_part(rel, all.to_multiset(), b.to_multiset());
        }
    }
    let first = merge_sort(left, sorter);
    let second = merge_sort(right, sorter);
    let r = merge(first, second, sorter);
    proof {
        assert(views_of(r@).len() == views_of(r@).to_multiset().len());
        assert(all.len() == all.to_multiset().len());
    }
    r
}

// ---------------------------------------------------------------------------
// Texts and paths
// ---------------------------------------------------------------------------

/// Sorts texts by character code.
pub struct ByText;

pub open spec fn text_relation() -> spec_fn(Seq<char>, Seq<char>) -> bool {
    |a: Seq<char>, b: Seq<char>| text_lt(a, b)
}

impl Sorter<String> for ByText {
    open spec fn relation(&self) -> spec_fn(Seq<char>, Seq<char>) -> bool {
        text_relation()
    }

    fn less(&self, a: &String, b: &String) -> (r: bool) {
        matches!(compare_text(a, b), Order::Less)
    }
}

/// Sorts paths component by component.
pub struct ByPath;

pub open spec fn path_relation() -> spec_fn(Seq<char>, Seq<char>) -> bool {
    |a: Seq<char>, b: Seq<char>| path_lt(a, b)
}

impl Sorter<String> for ByPath {
    open spec fn relation(&self) -> spec_fn(Seq<char>, Seq<char>) -> bool {
        path_relation()
    }

    fn less(&self, a: &String, b: &String) -> (r: bool) {
        matches!(compare_paths(a, b), Order::Less)
    }
}

proof fn lemma_ranked_lawful(as_path: bool, x: Seq<char>, y: Seq<char>, z: Seq<char>)
    ensures
        crate::text::ranked_order(x, y, as_path) is Less ==> !(crate::text::ranked_order(
            y,
            x,
            as_path,
        ) is Less),
        !(crate::text::ranked_order(y, x, as_path) is Less) && !(crate::text::ranked_order(
            z,
            y,
            as_path,
        ) is Less) ==> !(crate::text::ranked_order(z, x, as_path) is Less),
        x != y ==> crate::text::ranked_order(x, y, as_path) is Less || crate::text::ranked_order(
            y,
            x,
            as_path,
        ) is Less,
{
    lemma_ranked_total(x, y, as_path);
    lemma_ranked_total(y, z, as_path);
    lemma_ranked_total(x, z, as_path);
    if crate::text::ranked_order(x, y, as_path) is Less && crate::text::ranked_order(
        y,
        z,
        as_path,
    ) is Less {
        lemma_ranked_transitive(x, y, z, as_path);
    }
}

/// The order of texts orders all texts.
pub proof fn lemma_text_lawful(m: Multiset<Seq<char>>)
    ensures
        lawful(text_relation(), m),
        decides(text_relation(), m),
{
    let rel = text_relation();
    assert forall|x: Seq<char>, y: Seq<char>|
        m.contains(x) && m.contains(y) && #[trigger] rel(x, y) implies !rel(y, x) by {
        lemma_ranked_lawful(false, x, y, x);
    }
    assert forall|x: Seq<char>, y: Seq<char>, z: Seq<char>|
        m.contains(x) && m.contains(y) && m.contains(z) && !(#[trigger] rel(y, x)) && !(
        #[trigger] rel(z, y)) implies !rel(z, x) by {
        lemma_ranked_lawful(false, x, y, z);
    }
    assert forall|x: Seq<char>, y: Seq<char>|
        #![trigger m.contains(x), m.contains(y)]
        m.contains(x) && m.contains(y) && x != y implies rel(x, y) || rel(y, x) by {
        lemma_ranked_lawful(false, x, y, x);
    }
}

/// The order of paths orders all paths.
pub proof fn lemma_path_lawful(m: Multiset<Seq<char>>)
    ensures
        lawful(path_relation(), m),
        decides(path_relation(), m),
{
    let rel = path_relation();
    assert forall|x: Seq<char>, y: Seq<char>|
        m.contains(x) && m.contains(y) && #[trigger] rel(x, y) implies !rel(y, x) by {
        lemma_ranked_lawful(true, x, y, x);
    }
    assert forall|x: Seq<char>, y: Seq<char>, z: Seq<char>|
        m.contains(x) && m.contains(y) && m.contains(z) && !(#[trigger] rel(y, x)) && !(
        #[trigger] rel(z, y)) implies !rel(z, x) by {
        lemma_ranked_lawful(true, x, y, z);
    }
    assert forall|x: Seq<char>, y: Seq<char>|
        #![trigger m.contains(x), m.contains(y)]
        m.contains(x) && m.contains(y) && x != y implies rel(x, y) || rel(y, x) by {
        lemma_ranked_lawful(true, x, y, x);
    }
}

} // verus!
