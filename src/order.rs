//! The order on member ids: lexicographic by character, as `String`'s `Ord`.
use vstd::prelude::*;
use vstd::relations::sorted_by;

verus! {

/// `a` sorts at or before `b`.
pub open spec fn id_le(a: Seq<char>, b: Seq<char>) -> bool
    decreases a.len(),
{
    if a.len() == 0 {
        true
    } else if b.len() == 0 {
        false
    } else if a[0] != b[0] {
        (a[0] as u32) < (b[0] as u32)
    } else {
        id_le(a.drop_first(), b.drop_first())
    }
}

/// `a` sorts strictly before `b`.
pub open spec fn id_lt(a: Seq<char>, b: Seq<char>) -> bool {
    id_le(a, b) && a != b
}

/// The keys of `s`, taken by `key`, strictly ascend.
pub open spec fn ascending_by<A>(s: Seq<A>, key: spec_fn(A) -> Seq<char>) -> bool {
    forall|i: int, j: int| 0 <= i < j < s.len() ==> #[trigger] id_lt(key(s[i]), key(s[j]))
}

/// Two ids that each sort at or before the other are equal.
pub proof fn lemma_id_le_antisymmetric(a: Seq<char>, b: Seq<char>)
    requires
        id_le(a, b),
        id_le(b, a),
    ensures
        a == b,
    decreases a.len(),
{
    if a.len() > 0 && b.len() > 0 && a[0] == b[0] {
        lemma_id_le_antisymmetric(a.drop_first(), b.drop_first());
        assert(a =~= seq![a[0]] + a.drop_first());
        assert(b =~= seq![b[0]] + b.drop_first());
    } else if a.len() > 0 && b.len() > 0 {
        assert((a[0] as u32) != (b[0] as u32));
    }
}

/// A sorted rearrangement of a sequence whose keys are distinct ascends
/// strictly by key and holds the same items.
pub proof fn lemma_sorted_rearrangement<A>(
    before: Seq<A>,
    after: Seq<A>,
    key: spec_fn(A) -> Seq<char>,
    leq: spec_fn(A, A) -> bool,
)
    requires
        after.to_multiset() == before.to_multiset(),
        forall|i: int, j: int|
            0 <= i < before.len() && 0 <= j < before.len() && i != j ==> key(#[trigger] before[i])
                != key(#[trigger] before[j]),
        sorted_by(after, leq),
        forall|a: A, b: A| #[trigger] leq(a, b) ==> id_le(key(a), key(b)),
    ensures
        ascending_by(after, key),
        after.to_set() == before.to_set(),
{
    broadcast use vstd::seq_lib::group_to_multiset_ensures;

    assert(before.no_duplicates());
    before.lemma_multiset_has_no_duplicates();
    after.lemma_multiset_has_no_duplicates_conv();
    assert forall|i: int, j: int| 0 <= i < j < after.len() implies #[trigger] id_lt(
        key(after[i]),
        key(after[j]),
    ) by {
        assert(leq(after[i], after[j]));
        assert(after.contains(after[i]));
        assert(after.contains(after[j]));
        assert(before.to_multiset().count(after[i]) > 0);
        assert(before.to_multiset().count(after[j]) > 0);
        let p = choose|p: int| 0 <= p < before.len() && before[p] == after[i];
        let q = choose|q: int| 0 <= q < before.len() && before[q] == after[j];
        assert(p != q);
    }
    assert forall|x: A| after.contains(x) <==> before.contains(x) by {
        assert(after.contains(x) <==> after.to_multiset().count(x) > 0);
        assert(before.contains(x) <==> before.to_multiset().count(x) > 0);
    }
    assert(after.to_set() =~= before.to_set());
}

/// Two sequences that ascend strictly by key and hold the same items are equal.
pub proof fn lemma_ascending_unique<A>(x: Seq<A>, y: Seq<A>, key: spec_fn(A) -> Seq<char>)
    requires
        ascending_by(x, key),
        ascending_by(y, key),
        x.to_set() == y.to_set(),
    ensures
        x == y,
    decreases x.len(),
{
    if x.len() == 0 {
        if y.len() > 0 {
            assert(y.to_set().contains(y[0]));
        }
        assert(x =~= y);
    } else if y.len() == 0 {
        assert(x.to_set().contains(x[0]));
    } else {
        assert(x.to_set().contains(x[0]));
        assert(y.to_set().contains(y[0]));
        let k = choose|k: int| 0 <= k < y.len() && y[k] == x[0];
        let m = choose|m: int| 0 <= m < x.len() && x[m] == y[0];
        if k > 0 && m > 0 {
            assert(id_lt(key(y[0]), key(y[k])));
            assert(id_lt(key(x[0]), key(x[m])));
            lemma_id_le_antisymmetric(key(x[0]), key(y[0]));
        }
        assert(x[0] == y[0]);
        let xs = x.drop_first();
        let ys = y.drop_first();
        assert forall|a: A| xs.contains(a) <==> ys.contains(a) by {
            if xs.contains(a) {
                let i = choose|i: int| 0 <= i < xs.len() && xs[i] == a;
                assert(id_lt(key(x[0]), key(x[i + 1])));
                assert(x.to_set().contains(a));
                let j = choose|j: int| 0 <= j < y.len() && y[j] == a;
                assert(j != 0);
                assert(ys[j - 1] == a);
            }
            if ys.contains(a) {
                let i = choose|i: int| 0 <= i < ys.len() && ys[i] == a;
                assert(id_lt(key(y[0]), key(y[i + 1])));
                assert(y.to_set().contains(a));
                let j = choose|j: int| 0 <= j < x.len() && x[j] == a;
                assert(j != 0);
                assert(xs[j - 1] == a);
            }
        }
        assert(xs.to_set() =~= ys.to_set());
        assert forall|i: int, j: int| 0 <= i < j < xs.len() implies #[trigger] id_lt(
            key(xs[i]),
            key(xs[j]),
        ) by {
            assert(id_lt(key(x[i + 1]), key(x[j + 1])));
        }
        assert forall|i: int, j: int| 0 <= i < j < ys.len() implies #[trigger] id_lt(
            key(ys[i]),
            key(ys[j]),
        ) by {
            assert(id_lt(key(y[i + 1]), key(y[j + 1])));
        }
        lemma_ascending_unique(xs, ys, key);
        assert(x =~= seq![x[0]] + xs);
        assert(y =~= seq![y[0]] + ys);
    }
}

} // verus!
