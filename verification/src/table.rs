//! Facts about filtered tables, shared by the store's cascade and
//! removal operations.

use vstd::prelude::*;

verus! {

/// Membership in a filtered sequence: exactly the members of the
/// original that satisfy the predicate.
pub proof fn lemma_filter_contains<A>(s: Seq<A>, pred: spec_fn(A) -> bool)
    ensures
        forall|x: A| #[trigger] s.filter(pred).contains(x) <==> s.contains(x) && pred(x),
    decreases s.len(),
{
    reveal(Seq::filter);
    if s.len() == 0 {
    } else {
        let t = s.drop_last();
        let last = s.last();
        lemma_filter_contains(t, pred);
        assert forall|x: A| s.contains(x) implies t.contains(x) || x == last by {
            let i = choose|i: int| 0 <= i < s.len() && s[i] == x;
            if i < s.len() - 1 {
                assert(t[i] == x);
            }
        }
        assert forall|x: A| t.contains(x) implies s.contains(x) by {
            let i = choose|i: int| 0 <= i < t.len() && t[i] == x;
            assert(s[i] == x);
        }
        assert forall|x: A| #[trigger] s.filter(pred).contains(x) implies s.contains(x) && pred(
            x,
        ) by {
            if pred(last) {
                assert(s.filter(pred) == t.filter(pred).push(last));
                let i = choose|i: int| 0 <= i < s.filter(pred).len() && s.filter(pred)[i] == x;
                if i < t.filter(pred).len() {
                    assert(t.filter(pred)[i] == x);
                    assert(t.filter(pred).contains(x));
                } else {
                    assert(x == last);
                    assert(s[s.len() - 1] == last);
                }
            } else {
                assert(s.filter(pred) == t.filter(pred));
            }
        }
        assert forall|x: A| s.contains(x) && pred(x) implies #[trigger] s.filter(pred).contains(
            x,
        ) by {
            if t.contains(x) {
                assert(t.filter(pred).contains(x));
                let i = choose|i: int| 0 <= i < t.filter(pred).len() && t.filter(pred)[i] == x;
                if pred(last) {
                    assert(s.filter(pred)[i] == x);
                } else {
                    assert(s.filter(pred) == t.filter(pred));
                }
            } else {
                assert(x == last);
                assert(s.filter(pred) == t.filter(pred).push(last));
                assert(s.filter(pred)[s.filter(pred).len() - 1] == x);
            }
        }
    }
}

/// Every element of a filtered sequence comes from the original and
/// satisfies the predicate.
pub proof fn lemma_filter_in<A>(s: Seq<A>, pred: spec_fn(A) -> bool)
    ensures
        forall|i: int|
            0 <= i < s.filter(pred).len() ==> s.contains(#[trigger] s.filter(pred)[i]) && pred(
                s.filter(pred)[i],
            ),
{
    lemma_filter_contains(s, pred);
    assert forall|i: int| 0 <= i < s.filter(pred).len() implies s.contains(
        #[trigger] s.filter(pred)[i],
    ) && pred(s.filter(pred)[i]) by {
        assert(s.filter(pred).contains(s.filter(pred)[i]));
    }
}

/// Pairwise-distinct keys survive filtering.
pub proof fn lemma_filter_distinct<A>(
    s: Seq<A>,
    pred: spec_fn(A) -> bool,
    key: spec_fn(A) -> (u64, u64),
)
    requires
        forall|i: int, j: int| 0 <= i < j < s.len() ==> key(s[i]) != key(s[j]),
    ensures
        forall|i: int, j: int|
            0 <= i < j < s.filter(pred).len() ==> key(#[trigger] s.filter(pred)[i]) != key(
                #[trigger] s.filter(pred)[j],
            ),
    decreases s.len(),
{
    reveal(Seq::filter);
    if s.len() == 0 {
    } else {
        let t = s.drop_last();
        let last = s.last();
        lemma_filter_distinct(t, pred, key);
        lemma_filter_in(t, pred);
        assert forall|i: int, j: int| 0 <= i < j < s.filter(pred).len() implies key(
            #[trigger] s.filter(pred)[i],
        ) != key(#[trigger] s.filter(pred)[j]) by {
            if pred(last) {
                assert(s.filter(pred) == t.filter(pred).push(last));
                if j < t.filter(pred).len() {
                } else {
                    assert(s.filter(pred)[j] == last);
                    assert(t.contains(t.filter(pred)[i]));
                    let k = choose|k: int| 0 <= k < t.len() && t[k] == t.filter(pred)[i];
                    assert(s[k] == t.filter(pred)[i]);
                    assert(key(s[k]) != key(s[s.len() - 1]));
                }
            } else {
                assert(s.filter(pred) == t.filter(pred));
            }
        }
    }
}

/// The ids of `s` other than `x`, in order.
pub open spec fn seq_without(s: Seq<u64>, x: u64) -> Seq<u64> {
    s.filter(|y: u64| y != x)
}

/// The ids of `v` other than `x`, in order.
pub fn filter_ne(v: &Vec<u64>, x: u64) -> (out: Vec<u64>)
    ensures
        out@ == seq_without(v@, x),
{
    let mut out: Vec<u64> = Vec::new();
    let mut i: usize = 0;
    proof {
        reveal(Seq::filter);
        assert(v@.subrange(0, 0) =~= Seq::<u64>::empty());
    }
    while i < v.len()
        invariant
            0 <= i <= v@.len(),
            out@ == seq_without(v@.subrange(0, i as int), x),
        decreases v@.len() - i,
    {
        proof {
            reveal(Seq::filter);
            assert(v@.subrange(0, i + 1).drop_last() =~= v@.subrange(0, i as int));
            assert(v@.subrange(0, i + 1).last() == v@[i as int]);
        }
        if v[i] != x {
            out.push(v[i]);
        }
        i += 1;
    }
    proof {
        assert(v@.subrange(0, v@.len() as int) =~= v@);
    }
    out
}

/// The ids of `v` strictly greater than `cut`, in order.
pub fn filter_gt(v: &Vec<u64>, cut: u64) -> (out: Vec<u64>)
    ensures
        out@ == v@.filter(|y: u64| y > cut),
{
    let mut out: Vec<u64> = Vec::new();
    let mut i: usize = 0;
    proof {
        reveal(Seq::filter);
        assert(v@.subrange(0, 0) =~= Seq::<u64>::empty());
    }
    while i < v.len()
        invariant
            0 <= i <= v@.len(),
            out@ == v@.subrange(0, i as int).filter(|y: u64| y > cut),
        decreases v@.len() - i,
    {
        proof {
            reveal(Seq::filter);
            assert(v@.subrange(0, i + 1).drop_last() =~= v@.subrange(0, i as int));
            assert(v@.subrange(0, i + 1).last() == v@[i as int]);
        }
        if v[i] > cut {
            out.push(v[i]);
        }
        i += 1;
    }
    proof {
        assert(v@.subrange(0, v@.len() as int) =~= v@);
    }
    out
}

} // verus!
