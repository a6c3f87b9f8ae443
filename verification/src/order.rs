//! Sorting of id lists, by the standard library and by rayon.

use vstd::prelude::*;
use rayon::slice::ParallelSliceMut;

verus! {

pub open spec fn sorted_u32(s: Seq<u32>) -> bool {
    forall|i: int, j: int| 0 <= i <= j < s.len() ==> s[i] <= s[j]
}

pub open spec fn sorted_u64(s: Seq<u64>) -> bool {
    forall|i: int, j: int| 0 <= i <= j < s.len() ==> s[i] <= s[j]
}

/// `slice::sort_unstable` on `u32`: the same values, ascending.
#[verifier::external_body]
pub(crate) fn sort_u32(v: &mut Vec<u32>)
    ensures
        sorted_u32(final(v)@),
        final(v)@.to_multiset() == old(v)@.to_multiset(),
{
    v.sort_unstable()
}

/// rayon's `par_sort_unstable` on `u64`: the same values, ascending.
#[verifier::external_body]
pub(crate) fn par_sort_u64(v: &mut Vec<u64>)
    ensures
        sorted_u64(final(v)@),
        final(v)@.to_multiset() == old(v)@.to_multiset(),
{
    v.par_sort_unstable()
}

/// Equal neighbours collapsed to one: what `Vec::dedup` leaves.
pub open spec fn dedup_u64(s: Seq<u64>) -> Seq<u64>
    decreases s.len(),
{
    if s.len() <= 1 {
        s
    } else {
        let d = dedup_u64(s.drop_last());
        if s.last() == s[s.len() - 2] { d } else { d.push(s.last()) }
    }
}

pub open spec fn dedup_u32(s: Seq<u32>) -> Seq<u32>
    decreases s.len(),
{
    if s.len() <= 1 {
        s
    } else {
        let d = dedup_u32(s.drop_last());
        if s.last() == s[s.len() - 2] { d } else { d.push(s.last()) }
    }
}

proof fn lemma_dedup_u64_last(s: Seq<u64>)
    requires
        s.len() > 0,
    ensures
        dedup_u64(s).len() > 0,
        dedup_u64(s).last() == s.last(),
    decreases s.len(),
{
    if s.len() > 1 {
        lemma_dedup_u64_last(s.drop_last());
    }
}

proof fn lemma_dedup_u32_last(s: Seq<u32>)
    requires
        s.len() > 0,
    ensures
        dedup_u32(s).len() > 0,
        dedup_u32(s).last() == s.last(),
    decreases s.len(),
{
    if s.len() > 1 {
        lemma_dedup_u32_last(s.drop_last());
    }
}

/// Appending a value adds one entry unless it repeats the last one.
pub proof fn lemma_dedup_u32_push_len(s: Seq<u32>, x: u32)
    ensures
        dedup_u32(s.push(x)).len() == dedup_u32(s).len() + (if s.len() > 0 && s.last() == x { 0int } else { 1int }),
{
    let t = s.push(x);
    if s.len() > 0 {
        assert(t.drop_last() =~= s);
        assert(t[t.len() - 2] == s.last());
    }
}

/// Collapsing keeps exactly the values that were there.
pub proof fn lemma_dedup_u32_contains(s: Seq<u32>, x: u32)
    ensures
        dedup_u32(s).contains(x) <==> s.contains(x),
    decreases s.len(),
{
    if s.len() > 1 {
        let d = s.drop_last();
        lemma_dedup_u32_contains(d, x);
        let dd = dedup_u32(d);
        if s.last() == s[s.len() - 2] {
            if s.contains(x) && !d.contains(x) {
                let k = choose|k: int| 0 <= k < s.len() && s[k] == x;
                if k < s.len() - 1 {
                    assert(d[k] == s[k]);
                }
                assert(k == s.len() - 1);
                assert(d[s.len() - 2] == x);
            }
            if d.contains(x) {
                let k = choose|k: int| 0 <= k < d.len() && d[k] == x;
                assert(s[k] == x);
            }
        } else {
            let e = dd.push(s.last());
            if e.contains(x) && !dd.contains(x) {
                assert(s[s.len() - 1] == x);
            }
            if dd.contains(x) {
                let k = choose|k: int| 0 <= k < dd.len() && dd[k] == x;
                assert(e[k] == x);
            }
            if d.contains(x) {
                let k = choose|k: int| 0 <= k < d.len() && d[k] == x;
                assert(s[k] == x);
            }
            if s.contains(x) && !d.contains(x) {
                let k = choose|k: int| 0 <= k < s.len() && s[k] == x;
                if k < s.len() - 1 {
                    assert(d[k] == s[k]);
                }
                assert(k == s.len() - 1);
                assert(e[dd.len() as int] == x);
            }
        }
    }
}

/// Collapsing never lengthens.
pub proof fn lemma_dedup_u32_len_le(s: Seq<u32>)
    ensures
        dedup_u32(s).len() <= s.len(),
    decreases s.len(),
{
    if s.len() > 1 {
        lemma_dedup_u32_len_le(s.drop_last());
    }
}

/// Collapse runs of equal neighbours.
pub fn dedup_vec_u64(v: &Vec<u64>) -> (r: Vec<u64>)
    ensures
        r@ == dedup_u64(v@),
{
    let mut r: Vec<u64> = Vec::new();
    let mut i: usize = 0;
    while i < v.len()
        invariant
            i <= v@.len(),
            r@ == dedup_u64(v@.subrange(0, i as int)),
        decreases v.len() - i,
    {
        let ghost p = v@.subrange(0, i + 1);
        assert(p.drop_last() =~= v@.subrange(0, i as int));
        if i == 0 || v[i] != v[i - 1] {
            r.push(v[i]);
            proof {
                if i == 0 {
                    assert(r@ =~= p);
                }
            }
        } else {
            proof {
                assert(p[p.len() - 2] == v@[i - 1]);
            }
        }
        i = i + 1;
    }
    assert(v@.subrange(0, i as int) =~= v@);
    r
}

/// Collapse runs of equal neighbours.
pub fn dedup_vec_u32(v: &Vec<u32>) -> (r: Vec<u32>)
    ensures
        r@ == dedup_u32(v@),
{
    let mut r: Vec<u32> = Vec::new();
    let mut i: usize = 0;
    while i < v.len()
        invariant
            i <= v@.len(),
            r@ == dedup_u32(v@.subrange(0, i as int)),
        decreases v.len() - i,
    {
        let ghost p = v@.subrange(0, i + 1);
        assert(p.drop_last() =~= v@.subrange(0, i as int));
        if i == 0 || v[i] != v[i - 1] {
            r.push(v[i]);
            proof {
                if i == 0 {
                    assert(r@ =~= p);
                }
            }
        } else {
            proof {
                assert(p[p.len() - 2] == v@[i - 1]);
            }
        }
        i = i + 1;
    }
    assert(v@.subrange(0, i as int) =~= v@);
    r
}

/// `<=` on ids, as a relation.
pub open spec fn u32_le() -> spec_fn(u32, u32) -> bool {
    |a: u32, b: u32| a <= b
}

/// The ids of `ids` in ascending order, repeats kept.
pub open spec fn sorted_ids(ids: Seq<u32>) -> Seq<u32> {
    ids.sort_by(u32_le())
}

/// A sorting of `ids` is the sorting of `ids`.
pub proof fn lemma_sorted_ids(ids: Seq<u32>, s: Seq<u32>)
    requires
        sorted_u32(s),
        s.to_multiset() == ids.to_multiset(),
    ensures
        s == sorted_ids(ids),
{
    let leq = u32_le();
    assert(vstd::relations::total_ordering(leq));
    ids.lemma_sort_by_ensures(leq);
    assert(vstd::relations::sorted_by(s, leq)) by {
        assert forall|i: int, j: int| 0 <= i < j < s.len() implies #[trigger] leq(s[i], s[j]) by {}
    }
    vstd::seq_lib::lemma_sorted_unique(s, sorted_ids(ids), leq);
}

/// Every value is strictly greater than the one before it.
pub open spec fn increasing_u64(s: Seq<u64>) -> bool {
    forall|i: int, j: int| 0 <= i < j < s.len() ==> s[i] < s[j]
}

/// Collapsing the runs of a sorted sequence leaves it strictly increasing,
/// with the same values.
pub proof fn lemma_dedup_u64_sorted(s: Seq<u64>)
    requires
        sorted_u64(s),
    ensures
        increasing_u64(dedup_u64(s)),
        forall|x: u64| dedup_u64(s).contains(x) <==> s.contains(x),
        dedup_u64(s).len() <= s.len(),
    decreases s.len(),
{
    if s.len() > 1 {
        let t = s.drop_last();
        lemma_dedup_u64_sorted(t);
        lemma_dedup_u64_last(t);
        let d = dedup_u64(t);
        assert forall|x: u64| t.contains(x) implies x <= s.last() by {
            let i = choose|i: int| 0 <= i < t.len() && t[i] == x;
            assert(s[i] == x);
        }
        if s.last() != s[s.len() - 2] {
            let e = d.push(s.last());
            assert forall|i: int, j: int| 0 <= i < j < e.len() implies e[i] < e[j] by {
                if j == e.len() - 1 {
                    assert(d.contains(e[i]));
                    assert(t.contains(e[i]));
                    assert(e[i] <= s[s.len() - 2]) by {
                        let k = choose|k: int| 0 <= k < t.len() && t[k] == e[i];
                        assert(s[k] <= s[s.len() - 2]);
                    }
                    assert(s[s.len() - 2] <= s.last());
                }
            }
            assert forall|x: u64| e.contains(x) <==> s.contains(x) by {
                if e.contains(x) {
                    let i = choose|i: int| 0 <= i < e.len() && e[i] == x;
                    if i < d.len() {
                        assert(e[i] == d[i]);
                        assert(d.contains(x));
                        assert(t.contains(x));
                        let k = choose|k: int| 0 <= k < t.len() && t[k] == x;
                        assert(s[k] == x);
                    } else {
                        assert(s[s.len() - 1] == x);
                    }
                }
                if s.contains(x) {
                    let i = choose|i: int| 0 <= i < s.len() && s[i] == x;
                    if i < t.len() {
                        assert(t[i] == x);
                        assert(t.contains(x));
                        assert(d.contains(x));
                        let k = choose|k: int| 0 <= k < d.len() && d[k] == x;
                        assert(e[k] == x);
                    } else {
                        assert(e[d.len() as int] == x);
                    }
                }
            }
        } else {
            assert forall|x: u64| d.contains(x) <==> s.contains(x) by {
                if s.contains(x) {
                    let i = choose|i: int| 0 <= i < s.len() && s[i] == x;
                    if i < t.len() {
                        assert(t[i] == x);
                    } else {
                        assert(t[t.len() - 1] == x);
                    }
                    assert(t.contains(x));
                }
                if d.contains(x) {
                    assert(t.contains(x));
                    let k = choose|k: int| 0 <= k < t.len() && t[k] == x;
                    assert(s[k] == x);
                }
            }
        }
    }
}

/// Every id is strictly greater than the one before it.
pub open spec fn increasing_u32(s: Seq<u32>) -> bool {
    forall|i: int, j: int| 0 <= i < j < s.len() ==> s[i] < s[j]
}

/// Collapsing the runs of an ascending id list leaves it strictly increasing.
pub proof fn lemma_dedup_u32_sorted(s: Seq<u32>)
    requires
        sorted_u32(s),
    ensures
        increasing_u32(dedup_u32(s)),
    decreases s.len(),
{
    if s.len() > 1 {
        let t = s.drop_last();
        lemma_dedup_u32_sorted(t);
        let d = dedup_u32(t);
        if s.last() != s[s.len() - 2] {
            let e = d.push(s.last());
            assert forall|i: int, j: int| 0 <= i < j < e.len() implies e[i] < e[j] by {
                if j == e.len() - 1 {
                    assert(d[i] == e[i]);
                    assert(d.contains(e[i]));
                    lemma_dedup_u32_contains(t, e[i]);
                    let k = choose|k: int| 0 <= k < t.len() && t[k] == e[i];
                    assert(s[k] <= s[s.len() - 2]);
                    assert(s[s.len() - 2] <= s.last());
                } else {
                    assert(e[i] == d[i] && e[j] == d[j]);
                }
            }
        }
    }
}

/// Sequences with the same multiset hold the same values.
pub proof fn lemma_same_values<A>(a: Seq<A>, b: Seq<A>)
    requires
        a.to_multiset() == b.to_multiset(),
    ensures
        forall|x: A| a.contains(x) <==> b.contains(x),
        a.len() == b.len(),
{
    a.to_multiset_ensures();
    b.to_multiset_ensures();
    assert forall|x: A| a.contains(x) <==> b.contains(x) by {
        a.to_multiset_ensures();
        b.to_multiset_ensures();
        assert(a.contains(x) <==> a.to_multiset().count(x) > 0);
        assert(b.contains(x) <==> b.to_multiset().count(x) > 0);
        assert(a.to_multiset().count(x) == b.to_multiset().count(x));
    }
    assert(a.to_multiset().len() == b.to_multiset().len());
}

} // verus!
