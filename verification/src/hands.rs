//! Shared vocabulary for hand arrays: sortedness, totals, liveness, and the
//! executable helpers that the two engines build on.

use itertools::Itertools;
use vstd::multiset::Multiset;
use vstd::prelude::*;
use vstd::relations::sorted_by;
use vstd::seq_lib::group_to_multiset_ensures;

verus! {

/// Whether a sequence of hand values is sorted in ascending order.
pub open spec fn hands_sorted(h: Seq<u32>) -> bool {
    forall|i: int, j: int| 0 <= i <= j < h.len() ==> h[i] <= h[j]
}

/// Whether every hand in the sequence is dead (equal to zero).
pub open spec fn all_zero(h: Seq<u32>) -> bool {
    forall|k: int| 0 <= k < h.len() ==> h[k] == 0
}

/// The total number of fingers held across a hand array.
pub open spec fn fingers_total(h: Seq<u32>) -> int
    decreases h.len(),
{
    if h.len() == 0 {
        0
    } else {
        fingers_total(h.drop_last()) + h.last()
    }
}

/// The ascending-order comparison used to sort hand arrays.
pub open spec fn fingers_leq() -> spec_fn(u32, u32) -> bool {
    |x: u32, y: u32| x <= y
}

/// The canonical ascending rearrangement of a hand array.
pub open spec fn sorted_version(h: Seq<u32>) -> Seq<u32> {
    h.sort_by(fingers_leq())
}

/// Every hand value lies strictly below the given bound.
pub open spec fn hands_below(h: Seq<u32>, bound: u32) -> bool {
    forall|k: int| 0 <= k < h.len() ==> h[k] < bound
}

pub proof fn lemma_sorted_version_ensures(h: Seq<u32>)
    ensures
        sorted_version(h).to_multiset() == h.to_multiset(),
        sorted_version(h).len() == h.len(),
        hands_sorted(sorted_version(h)),
{
    broadcast use group_to_multiset_ensures;

    h.lemma_sort_by_ensures(fingers_leq());
    assert(sorted_version(h).to_multiset() =~= h.to_multiset());
    h.to_multiset_ensures();
    sorted_version(h).to_multiset_ensures();
    assert(sorted_version(h).len() == sorted_version(h).to_multiset().len());
    assert(h.len() == h.to_multiset().len());
    assert forall|i: int, j: int|
        0 <= i <= j < sorted_version(h).len() implies sorted_version(h)[i] <= sorted_version(
        h,
    )[j] by {
        if i < j {
            assert(sorted_by(sorted_version(h), fingers_leq()));
            assert(fingers_leq()(sorted_version(h)[i], sorted_version(h)[j]));
        }
    }
}

/// A sorted sequence with the same multiset as `h` is `sorted_version(h)`.
pub proof fn lemma_sorted_version_unique(h: Seq<u32>, s: Seq<u32>)
    requires
        hands_sorted(s),
        s.to_multiset() == h.to_multiset(),
    ensures
        s == sorted_version(h),
{
    broadcast use group_to_multiset_ensures;

    h.lemma_sort_by_ensures(fingers_leq());
    lemma_sorted_version_ensures(h);
    assert(sorted_by(s, fingers_leq())) by {
        assert forall|i: int, j: int| 0 <= i < j < s.len() implies fingers_leq()(
            s[i],
            s[j],
        ) by {
            assert(s[i] <= s[j]);
        }
    }
    vstd::seq_lib::lemma_sorted_unique(s, sorted_version(h), fingers_leq());
}

/// Sorts a hand array into ascending order.
pub fn sort_hands(v: &Vec<u32>) -> (r: Vec<u32>)
    ensures
        r@ == sorted_version(v@),
        hands_sorted(r@),
        r@.to_multiset() == v@.to_multiset(),
        r@.len() == v@.len(),
{
    broadcast use group_to_multiset_ensures;

    let mut rest = v.clone();
    assert(rest@ =~= v@);
    let mut out: Vec<u32> = Vec::new();
    assert(out@.to_multiset().add(rest@.to_multiset()) =~= v@.to_multiset());
    while rest.len() > 0
        invariant
            hands_sorted(out@),
            out@.to_multiset().add(rest@.to_multiset()) == v@.to_multiset(),
            forall|i: int, k: int|
                0 <= i < out@.len() && 0 <= k < rest@.len() ==> out@[i] <= rest@[k],
        decreases rest@.len(),
    {
        let mut m: usize = 0;
        let mut k: usize = 1;
        while k < rest.len()
            invariant
                0 <= m < k <= rest@.len(),
                forall|t: int| 0 <= t < k ==> rest@[m as int] <= rest@[t],
            decreases rest@.len() - k,
        {
            if rest[k] < rest[m] {
                m = k;
            }
            k = k + 1;
        }
        assert(forall|t: int| 0 <= t < rest@.len() ==> rest@[m as int] <= rest@[t]);
        let ghost prev_out = out@;
        let ghost prev_rest = rest@;
        let x = rest.remove(m);
        out.push(x);
        proof {
            prev_rest.to_multiset_ensures();
            prev_out.to_multiset_ensures();
            assert(prev_rest.contains(x)) by {
                assert(prev_rest[m as int] == x);
            }
            assert(out@.to_multiset().add(rest@.to_multiset()) =~= v@.to_multiset());
            assert forall|i: int, t: int|
                0 <= i < out@.len() && 0 <= t < rest@.len() implies out@[i] <= rest@[t] by {
                assert(rest@[t] == if t < m as int {
                    prev_rest[t]
                } else {
                    prev_rest[t + 1]
                });
                if i < prev_out.len() {
                    assert(out@[i] == prev_out[i]);
                } else {
                    assert(out@[i] == x);
                }
            }
            assert forall|i: int, j: int|
                0 <= i <= j < out@.len() implies out@[i] <= out@[j] by {
                if j < prev_out.len() {
                    assert(out@[i] == prev_out[i] && out@[j] == prev_out[j]);
                } else if i < prev_out.len() {
                    assert(out@[i] == prev_out[i] && out@[j] == x);
                    assert(prev_out[i] <= prev_rest[m as int]);
                }
            }
        }
    }
    proof {
        assert(rest@ =~= Seq::<u32>::empty());
        rest@.to_multiset_ensures();
        assert(rest@.to_multiset() =~= Multiset::<u32>::empty());
        assert(out@.to_multiset() =~= v@.to_multiset());
        lemma_sorted_version_unique(v@, out@);
        out@.to_multiset_ensures();
        v@.to_multiset_ensures();
        assert(out@.len() == out@.to_multiset().len());
        assert(v@.len() == v@.to_multiset().len());
    }
    out
}

/// Appending one value adds it to the total.
pub proof fn lemma_fingers_total_push(h: Seq<u32>, x: u32)
    ensures
        fingers_total(h.push(x)) == fingers_total(h) + x,
{
    assert(h.push(x).drop_last() =~= h);
}

/// Computes the total number of fingers held across a hand array.
pub fn total_fingers(h: &Vec<u32>) -> (r: u128)
    ensures
        r == fingers_total(h@),
{
    let mut acc: u128 = 0;
    let mut i: usize = 0;
    proof {
        assert(h@.subrange(0, 0) =~= Seq::<u32>::empty());
    }
    while i < h.len()
        invariant
            0 <= i <= h@.len(),
            acc == fingers_total(h@.subrange(0, i as int)),
            acc <= i * 0xffff_ffff,
        decreases h@.len() - i,
    {
        proof {
            assert(h@.subrange(0, i + 1).drop_last() =~= h@.subrange(0, i as int));
        }
        acc = acc + h[i] as u128;
        i = i + 1;
    }
    proof {
        assert(h@.subrange(0, h@.len() as int) =~= h@);
    }
    acc
}

/// The indices of the live (non-zero) hands, in ascending order.
pub fn alive_indexes(h: &Vec<u32>) -> (r: Vec<usize>)
    ensures
        forall|j: int| 0 <= j < r@.len() ==> r@[j] < h@.len() && h@[r@[j] as int] != 0,
        forall|j1: int, j2: int| 0 <= j1 < j2 < r@.len() ==> r@[j1] < r@[j2],
        forall|k: usize| k < h@.len() && h@[k as int] != 0 ==> r@.contains(k),
        !all_zero(h@) ==> r@.len() > 0,
{
    let mut r: Vec<usize> = Vec::new();
    let mut k: usize = 0;
    while k < h.len()
        invariant
            0 <= k <= h@.len(),
            forall|j: int| 0 <= j < r@.len() ==> r@[j] < k && h@[r@[j] as int] != 0,
            forall|j1: int, j2: int| 0 <= j1 < j2 < r@.len() ==> r@[j1] < r@[j2],
            forall|t: usize| t < k && h@[t as int] != 0 ==> r@.contains(t),
        decreases h@.len() - k,
    {
        if h[k] != 0 {
            let ghost prev = r@;
            r.push(k);
            assert forall|t: usize| t < k + 1 && h@[t as int] != 0 implies r@.contains(t) by {
                if t < k {
                    assert(prev.contains(t));
                    let j = choose|j: int| 0 <= j < prev.len() && prev[j] == t;
                    assert(r@[j] == t);
                } else {
                    assert(r@[r@.len() - 1] == t);
                }
            }
        }
        k = k + 1;
    }
    proof {
        if !all_zero(h@) {
            let w = choose|w: int| 0 <= w < h@.len() && h@[w] != 0;
            assert(r@.contains(w as usize));
        }
    }
    r
}

/// A two-hand array whose values lie below the rollover totals at most
/// `2 * (rollover - 1)`.
pub proof fn lemma_two_hand_total(h: Seq<u32>, rollover: u32)
    requires
        h.len() == 2,
        hands_below(h, rollover),
        rollover >= 1,
    ensures
        0 <= fingers_total(h) <= 2 * (rollover - 1),
{
    assert(fingers_total(h) == fingers_total(h.drop_last()) + h[1]);
    assert(fingers_total(h.drop_last()) == fingers_total(h.drop_last().drop_last()) + h[0]);
    assert(h.drop_last().drop_last() =~= Seq::<u32>::empty());
    assert(fingers_total(Seq::<u32>::empty()) == 0);
}

/// Whether every hand in the array is dead.
pub fn hands_all_zero(h: &Vec<u32>) -> (r: bool)
    ensures
        r == all_zero(h@),
{
    let mut k: usize = 0;
    while k < h.len()
        invariant
            0 <= k <= h@.len(),
            forall|t: int| 0 <= t < k ==> h@[t] == 0,
        decreases h@.len() - k,
    {
        if h[k] != 0 {
            return false;
        }
        k = k + 1;
    }
    true
}

/// Row-major pairs over strictly increasing index lists come out in
/// strictly increasing lexicographic order.
pub proof fn lemma_pairs_lex(
    xs: Seq<usize>,
    ys: Seq<usize>,
    pairs: Seq<(usize, usize)>,
    u1: int,
    u2: int,
)
    requires
        pairs.len() == xs.len() * ys.len(),
        ys.len() > 0,
        forall|x: int, y: int|
            0 <= x < xs.len() && 0 <= y < ys.len() ==> pairs[x * ys.len() + y] == ((xs[x], ys[y])),
        forall|t1: int, t2: int| 0 <= t1 < t2 < xs.len() ==> xs[t1] < xs[t2],
        forall|t1: int, t2: int| 0 <= t1 < t2 < ys.len() ==> ys[t1] < ys[t2],
        0 <= u1 < u2 < pairs.len(),
    ensures
        pairs[u1].0 < pairs[u2].0 || (pairs[u1].0 == pairs[u2].0 && pairs[u1].1 < pairs[u2].1),
{
    let blen = ys.len() as int;
    let q1 = u1 / blen;
    let w1 = u1 % blen;
    let q2 = u2 / blen;
    let w2 = u2 % blen;
    vstd::arithmetic::div_mod::lemma_fundamental_div_mod(u1, blen);
    vstd::arithmetic::div_mod::lemma_fundamental_div_mod(u2, blen);
    assert(0 <= w1 < blen && 0 <= w2 < blen) by (nonlinear_arith)
        requires
            blen > 0,
            w1 == u1 % blen,
            w2 == u2 % blen,
    ;
    assert(0 <= q1 < xs.len() && 0 <= q2 < xs.len()) by (nonlinear_arith)
        requires
            blen > 0,
            q1 == u1 / blen,
            q2 == u2 / blen,
            0 <= u1 < xs.len() * blen,
            0 <= u2 < xs.len() * blen,
    ;
    vstd::arithmetic::div_mod::lemma_div_is_ordered(u1, u2, blen);
    assert(u1 == q1 * blen + w1 && u2 == q2 * blen + w2) by (nonlinear_arith)
        requires
            u1 == blen * q1 + w1,
            u2 == blen * q2 + w2,
    ;
    assert(pairs[q1 * blen + w1] == ((xs[q1], ys[w1])));
    assert(pairs[q2 * blen + w2] == ((xs[q2], ys[w2])));
    if q1 == q2 {
        assert(w1 < w2);
        assert(ys[w1] < ys[w2]);
    } else {
        assert(q1 < q2);
        assert(xs[q1] < xs[q2]);
    }
}

/// Relies on itertools' `cartesian_product`: the pairs come in row-major
/// order, each one combining a left item with a right item.
#[verifier::external_body]
pub(crate) fn cartesian_pairs(xs: &Vec<usize>, ys: &Vec<usize>) -> (r: Vec<(usize, usize)>)
    ensures
        r@.len() == xs@.len() * ys@.len(),
        forall|i: int, j: int|
            0 <= i < xs@.len() && 0 <= j < ys@.len() ==> r@[i * ys@.len() + j] == ((
            xs@[i],
            ys@[j],
            )),
{
    xs.iter().copied().cartesian_product(ys.iter().copied()).collect()
}

} // verus!
