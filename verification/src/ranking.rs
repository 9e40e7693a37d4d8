//! Ordering the places of a sequence of numbers from the greatest to the least.

use vstd::prelude::*;

verus! {

/// Whether place `i` comes before place `j`: by the greater number, among equals by the place.
pub open spec fn before(s: Seq<u32>, i: usize, j: usize) -> bool {
    crate::bits::rank(s[i as int]) > crate::bits::rank(s[j as int]) || (crate::bits::rank(
        s[i as int],
    ) == crate::bits::rank(s[j as int]) && i < j)
}

/// Every place in `r` comes before all that follow it.
pub open spec fn in_order(s: Seq<u32>, r: Seq<usize>) -> bool {
    forall|a: int, b: int| 0 <= a < b < r.len() ==> before(s, #[trigger] r[a], #[trigger] r[b])
}

/// `r` holds the places from `lo` to `hi`.
pub open spec fn holds_range(r: Seq<usize>, lo: int, hi: int) -> bool {
    &&& r.len() == hi - lo
    &&& forall|a: int| 0 <= a < r.len() ==> lo <= #[trigger] r[a] < hi
    &&& forall|x: usize| lo <= x < hi ==> #[trigger] r.contains(x)
}

/// `r` is the order of all places of `s`.
pub open spec fn is_ranking(s: Seq<u32>, r: Seq<usize>) -> bool {
    holds_range(r, 0, s.len() as int) && in_order(s, r)
}

/// Whether place `i` comes before place `j`.
fn comes_before(s: &[u32], i: usize, j: usize) -> (r: bool)
    requires
        i < s@.len(),
        j < s@.len(),
    ensures
        r == before(s@, i, j),
{
    let a: i64 = crate::bits::get_rank(s[i]);
    let b: i64 = crate::bits::get_rank(s[j]);
    a > b || (a == b && i < j)
}

/// What stays in a sequence when one more element joins.
proof fn lemma_push_contains(r: Seq<usize>, x: usize)
    ensures
        r.push(x).contains(x),
        forall|y: usize| r.contains(y) ==> #[trigger] r.push(x).contains(y),
{
    assert(r.push(x)[r.len() as int] == x);
    assert forall|y: usize| r.contains(y) implies #[trigger] r.push(x).contains(y) by {
        let k = choose|k: int| 0 <= k < r.len() && r[k] == y;
        assert(r.push(x)[k] == y);
    }
}

/// Merges the orders of two neighbouring ranges.
fn merge(
    s: &[u32],
    left: &Vec<usize>,
    right: &Vec<usize>,
    lo: Ghost<int>,
    mid: Ghost<int>,
    hi: Ghost<int>,
) -> (r: Vec<usize>)
    requires
        0 <= lo@ <= mid@ <= hi@ <= s@.len(),
        holds_range(left@, lo@, mid@),
        holds_range(right@, mid@, hi@),
        in_order(s@, left@),
        in_order(s@, right@),
    ensures
        holds_range(r@, lo@, hi@),
        in_order(s@, r@),
{
    let mut r: Vec<usize> = Vec::with_capacity(left.len());
    let mut i: usize = 0;
    let mut j: usize = 0;
    while i < left.len() || j < right.len()
        invariant
            0 <= lo@ <= mid@ <= hi@ <= s@.len(),
            holds_range(left@, lo@, mid@),
            holds_range(right@, mid@, hi@),
            in_order(s@, left@),
            in_order(s@, right@),
            i <= left@.len(),
            j <= right@.len(),
            r@.len() == i + j,
            in_order(s@, r@),
            forall|a: int| 0 <= a < r@.len() ==> lo@ <= #[trigger] r@[a] < hi@,
            forall|a: int, b: int|
                0 <= a < r@.len() && i <= b < left@.len() ==> before(
                    s@,
                    #[trigger] r@[a],
                    #[trigger] left@[b],
                ),
            forall|a: int, b: int|
                0 <= a < r@.len() && j <= b < right@.len() ==> before(
                    s@,
                    #[trigger] r@[a],
                    #[trigger] right@[b],
                ),
            forall|a: int| 0 <= a < i ==> r@.contains(#[trigger] left@[a]),
            forall|a: int| 0 <= a < j ==> r@.contains(#[trigger] right@[a]),
        decreases left@.len() + right@.len() - i - j,
    {
        let from_left: bool = if i == left.len() {
            false
        } else if j == right.len() {
            true
        } else {
            comes_before(s, left[i], right[j])
        };
        let ghost old_r = r@;
        if from_left {
            let x: usize = left[i];
            proof {
                lemma_push_contains(old_r, x);
                if j < right@.len() {
                    assert(before(s@, x, right@[j as int]));
                    assert forall|b: int| j <= b < right@.len() implies before(
                        s@,
                        x,
                        #[trigger] right@[b],
                    ) by {
                        if b > j {
                            assert(before(s@, right@[j as int], right@[b]));
                        }
                    }
                }
            }
            r.push(x);
            i = i + 1;
        } else {
            let x: usize = right[j];
            proof {
                lemma_push_contains(old_r, x);
                if i < left@.len() {
                    assert(left@[i as int] < mid@ <= right@[j as int]);
                    assert(before(s@, x, left@[i as int]));
                    assert forall|b: int| i <= b < left@.len() implies before(
                        s@,
                        x,
                        #[trigger] left@[b],
                    ) by {
                        if b > i {
                            assert(before(s@, left@[i as int], left@[b]));
                        }
                    }
                }
            }
            r.push(x);
            j = j + 1;
        }
    }
    assert forall|x: usize| lo@ <= x < hi@ implies #[trigger] r@.contains(x) by {
        if x < mid@ {
            assert(left@.contains(x));
            let a = choose|a: int| 0 <= a < left@.len() && left@[a] == x;
            assert(r@.contains(left@[a]));
        } else {
            assert(right@.contains(x));
            let a = choose|a: int| 0 <= a < right@.len() && right@[a] == x;
            assert(r@.contains(right@[a]));
        }
    }
    r
}

/// The order of the places from `lo` to `hi`.
fn rank_range(s: &[u32], lo: usize, hi: usize) -> (r: Vec<usize>)
    requires
        lo <= hi <= s@.len(),
    ensures
        holds_range(r@, lo as int, hi as int),
        in_order(s@, r@),
    decreases hi - lo,
{
    if hi - lo <= 1 {
        let mut r: Vec<usize> = Vec::new();
        if lo < hi {
            r.push(lo);
            assert(r@[0] == lo);
            assert(r@.contains(lo));
        }
        return r;
    }
    let mid: usize = lo + (hi - lo) / 2;
    let left: Vec<usize> = rank_range(s, lo, mid);
    let right: Vec<usize> = rank_range(s, mid, hi);
    merge(s, &left, &right, Ghost(lo as int), Ghost(mid as int), Ghost(hi as int))
}

/// The places of `s` from the greatest number to the least; equal numbers keep their order.
pub fn rank_places(s: &[u32]) -> (r: Vec<usize>)
    ensures
        is_ranking(s@, r@),
{
    rank_range(s, 0, s.len())
}

/// Two orders of the same places agree: a place stands where as many places come before it.
pub proof fn law_ranking_is_unique(s: Seq<u32>, p: Seq<usize>, q: Seq<usize>)
    requires
        is_ranking(s, p),
        is_ranking(s, q),
    ensures
        p == q,
{
    assert forall|k: int| 0 <= k < p.len() implies p[k] == q[k] by {
        lemma_agree(s, p, q, k);
    }
    assert(p =~= q);
}

/// The agreement of two orders up to and including place `k`.
proof fn lemma_agree(s: Seq<u32>, p: Seq<usize>, q: Seq<usize>, k: int)
    requires
        is_ranking(s, p),
        is_ranking(s, q),
        0 <= k < p.len(),
    ensures
        p[k] == q[k],
    decreases k,
{
    assert forall|j: int| 0 <= j < k implies p[j] == q[j] by {
        lemma_agree(s, p, q, j);
    }
    assert(q.contains(p[k]));
    assert(p.contains(q[k]));
    let a = choose|a: int| 0 <= a < q.len() && q[a] == p[k];
    let b = choose|b: int| 0 <= b < p.len() && p[b] == q[k];
    if a < k {
        assert(p[a] == q[a]);
        assert(before(s, p[a], p[k]));
    }
    if b < k {
        assert(q[b] == p[b]);
        assert(before(s, q[b], q[k]));
    }
    if a > k {
        assert(before(s, q[k], q[a]));
        if b > k {
            assert(before(s, p[k], p[b]));
        }
    }
}

} // verus!
