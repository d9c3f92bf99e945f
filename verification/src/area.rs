//! Counting integer cells: how many points of a range satisfy a predicate,
//! sums over ranges, and the length of a union of intervals.

use vstd::prelude::*;

use crate::geometry::MAX_EDGE;
use crate::sorting::sorted_by;

verus! {

/// How many integers in `[lo, hi)` satisfy `p`.
pub open spec fn count_range(p: spec_fn(int) -> bool, lo: int, hi: int) -> int
    decreases hi - lo,
{
    if hi <= lo {
        0
    } else {
        count_range(p, lo, hi - 1) + if p(hi - 1) {
            1int
        } else {
            0int
        }
    }
}

/// The sum of `f` over the integers in `[lo, hi)`.
pub open spec fn sum_range(f: spec_fn(int) -> int, lo: int, hi: int) -> int
    decreases hi - lo,
{
    if hi <= lo {
        0
    } else {
        sum_range(f, lo, hi - 1) + f(hi - 1)
    }
}

pub proof fn lemma_count_split(p: spec_fn(int) -> bool, lo: int, mid: int, hi: int)
    requires
        lo <= mid <= hi,
    ensures
        count_range(p, lo, hi) == count_range(p, lo, mid) + count_range(p, mid, hi),
    decreases hi - mid,
{
    if hi > mid {
        lemma_count_split(p, lo, mid, hi - 1);
    }
}

pub proof fn lemma_count_bounds(p: spec_fn(int) -> bool, lo: int, hi: int)
    requires
        lo <= hi,
    ensures
        0 <= count_range(p, lo, hi) <= hi - lo,
    decreases hi - lo,
{
    if hi > lo {
        lemma_count_bounds(p, lo, hi - 1);
    }
}

pub proof fn lemma_count_all(p: spec_fn(int) -> bool, lo: int, hi: int)
    requires
        lo <= hi,
        forall|z: int| lo <= z < hi ==> #[trigger] p(z),
    ensures
        count_range(p, lo, hi) == hi - lo,
    decreases hi - lo,
{
    if hi > lo {
        lemma_count_all(p, lo, hi - 1);
    }
}

pub proof fn lemma_count_none(p: spec_fn(int) -> bool, lo: int, hi: int)
    requires
        forall|z: int| lo <= z < hi ==> !#[trigger] p(z),
    ensures
        count_range(p, lo, hi) == 0,
    decreases hi - lo,
{
    if hi > lo {
        lemma_count_none(p, lo, hi - 1);
    }
}

pub proof fn lemma_count_ext(p: spec_fn(int) -> bool, q: spec_fn(int) -> bool, lo: int, hi: int)
    requires
        forall|z: int| lo <= z < hi ==> #[trigger] p(z) == q(z),
    ensures
        count_range(p, lo, hi) == count_range(q, lo, hi),
    decreases hi - lo,
{
    if hi > lo {
        lemma_count_ext(p, q, lo, hi - 1);
        assert(p(hi - 1) == q(hi - 1));
    }
}

pub proof fn lemma_sum_split(f: spec_fn(int) -> int, lo: int, mid: int, hi: int)
    requires
        lo <= mid <= hi,
    ensures
        sum_range(f, lo, hi) == sum_range(f, lo, mid) + sum_range(f, mid, hi),
    decreases hi - mid,
{
    if hi > mid {
        lemma_sum_split(f, lo, mid, hi - 1);
    }
}

pub proof fn lemma_sum_const(f: spec_fn(int) -> int, lo: int, hi: int, c: int)
    requires
        lo <= hi,
        forall|x: int| lo <= x < hi ==> #[trigger] f(x) == c,
    ensures
        sum_range(f, lo, hi) == (hi - lo) * c,
    decreases hi - lo,
{
    if hi > lo {
        lemma_sum_const(f, lo, hi - 1, c);
        assert(f(hi - 1) == c);
        assert((hi - 1 - lo) * c + c == (hi - lo) * c) by (nonlinear_arith);
    } else {
        assert((hi - lo) * c == 0) by (nonlinear_arith)
            requires hi == lo;
    }
}

pub proof fn lemma_sum_le(f: spec_fn(int) -> int, lo: int, hi: int, c: int)
    requires
        lo <= hi,
        forall|x: int| lo <= x < hi ==> #[trigger] f(x) <= c,
    ensures
        sum_range(f, lo, hi) <= (hi - lo) * c,
    decreases hi - lo,
{
    if hi > lo {
        lemma_sum_le(f, lo, hi - 1, c);
        assert(f(hi - 1) <= c);
        assert((hi - 1 - lo) * c + c == (hi - lo) * c) by (nonlinear_arith);
    } else {
        assert((hi - lo) * c == 0) by (nonlinear_arith)
            requires hi == lo;
    }
}

pub proof fn lemma_sum_lt(f: spec_fn(int) -> int, lo: int, hi: int, c: int, at: int)
    requires
        lo <= at < hi,
        forall|x: int| lo <= x < hi ==> #[trigger] f(x) <= c,
        f(at) < c,
    ensures
        sum_range(f, lo, hi) < (hi - lo) * c,
{
    lemma_sum_split(f, lo, at, hi);
    lemma_sum_split(f, at, at + 1, hi);
    lemma_sum_le(f, lo, at, c);
    lemma_sum_le(f, at + 1, hi, c);
    assert(sum_range(f, at, at + 1) == f(at)) by {
        assert(sum_range(f, at, at) == 0);
    }
    assert((at - lo) * c + c + (hi - at - 1) * c == (hi - lo) * c) by (nonlinear_arith);
}

/// Some of the first `k` intervals `[z0, z1)` holds `z`.
pub open spec fn in_intervals(iv: Seq<(u32, u32)>, k: int, z: int) -> bool {
    exists|j: int| 0 <= j < k && #[trigger] iv[j].0 <= z && z < iv[j].1
}

proof fn lemma_in_intervals_step(s: Seq<(u32, u32)>, k: int, z: int)
    requires
        0 <= k < s.len(),
    ensures
        in_intervals(s, k + 1, z) == (in_intervals(s, k, z) || (s[k].0 <= z && z < s[k].1)),
{
    if in_intervals(s, k + 1, z) {
        let j = choose|j: int| 0 <= j < k + 1 && #[trigger] s[j].0 <= z && z < s[j].1;
        if j < k {
            assert(s[j].0 <= z && z < s[j].1);
        }
    }
    if in_intervals(s, k, z) {
        let j = choose|j: int| 0 <= j < k && #[trigger] s[j].0 <= z && z < s[j].1;
        assert(s[j].0 <= z && z < s[j].1);
    }
    if s[k].0 <= z && z < s[k].1 {
        assert(s[k].0 <= z && z < s[k].1);
    }
}

/// The number of integers in `[0, MAX_EDGE)` that some of the first `k`
/// intervals hold.
pub open spec fn union_length(iv: Seq<(u32, u32)>, k: int) -> int {
    count_range(|z: int| in_intervals(iv, k, z), 0, MAX_EDGE as int)
}

/// Intervals ordered by their start.
pub open spec fn by_start(a: (u32, u32), b: (u32, u32)) -> bool {
    a.0 < b.0 || (a.0 == b.0 && a.1 <= b.1)
}

/// The length of the union of intervals sorted by start, each with
/// `z0 <= z1 <= MAX_EDGE`, merged from left to right.
pub fn merged_length(iv: &Vec<(u32, u32)>) -> (r: u64)
    requires
        sorted_by(iv@, |a: (u32, u32), b: (u32, u32)| by_start(a, b)),
        forall|j: int| 0 <= j < iv@.len() ==> #[trigger] iv@[j].0 <= iv@[j].1 <= MAX_EDGE,
    ensures
        r == union_length(iv@, iv@.len() as int),
        r <= MAX_EDGE,
{
    let ghost s = iv@;
    let ghost m = MAX_EDGE as int;
    let mut covered: u64 = 0;
    let mut current: Option<(u32, u32)> = None;
    let mut k: usize = 0;
    while k < iv.len()
        invariant
            s == iv@,
            m == MAX_EDGE,
            k <= s.len(),
            sorted_by(s, |a: (u32, u32), b: (u32, u32)| by_start(a, b)),
            forall|j: int| 0 <= j < s.len() ==> #[trigger] s[j].0 <= s[j].1 <= MAX_EDGE,
            current is None <==> k == 0,
            current is None ==> covered == 0,
            current matches Some(c) ==> c.0 <= c.1 <= MAX_EDGE,
            current matches Some(c) ==> covered <= c.0,
            current matches Some(c) ==> forall|j: int| k <= j < s.len() ==> c.0 <= #[trigger] s[j].0,
            current matches Some(c) ==> forall|z: int| c.1 <= z ==> !in_intervals(s, k as int, z),
            current matches Some(c) ==> forall|z: int| c.0 <= z < c.1 ==> in_intervals(s, k as int, z),
            current matches Some(c) ==> covered == count_range(|z: int| in_intervals(s, k as int, z), 0, c.0 as int),
        decreases s.len() - k,
    {
        let (a, b) = iv[k];
        let ghost pk = |z: int| in_intervals(s, k as int, z);
        let ghost pn = |z: int| in_intervals(s, k + 1, z);
        proof {
            assert forall|z: int| #[trigger] pn(z) == (pk(z) || (a <= z && z < b)) by {
                lemma_in_intervals_step(s, k as int, z);
            }
            assert forall|j: int| k + 1 <= j < s.len() implies a <= #[trigger] s[j].0 by {
                let leq = |x: (u32, u32), y: (u32, u32)| by_start(x, y);
                assert(leq(s[k as int], s[j]));
            }
        }
        match current {
            Some((c0, c1)) => {
                if a <= c1 {
                    let top = if c1 >= b {
                        c1
                    } else {
                        b
                    };
                    proof {
                        lemma_count_ext(pk, pn, 0, c0 as int);
                        assert forall|z: int| top <= z implies !#[trigger] in_intervals(s, k + 1, z) by {
                            lemma_in_intervals_step(s, k as int, z);
                        }
                        assert forall|z: int| c0 <= z < top implies #[trigger] in_intervals(s, k + 1, z) by {
                            lemma_in_intervals_step(s, k as int, z);
                        }
                    }
                    current = Some((c0, top));
                } else {
                    proof {
                        lemma_count_ext(pk, pn, 0, a as int);
                        lemma_count_split(pk, 0, c0 as int, a as int);
                        lemma_count_split(pk, c0 as int, c1 as int, a as int);
                        lemma_count_all(pk, c0 as int, c1 as int);
                        lemma_count_none(pk, c1 as int, a as int);
                    }
                    proof {
                        assert forall|z: int| b <= z implies !#[trigger] in_intervals(s, k + 1, z) by {
                            lemma_in_intervals_step(s, k as int, z);
                        }
                        assert forall|z: int| a <= z < b implies #[trigger] in_intervals(s, k + 1, z) by {
                            lemma_in_intervals_step(s, k as int, z);
                        }
                    }
                    covered = covered + (c1 - c0) as u64;
                    current = Some((a, b));
                }
            },
            None => {
                proof {
                    assert forall|z: int| 0 <= z < a implies !#[trigger] pn(z) by {}
                    lemma_count_none(pn, 0, a as int);
                    assert forall|z: int| b <= z implies !#[trigger] in_intervals(s, k + 1, z) by {
                        lemma_in_intervals_step(s, k as int, z);
                    }
                    assert forall|z: int| a <= z < b implies #[trigger] in_intervals(s, k + 1, z) by {
                        lemma_in_intervals_step(s, k as int, z);
                    }
                }
                current = Some((a, b));
            },
        }
        k = k + 1;
    }
    let ghost pall = |z: int| in_intervals(s, s.len() as int, z);
    match current {
        Some((c0, c1)) => {
            proof {
                lemma_count_split(pall, 0, c0 as int, m);
                lemma_count_split(pall, c0 as int, c1 as int, m);
                lemma_count_all(pall, c0 as int, c1 as int);
                lemma_count_none(pall, c1 as int, m);
            }
            covered + (c1 - c0) as u64
        },
        None => {
            proof {
                assert forall|z: int| 0 <= z < m implies !#[trigger] pall(z) by {}
                lemma_count_none(pall, 0, m);
            }
            0
        },
    }
}

} // verus!
