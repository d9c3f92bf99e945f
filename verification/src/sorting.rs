//! A stable insertion sort and the order facts that sorting relies on.

use vstd::prelude::*;

verus! {

broadcast use vstd::seq_lib::group_to_multiset_ensures;

/// Every earlier element is `leq` every later one.
pub open spec fn sorted_by<T>(s: Seq<T>, leq: spec_fn(T, T) -> bool) -> bool {
    forall|i: int, j: int| 0 <= i < j < s.len() ==> #[trigger] leq(s[i], s[j])
}

/// `leq` is total and transitive.
pub open spec fn total_preorder<T>(leq: spec_fn(T, T) -> bool) -> bool {
    &&& forall|a: T, b: T| #[trigger] leq(a, b) || leq(b, a)
    &&& forall|a: T, b: T, c: T| #[trigger] leq(a, b) && #[trigger] leq(b, c) ==> leq(a, c)
}

proof fn lemma_insert_multiset<T>(s: Seq<T>, k: int, x: T)
    requires
        0 <= k <= s.len(),
    ensures
        s.insert(k, x).to_multiset() == s.to_multiset().insert(x),
{
    let t = s.insert(k, x);
    assert(t.remove(k) =~= s);
    assert(t[k] == x);
    assert(t.remove(k).to_multiset() == t.to_multiset().remove(x));
    assert(t.to_multiset().count(x) > 0) by {
        assert(t.contains(x));
    }
    assert(t.to_multiset() =~= t.to_multiset().remove(x).insert(x));
}

/// `out` lists the elements of `input` in the order `leq`, with equal
/// elements in their input order: `perm[k]` is the input position of `out[k]`.
pub open spec fn stable_arrangement<T>(
    out: Seq<T>,
    input: Seq<T>,
    leq: spec_fn(T, T) -> bool,
    perm: Seq<int>,
) -> bool {
    &&& perm.len() == out.len()
    &&& out.len() == input.len()
    &&& forall|k: int| 0 <= k < perm.len() ==> 0 <= #[trigger] perm[k] < input.len()
    &&& forall|k: int| 0 <= k < perm.len() ==> #[trigger] out[k] == input[perm[k]]
    &&& forall|i: int, j: int| 0 <= i < j < perm.len() ==> #[trigger] perm[i] != #[trigger] perm[j]
    &&& sorted_by(out, leq)
    &&& forall|i: int, j: int|
        0 <= i < j < out.len() && #[trigger] leq(out[j], out[i]) ==> perm[i] < perm[j]
}

/// `out` is the stable sort of `input` by `leq`.
pub open spec fn stably_sorted<T>(out: Seq<T>, input: Seq<T>, leq: spec_fn(T, T) -> bool) -> bool {
    exists|perm: Seq<int>| stable_arrangement(out, input, leq, perm)
}

/// A stable sort leaves nothing open: two stable arrangements of the same
/// input by the same total preorder are the same sequence.
pub proof fn lemma_stable_sort_is_determined<T>(
    first: Seq<T>,
    second: Seq<T>,
    input: Seq<T>,
    leq: spec_fn(T, T) -> bool,
)
    requires
        total_preorder(leq),
        stably_sorted(first, input, leq),
        stably_sorted(second, input, leq),
    ensures
        first == second,
{
    let p1 = choose|p: Seq<int>| stable_arrangement(first, input, leq, p);
    let p2 = choose|p: Seq<int>| stable_arrangement(second, input, leq, p);
    lemma_arrangement_onto(first, input, leq, p1);
    lemma_arrangement_onto(second, input, leq, p2);
    lemma_arrangements_agree(first, second, input, leq, p1, p2, input.len() as int);
    assert forall|k: int| 0 <= k < first.len() implies first[k] == second[k] by {
        assert(first[k] == input[p1[k]]);
        assert(second[k] == input[p2[k]]);
    }
    assert(first =~= second);
}

/// Every input position occurs in the arrangement.
proof fn lemma_arrangement_onto<T>(out: Seq<T>, input: Seq<T>, leq: spec_fn(T, T) -> bool, perm: Seq<int>)
    requires
        stable_arrangement(out, input, leq, perm),
    ensures
        forall|x: int| 0 <= x < input.len() ==> #[trigger] perm.contains(x),
{
    assert(perm.no_duplicates());
    perm.unique_seq_to_set();
    let range = vstd::set_lib::set_int_range(0, input.len() as int);
    vstd::set_lib::lemma_int_range(0, input.len() as int);
    assert(perm.to_set().subset_of(range)) by {
        assert forall|x: int| perm.to_set().contains(x) implies range.contains(x) by {
            assert(perm.contains(x));
        }
    }
    vstd::set_lib::lemma_len_subset(perm.to_set(), range);
    vstd::set_lib::lemma_subset_equality(perm.to_set(), range);
    assert forall|x: int| 0 <= x < input.len() implies #[trigger] perm.contains(x) by {
        assert(range.contains(x));
        assert(perm.to_set().contains(x));
    }
}

/// Two stable arrangements of one input agree on their first `k` positions.
proof fn lemma_arrangements_agree<T>(
    first: Seq<T>,
    second: Seq<T>,
    input: Seq<T>,
    leq: spec_fn(T, T) -> bool,
    p1: Seq<int>,
    p2: Seq<int>,
    k: int,
)
    requires
        total_preorder(leq),
        stable_arrangement(first, input, leq, p1),
        stable_arrangement(second, input, leq, p2),
        forall|x: int| 0 <= x < input.len() ==> #[trigger] p1.contains(x),
        forall|x: int| 0 <= x < input.len() ==> #[trigger] p2.contains(x),
        0 <= k <= input.len(),
    ensures
        forall|i: int| 0 <= i < k ==> p1[i] == p2[i],
    decreases k,
{
    if k > 0 {
        lemma_arrangements_agree(first, second, input, leq, p1, p2, k - 1);
        let i = k - 1;
        let x = p1[i];
        let y = p2[i];
        if x != y {
            if leq(input[x], input[y]) && (!leq(input[y], input[x]) || x < y) {
                lemma_arrangement_step(first, second, input, leq, p1, p2, i);
            } else {
                lemma_arrangement_step(second, first, input, leq, p2, p1, i);
            }
        }
    }
}

/// Where two stable arrangements agree before `k`, the first cannot hold at
/// `k` an input position that must come before the second's.
proof fn lemma_arrangement_step<T>(
    first: Seq<T>,
    second: Seq<T>,
    input: Seq<T>,
    leq: spec_fn(T, T) -> bool,
    p1: Seq<int>,
    p2: Seq<int>,
    k: int,
)
    requires
        total_preorder(leq),
        stable_arrangement(first, input, leq, p1),
        stable_arrangement(second, input, leq, p2),
        forall|x: int| 0 <= x < input.len() ==> #[trigger] p2.contains(x),
        0 <= k < input.len(),
        forall|i: int| 0 <= i < k ==> p1[i] == p2[i],
    ensures
        !(p1[k] != p2[k] && leq(input[p1[k]], input[p2[k]]) && (!leq(input[p2[k]], input[p1[k]]) || p1[k] < p2[k])),
{
    let x = p1[k];
    let y = p2[k];
    if x != y && leq(input[x], input[y]) && (!leq(input[y], input[x]) || x < y) {
        assert(p2.contains(x));
        let m = choose|m: int| 0 <= m < p2.len() && p2[m] == x;
        if m > k {
            assert(leq(second[k], second[m]));
            assert(second[k] == input[y]);
            assert(second[m] == input[x]);
            assert(leq(second[m], second[k]));
            assert(p2[k] < p2[m]);
        } else {
            assert(m < k);
            assert(p1[m] == x);
        }
    }
}

/// No two positions of `s` hold the same key.
pub open spec fn distinct_keys<T, K>(s: Seq<T>, key: spec_fn(T) -> K) -> bool {
    forall|i: int, j: int| 0 <= i < j < s.len() ==> key(#[trigger] s[i]) != key(#[trigger] s[j])
}

/// No two positions of `s` hold elements that `leq` cannot tell apart.
pub open spec fn no_ties<T>(s: Seq<T>, leq: spec_fn(T, T) -> bool) -> bool {
    forall|i: int, j: int| 0 <= i < j < s.len() ==> !(leq(#[trigger] s[i], #[trigger] s[j]) && leq(s[j], s[i]))
}

/// A rearrangement of a sequence with distinct keys has distinct keys.
pub proof fn lemma_rearranged_keys_distinct<T, K>(s: Seq<T>, t: Seq<T>, key: spec_fn(T) -> K)
    requires
        distinct_keys(s, key),
        t.to_multiset() == s.to_multiset(),
    ensures
        distinct_keys(t, key),
{
    assert(s.no_duplicates()) by {
        assert forall|i: int, j: int| 0 <= i < s.len() && 0 <= j < s.len() && i != j implies s[i] != s[j] by {
            if i < j {
                assert(key(s[i]) != key(s[j]));
            } else {
                assert(key(s[j]) != key(s[i]));
            }
        }
    }
    s.lemma_multiset_has_no_duplicates();
    assert forall|x: T| t.to_multiset().contains(x) implies t.to_multiset().count(x) == 1 by {}
    t.lemma_multiset_has_no_duplicates_conv();
    assert forall|i: int, j: int| 0 <= i < j < t.len() implies key(#[trigger] t[i]) != key(#[trigger] t[j]) by {
        assert(t.contains(t[i]) && t.contains(t[j]));
        assert(t.to_multiset().count(t[i]) > 0 && t.to_multiset().count(t[j]) > 0);
        assert(s.to_multiset().count(t[i]) > 0 && s.to_multiset().count(t[j]) > 0);
        assert(s.contains(t[i]) && s.contains(t[j]));
        let p = choose|p: int| 0 <= p < s.len() && s[p] == t[i];
        let q = choose|q: int| 0 <= q < s.len() && s[q] == t[j];
        assert(t[i] != t[j]);
        if p < q {
            assert(key(s[p]) != key(s[q]));
        } else {
            assert(key(s[q]) != key(s[p]));
        }
    }
}

/// A stable sort holds the input's elements, as many of them, and keeps
/// keys distinct.
pub proof fn lemma_stable_sort_elements<T, K>(out: Seq<T>, input: Seq<T>, leq: spec_fn(T, T) -> bool, key: spec_fn(T) -> K)
    requires
        stably_sorted(out, input, leq),
        distinct_keys(input, key),
    ensures
        out.len() == input.len(),
        forall|x: T| out.contains(x) <==> input.contains(x),
        distinct_keys(out, key),
{
    let perm = choose|p: Seq<int>| stable_arrangement(out, input, leq, p);
    lemma_arrangement_onto(out, input, leq, perm);
    assert forall|x: T| out.contains(x) <==> input.contains(x) by {
        if out.contains(x) {
            let k = choose|k: int| 0 <= k < out.len() && out[k] == x;
            assert(input[perm[k]] == x);
        }
        if input.contains(x) {
            let y = choose|y: int| 0 <= y < input.len() && input[y] == x;
            assert(perm.contains(y));
            let k = choose|k: int| 0 <= k < perm.len() && perm[k] == y;
            assert(out[k] == x);
        }
    }
    assert forall|i: int, j: int| 0 <= i < j < out.len() implies key(#[trigger] out[i]) != key(#[trigger] out[j]) by {
        assert(out[i] == input[perm[i]]);
        assert(out[j] == input[perm[j]]);
        assert(perm[i] != perm[j]);
        if perm[i] < perm[j] {
            assert(key(input[perm[i]]) != key(input[perm[j]]));
        } else {
            assert(key(input[perm[j]]) != key(input[perm[i]]));
        }
    }
}

/// Two sequences sorted by `leq` that hold the same elements, as many of
/// them, with no two positions that `leq` cannot tell apart, are the same
/// sequence.
pub proof fn lemma_sorted_without_ties_is_determined<T>(a: Seq<T>, b: Seq<T>, leq: spec_fn(T, T) -> bool)
    requires
        total_preorder(leq),
        sorted_by(a, leq),
        sorted_by(b, leq),
        a.len() == b.len(),
        forall|x: T| a.contains(x) <==> b.contains(x),
        no_ties(a, leq),
        no_ties(b, leq),
    ensures
        a == b,
{
    lemma_untied_agree(a, b, leq, a.len() as int);
    assert(a =~= b);
}

proof fn lemma_untied_agree<T>(a: Seq<T>, b: Seq<T>, leq: spec_fn(T, T) -> bool, k: int)
    requires
        total_preorder(leq),
        sorted_by(a, leq),
        sorted_by(b, leq),
        a.len() == b.len(),
        forall|x: T| a.contains(x) <==> b.contains(x),
        no_ties(a, leq),
        no_ties(b, leq),
        0 <= k <= a.len(),
    ensures
        forall|i: int| 0 <= i < k ==> a[i] == b[i],
    decreases k,
{
    if k > 0 {
        lemma_untied_agree(a, b, leq, k - 1);
        let i = k - 1;
        if a[i] != b[i] {
            assert(leq(a[i], a[i]) || leq(a[i], a[i]));
            assert(b.contains(a[i]));
            let m = choose|m: int| 0 <= m < b.len() && b[m] == a[i];
            assert(a.contains(b[i]));
            let n = choose|n: int| 0 <= n < a.len() && a[n] == b[i];
            if m < i {
                assert(a[m] == b[m]);
                assert(leq(a[m], a[i]) && leq(a[i], a[m]));
            } else if n < i {
                assert(a[n] == b[n]);
                assert(leq(b[n], b[i]) && leq(b[i], b[n]));
            } else {
                assert(m > i && n > i);
                assert(leq(b[i], b[m]));
                assert(leq(a[i], a[n]));
                assert(leq(a[i], a[n]) && leq(a[n], a[i]));
            }
        }
    }
}

/// Sorts `v` by the order `leq`, keeping equal elements in their input order.
/// `before(a, b)` must tell whether `a` comes strictly before `b`.
pub fn sort_by<T, F: Fn(&T, &T) -> bool>(
    v: Vec<T>,
    before: F,
    Ghost(leq): Ghost<spec_fn(T, T) -> bool>,
) -> (out: Vec<T>)
    requires
        total_preorder(leq),
        forall|a: &T, b: &T| #[trigger] before.requires((a, b)),
        forall|a: &T, b: &T, r: bool| #[trigger] before.ensures((a, b), r) ==> r == !leq(*b, *a),
    ensures
        out@.to_multiset() == v@.to_multiset(),
        sorted_by(out@, leq),
        stably_sorted(out@, v@, leq),
{
    sort_by_in(
        v,
        &before,
        call_with_pair::<T, F>,
        Ghost(leq),
    )
}

fn call_with_pair<T, F: Fn(&T, &T) -> bool>(f: &F, a: &T, b: &T) -> (r: bool)
    requires
        f.requires((a, b)),
    ensures
        f.ensures((a, b), r),
{
    f(a, b)
}

/// Sorts `v` by the order `leq`, keeping equal elements in their input order.
/// `before(ctx, a, b)` must tell whether `a` comes strictly before `b`.
pub fn sort_by_in<C, T, F: Fn(&C, &T, &T) -> bool>(
    v: Vec<T>,
    ctx: &C,
    before: F,
    Ghost(leq): Ghost<spec_fn(T, T) -> bool>,
) -> (out: Vec<T>)
    requires
        total_preorder(leq),
        forall|a: &T, b: &T| #[trigger] before.requires((ctx, a, b)),
        forall|a: &T, b: &T, r: bool| #[trigger] before.ensures((ctx, a, b), r) ==> r == !leq(*b, *a),
    ensures
        out@.to_multiset() == v@.to_multiset(),
        sorted_by(out@, leq),
        stably_sorted(out@, v@, leq),
{
    let ghost original = v@;
    let ghost n = original.len();
    let mut v = v;
    let mut pending: Vec<T> = Vec::with_capacity(v.len());
    while v.len() > 0
        invariant
            pending@.to_multiset().add(v@.to_multiset()) == original.to_multiset(),
            n == original.len(),
            pending@.len() + v@.len() == n,
            forall|k: int| 0 <= k < v@.len() ==> #[trigger] v@[k] == original[k],
            forall|k: int| 0 <= k < pending@.len() ==> #[trigger] pending@[k] == original[n - 1 - k],
        decreases v@.len(),
    {
        let ghost before_pop = v@;
        let x = v.pop().unwrap();
        proof {
            assert(before_pop =~= v@.push(x));
        }
        pending.push(x);
    }
    let mut out: Vec<T> = Vec::with_capacity(pending.len());
    let ghost mut perm: Seq<int> = Seq::empty();
    while pending.len() > 0
        invariant
            out@.to_multiset().add(pending@.to_multiset()) == original.to_multiset(),
            sorted_by(out@, leq),
            total_preorder(leq),
            forall|a: &T, b: &T| #[trigger] before.requires((ctx, a, b)),
            forall|a: &T, b: &T, r: bool| #[trigger] before.ensures((ctx, a, b), r) ==> r == !leq(*b, *a),
            n == original.len(),
            out@.len() + pending@.len() == n,
            forall|k: int| 0 <= k < pending@.len() ==> #[trigger] pending@[k] == original[n - 1 - k],
            perm.len() == out@.len(),
            forall|k: int| 0 <= k < perm.len() ==> 0 <= #[trigger] perm[k] < out@.len(),
            forall|k: int| 0 <= k < perm.len() ==> #[trigger] out@[k] == original[perm[k]],
            forall|i: int, j: int| 0 <= i < j < perm.len() ==> #[trigger] perm[i] != #[trigger] perm[j],
            forall|i: int, j: int|
                0 <= i < j < out@.len() && #[trigger] leq(out@[j], out@[i]) ==> perm[i] < perm[j],
        decreases pending@.len(),
    {
        let ghost before_pop = pending@;
        let ghost m = out@.len() as int;
        let x = pending.pop().unwrap();
        proof {
            assert(before_pop =~= pending@.push(x));
            assert(x == original[m]);
        }
        let mut k = out.len();
        while k > 0 && before(ctx, &x, &out[k - 1])
            invariant
                k <= out@.len(),
                forall|j: int| k <= j < out@.len() ==> !leq(#[trigger] out@[j], x),
                forall|a: &T, b: &T| #[trigger] before.requires((ctx, a, b)),
                forall|a: &T, b: &T, r: bool| #[trigger] before.ensures((ctx, a, b), r) ==> r == !leq(
                    *b,
                    *a,
                ),
            decreases k,
        {
            k = k - 1;
        }
        let ghost old_out = out@;
        let ghost old_perm = perm;
        proof {
            if k > 0 {
                assert(leq(old_out[k - 1], x));
            }
            assert forall|i: int, j: int|
                0 <= i < j < old_out.len() + 1 implies #[trigger] leq(
                old_out.insert(k as int, x)[i],
                old_out.insert(k as int, x)[j],
            ) by {
                let t = old_out.insert(k as int, x);
                if j < k {
                    assert(leq(old_out[i], old_out[j]));
                } else if j == k {
                    assert(leq(old_out[i], old_out[k - 1]) || i == k - 1);
                } else if i > k {
                    assert(leq(old_out[i - 1], old_out[j - 1]));
                } else if i == k {
                    assert(!leq(old_out[j - 1], x));
                } else {
                    assert(leq(old_out[i], old_out[j - 1]));
                }
            }
            lemma_insert_multiset(old_out, k as int, x);
            perm = old_perm.insert(k as int, m);
        }
        out.insert(k, x);
        proof {
            assert(out@ =~= old_out.insert(k as int, x));
            assert(out@.to_multiset().add(pending@.to_multiset()) =~= original.to_multiset());
            assert forall|i: int| 0 <= i < perm.len() implies 0 <= #[trigger] perm[i] < out@.len()
                && out@[i] == original[perm[i]] by {
                if i > k {
                    assert(perm[i] == old_perm[i - 1]);
                } else if i < k {
                    assert(perm[i] == old_perm[i]);
                }
            }
            assert forall|i: int, j: int| 0 <= i < j < perm.len() implies #[trigger] perm[i]
                != #[trigger] perm[j] by {
                if i < k && j < k {
                    assert(old_perm[i] != old_perm[j]);
                } else if i > k && j > k {
                    assert(old_perm[i - 1] != old_perm[j - 1]);
                } else if i < k && j > k {
                    assert(old_perm[i] != old_perm[j - 1]);
                } else if i == k {
                    assert(old_perm[j - 1] < m);
                } else {
                    assert(old_perm[i] < m);
                }
            }
            assert forall|i: int, j: int|
                0 <= i < j < out@.len() && #[trigger] leq(out@[j], out@[i]) implies perm[i]
                < perm[j] by {
                if i < k && j < k {
                    assert(leq(old_out[j], old_out[i]));
                } else if i > k && j > k {
                    assert(leq(old_out[j - 1], old_out[i - 1]));
                } else if i < k && j > k {
                    assert(leq(old_out[j - 1], old_out[i]));
                } else if i == k {
                    assert(!leq(old_out[j - 1], x));
                } else {
                    assert(old_perm[i] < m);
                }
            }
        }
    }
    proof {
        assert(stable_arrangement(out@, original, leq, perm));
    }
    out
}

} // verus!
