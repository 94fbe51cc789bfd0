//! Counting the integers of an interval that satisfy a predicate, and the
//! facts about such counts that the index proofs rest on.
use vstd::prelude::*;

verus! {

/// Number of integers `i` with `lo <= i < hi` for which `p(i)` holds.
pub open spec fn count_in(lo: int, hi: int, p: spec_fn(int) -> bool) -> nat
    decreases hi - lo,
{
    if hi <= lo {
        0
    } else {
        count_in(lo, hi - 1, p) + if p(hi - 1) { 1nat } else { 0nat }
    }
}

/// A count over a range never exceeds the length of the range.
pub proof fn lemma_count_bound(lo: int, hi: int, p: spec_fn(int) -> bool)
    requires
        lo <= hi,
    ensures
        count_in(lo, hi, p) <= hi - lo,
    decreases hi - lo,
{
    if lo < hi {
        lemma_count_bound(lo, hi - 1, p);
    }
}

/// Predicates that agree on the range have the same count.
pub proof fn lemma_count_ext(lo: int, hi: int, p: spec_fn(int) -> bool, q: spec_fn(int) -> bool)
    requires
        forall|i: int| lo <= i < hi ==> #[trigger] p(i) == q(i),
    ensures
        count_in(lo, hi, p) == count_in(lo, hi, q),
    decreases hi - lo,
{
    if lo < hi {
        lemma_count_ext(lo, hi - 1, p, q);
        assert(p(hi - 1) == q(hi - 1));
    }
}

/// A range splits at any point in between.
pub proof fn lemma_count_split(lo: int, mid: int, hi: int, p: spec_fn(int) -> bool)
    requires
        lo <= mid <= hi,
    ensures
        count_in(lo, hi, p) == count_in(lo, mid, p) + count_in(mid, hi, p),
    decreases hi - mid,
{
    if mid < hi {
        lemma_count_split(lo, mid, hi - 1, p);
    }
}

/// Where the predicate holds nowhere, the count is zero.
pub proof fn lemma_count_none(lo: int, hi: int, p: spec_fn(int) -> bool)
    requires
        forall|i: int| lo <= i < hi ==> !#[trigger] p(i),
    ensures
        count_in(lo, hi, p) == 0,
    decreases hi - lo,
{
    if lo < hi {
        lemma_count_none(lo, hi - 1, p);
        assert(!p(hi - 1));
    }
}

/// Where the predicate holds everywhere, the count is the length of the range.
pub proof fn lemma_count_all(lo: int, hi: int, p: spec_fn(int) -> bool)
    requires
        lo <= hi,
        forall|i: int| lo <= i < hi ==> #[trigger] p(i),
    ensures
        count_in(lo, hi, p) == hi - lo,
    decreases hi - lo,
{
    if lo < hi {
        lemma_count_all(lo, hi - 1, p);
        assert(p(hi - 1));
    }
}

/// The count grows with the range.
pub proof fn lemma_count_monotone(lo: int, a: int, b: int, p: spec_fn(int) -> bool)
    requires
        lo <= a <= b,
    ensures
        count_in(lo, a, p) <= count_in(lo, b, p),
{
    lemma_count_split(lo, a, b, p);
}

/// Moving the range and the predicate by the same distance keeps the count.
pub proof fn lemma_count_shift(
    lo: int,
    hi: int,
    p: spec_fn(int) -> bool,
    q: spec_fn(int) -> bool,
    d: int,
)
    requires
        forall|i: int| lo <= i < hi ==> #[trigger] p(i) == q(i + d),
    ensures
        count_in(lo, hi, p) == count_in(lo + d, hi + d, q),
    decreases hi - lo,
{
    if lo < hi {
        lemma_count_shift(lo, hi - 1, p, q, d);
        assert(p(hi - 1) == q(hi - 1 + d));
    }
}

/// The count of a disjunction of two predicates that never hold together is
/// the sum of their counts.
pub proof fn lemma_count_disjoint_or(
    lo: int,
    hi: int,
    p: spec_fn(int) -> bool,
    q: spec_fn(int) -> bool,
    r: spec_fn(int) -> bool,
)
    requires
        forall|i: int| lo <= i < hi ==> (#[trigger] r(i) <==> (p(i) || q(i))),
        forall|i: int| lo <= i < hi ==> !(#[trigger] p(i) && q(i)),
    ensures
        count_in(lo, hi, r) == count_in(lo, hi, p) + count_in(lo, hi, q),
    decreases hi - lo,
{
    if lo < hi {
        lemma_count_disjoint_or(lo, hi - 1, p, q, r);
        assert(r(hi - 1) <==> (p(hi - 1) || q(hi - 1)));
        assert(!(p(hi - 1) && q(hi - 1)));
    }
}

/// Where `p` holds only where `q` holds, `p` is counted no more often than
/// `q`; and less often if `q` holds at a point `w` where `p` does not.
pub proof fn lemma_count_implies(
    lo: int,
    hi: int,
    p: spec_fn(int) -> bool,
    q: spec_fn(int) -> bool,
    w: int,
)
    requires
        forall|i: int| lo <= i < hi && #[trigger] p(i) ==> q(i),
    ensures
        count_in(lo, hi, p) <= count_in(lo, hi, q),
        lo <= w < hi && q(w) && !p(w) ==> count_in(lo, hi, p) < count_in(lo, hi, q),
    decreases hi - lo,
{
    if lo < hi {
        lemma_count_implies(lo, hi - 1, p, q, w);
        if p(hi - 1) {
            assert(q(hi - 1));
        }
    }
}

/// True when `p` holds on an initial part of `[lo, hi)` and nowhere after it.
pub open spec fn holds_on_prefix(lo: int, hi: int, p: spec_fn(int) -> bool) -> bool {
    forall|i: int, j: int| lo <= i <= j < hi && #[trigger] p(j) ==> #[trigger] p(i)
}

/// For a predicate that holds on an initial part of the range, the count is
/// the length of that part.
pub proof fn lemma_count_prefix(lo: int, hi: int, p: spec_fn(int) -> bool, i: int)
    requires
        holds_on_prefix(lo, hi, p),
        lo <= i < hi,
    ensures
        p(i) <==> i < lo + count_in(lo, hi, p),
    decreases hi - lo,
{
    let last = hi - 1;
    if p(last) {
        assert forall|k: int| lo <= k < hi implies #[trigger] p(k) by {
            assert(p(last));
        }
        lemma_count_all(lo, hi, p);
    } else {
        if i < last {
            assert(holds_on_prefix(lo, last, p));
            lemma_count_prefix(lo, last, p, i);
        } else {
            lemma_count_bound(lo, last, p);
        }
    }
}

/// Between two points of the range the running count takes every value in
/// between, each at a point where the predicate holds.
pub proof fn lemma_count_reaches(lo: int, s: int, e: int, p: spec_fn(int) -> bool, x: int) -> (j: int)
    requires
        lo <= s <= e,
        count_in(lo, s, p) <= x < count_in(lo, e, p),
    ensures
        s <= j < e,
        p(j),
        count_in(lo, j, p) == x,
    decreases e - s,
{
    if count_in(lo, e - 1, p) <= x {
        e - 1
    } else {
        lemma_count_reaches(lo, s, e - 1, p, x)
    }
}

/// A one-to-one correspondence between two ranges that carries one predicate
/// to the other keeps the count.
pub proof fn lemma_count_bijection(
    lo: int,
    hi: int,
    p: spec_fn(int) -> bool,
    lo2: int,
    hi2: int,
    q: spec_fn(int) -> bool,
    f: spec_fn(int) -> int,
    g: spec_fn(int) -> int,
)
    requires
        forall|i: int| lo <= i < hi ==> lo2 <= #[trigger] f(i) < hi2 && g(f(i)) == i,
        forall|j: int| lo2 <= j < hi2 ==> lo <= #[trigger] g(j) < hi && f(g(j)) == j,
        forall|i: int| lo <= i < hi ==> #[trigger] p(i) == q(f(i)),
    ensures
        count_in(lo, hi, p) == count_in(lo2, hi2, q),
    decreases hi - lo,
{
    if hi <= lo {
        assert forall|j: int| lo2 <= j < hi2 implies !#[trigger] q(j) by {
            assert(lo <= g(j) < hi);
        }
        lemma_count_none(lo2, hi2, q);
    } else {
        let i0 = hi - 1;
        let j0 = f(i0);
        let skip = |j: int| if j >= j0 { j + 1 } else { j };
        let f1 = |i: int| if f(i) > j0 { f(i) - 1 } else { f(i) };
        let g1 = |j: int| g(skip(j));
        let q1 = |j: int| q(skip(j));
        assert forall|i: int| lo <= i < hi - 1 implies lo2 <= #[trigger] f1(i) < hi2 - 1 && g1(
            f1(i),
        ) == i by {
            assert(lo2 <= f(i) < hi2 && g(f(i)) == i);
            assert(g(f(i0)) == i0);
            assert(skip(f1(i)) == f(i));
        }
        assert forall|j: int| lo2 <= j < hi2 - 1 implies lo <= #[trigger] g1(j) < hi - 1 && f1(
            g1(j),
        ) == j by {
            let k = skip(j);
            assert(lo <= g(k) < hi && f(g(k)) == k);
            assert(g(f(i0)) == i0);
        }
        assert forall|i: int| lo <= i < hi - 1 implies #[trigger] p(i) == q1(f1(i)) by {
            assert(lo2 <= f(i) < hi2 && g(f(i)) == i);
            assert(g(f(i0)) == i0);
            assert(skip(f1(i)) == f(i));
            assert(p(i) == q(f(i)));
        }
        lemma_count_bijection(lo, hi - 1, p, lo2, hi2 - 1, q1, f1, g1);
        // count of q over [lo2, hi2) with j0 taken out
        lemma_count_split(lo2, j0, hi2 - 1, q1);
        assert forall|j: int| lo2 <= j < j0 implies #[trigger] q1(j) == q(j) by {}
        lemma_count_ext(lo2, j0, q1, q);
        assert forall|j: int| j0 <= j < hi2 - 1 implies #[trigger] q1(j) == q(j + 1) by {}
        lemma_count_shift(j0, hi2 - 1, q1, q, 1);
        lemma_count_split(lo2, j0, hi2, q);
        lemma_count_split(j0, j0 + 1, hi2, q);
        assert(count_in(j0, j0 + 1, q) == if q(j0) { 1nat } else { 0nat }) by {
            assert(count_in(j0, j0, q) == 0);
        }
        assert(p(i0) == q(f(i0)));
    }
}

/// Where a strictly increasing `g` lists exactly the points of `[lo, hi)` at
/// which `p` holds, the count before the `k`-th listed point is `k`.
pub proof fn lemma_count_enumerated(
    lo: int,
    hi: int,
    p: spec_fn(int) -> bool,
    m: int,
    g: spec_fn(int) -> int,
    h: spec_fn(int) -> int,
    k: int,
)
    requires
        0 <= k < m,
        forall|a: int| 0 <= a < m ==> lo <= #[trigger] g(a) < hi && p(g(a)),
        forall|a: int, b: int| 0 <= a < b < m ==> #[trigger] g(a) < #[trigger] g(b),
        forall|i: int| lo <= i < hi && #[trigger] p(i) ==> 0 <= h(i) < m && g(h(i)) == i,
    ensures
        count_in(lo, g(k), p) == k,
    decreases k,
{
    if k == 0 {
        assert forall|i: int| lo <= i < g(0) implies !#[trigger] p(i) by {
            if p(i) {
                assert(g(h(i)) == i);
                assert(h(i) == 0 || g(0) < g(h(i)));
            }
        }
        lemma_count_none(lo, g(0), p);
    } else {
        lemma_count_enumerated(lo, hi, p, m, g, h, k - 1);
        let a = g(k - 1);
        let b = g(k);
        assert(a < b);
        lemma_count_split(lo, a, b, p);
        lemma_count_split(a, a + 1, b, p);
        assert(count_in(a, a + 1, p) == 1) by {
            assert(count_in(a, a, p) == 0);
            assert(p(a));
        }
        assert forall|i: int| a + 1 <= i < b implies !#[trigger] p(i) by {
            if p(i) {
                let x = h(i);
                assert(g(x) == i);
                if x < k - 1 {
                    assert(g(x) < g(k - 1));
                } else if x > k {
                    assert(g(k) < g(x));
                }
            }
        }
        lemma_count_none(a + 1, b, p);
    }
}

/// A sequence of different values, all in `0..m`, has at most `m` entries.
pub proof fn lemma_pigeonhole(s: Seq<int>, m: int)
    requires
        0 <= m,
        forall|j: int| 0 <= j < s.len() ==> 0 <= #[trigger] s[j] < m,
        forall|a: int, b: int| 0 <= a < b < s.len() ==> #[trigger] s[a] != #[trigger] s[b],
    ensures
        s.len() <= m,
    decreases s.len(),
{
    if s.len() > 0 {
        let last = s.len() - 1;
        let y = s[last];
        assert(0 <= y < m);
        let rest = Seq::new(last as nat, |j: int| if s[j] > y { s[j] - 1 } else { s[j] });
        assert forall|j: int| 0 <= j < rest.len() implies 0 <= #[trigger] rest[j] < m - 1 by {
            assert(s[j] != s[last]);
        }
        assert forall|a: int, b: int| 0 <= a < b < rest.len() implies #[trigger] rest[a]
            != #[trigger] rest[b] by {
            assert(s[a] != s[b]);
            assert(s[a] != s[last]);
            assert(s[b] != s[last]);
        }
        lemma_pigeonhole(rest, m - 1);
    }
}

/// A sequence of `n` different values, all in `0..n`, holds each of them.
pub proof fn lemma_injective_onto(s: Seq<int>, v: int) -> (j: int)
    requires
        forall|j: int| 0 <= j < s.len() ==> 0 <= #[trigger] s[j] < s.len(),
        forall|a: int, b: int| 0 <= a < b < s.len() ==> #[trigger] s[a] != #[trigger] s[b],
        0 <= v < s.len(),
    ensures
        0 <= j < s.len(),
        s[j] == v,
{
    let n = s.len() as int;
    let hit = |j: int| s[j] == v;
    if count_in(0, n, hit) == 0 {
        assert forall|j: int| 0 <= j < n implies s[j] != v by {
            if s[j] == v {
                lemma_count_split(0, j, n, hit);
                lemma_count_split(j, j + 1, n, hit);
                assert(count_in(j, j, hit) == 0);
                assert(hit(j));
            }
        }
        // `s` would hold n different values out of the n - 1 other than `v`
        let squeezed = Seq::new(n as nat, |j: int| if s[j] > v { s[j] - 1 } else { s[j] });
        lemma_pigeonhole(squeezed, n - 1);
        arbitrary()
    } else {
        lemma_count_reaches(0, 0, n, hit, 0)
    }
}

} // verus!
