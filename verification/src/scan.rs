//! Finding the rows of a pattern by looking at the rotations themselves, one
//! row after the other, without the tables of the index.
use crate::rotation::{lemma_wrap, range_matches, rot, rot_lt, rot_lt_at, rot_match, rows_sorted};
use itertools::Itertools;
use std::ops::Range;
use vstd::prelude::*;

verus! {

/// The rotation at `x` sorts before every string that begins with `q`, and
/// place `d` shows it.
pub open spec fn rot_below_at(t: Seq<u8>, x: int, q: Seq<u8>, d: int) -> bool {
    &&& 0 <= d < q.len()
    &&& forall|k: int|
        #![trigger rot(t, x, k)]
        #![trigger q[k]]
        0 <= k < d ==> rot(t, x, k) == q[k]
    &&& rot(t, x, d) < q[d]
}

/// The rotation at `x` sorts before every string that begins with `q`.
pub open spec fn rot_below(t: Seq<u8>, x: int, q: Seq<u8>) -> bool {
    exists|d: int| rot_below_at(t, x, q, d)
}

/// The rows `s..e` that a scan for `q` finds: `s` is the first row whose
/// rotation does not sort before `q`, and `e` the first row from there on
/// whose rotation does not begin with `q`; each is the number of rows where
/// there is no such row.
pub open spec fn is_scan_range(t: Seq<u8>, rows: Seq<int>, q: Seq<u8>, s: int, e: int) -> bool {
    &&& 0 <= s <= e <= rows.len()
    &&& forall|j: int| 0 <= j < s ==> rot_below(t, #[trigger] rows[j], q)
    &&& s < rows.len() ==> !rot_below(t, rows[s], q)
    &&& forall|j: int| s <= j < e ==> rot_match(t, #[trigger] rows[j], q)
    &&& e < rows.len() ==> !rot_match(t, rows[e], q)
}

/// The rows that a scan for `q` finds, as a pair.
pub open spec fn scan_range_of(t: Seq<u8>, rows: Seq<int>, q: Seq<u8>) -> (int, int) {
    choose|r: (int, int)| is_scan_range(t, rows, q, r.0, r.1)
}

/// A scan finds one range only.
pub proof fn lemma_scan_range_unique(t: Seq<u8>, rows: Seq<int>, q: Seq<u8>, s: int, e: int)
    requires
        is_scan_range(t, rows, q, s, e),
    ensures
        scan_range_of(t, rows, q) == (s, e),
{
    let found = (s, e);
    assert(is_scan_range(t, rows, q, found.0, found.1));
    let r = scan_range_of(t, rows, q);
    if r.0 < s {
        assert(rot_below(t, rows[r.0], q));
    } else if s < r.0 {
        assert(rot_below(t, rows[s], q));
    }
    if r.1 < e {
        assert(rot_match(t, rows[r.1], q));
    } else if e < r.1 {
        assert(rot_match(t, rows[e], q));
    }
}

/// The position and the value of the first number in `lo..hi` that `pred`
/// accepts. Calls `Itertools::find_position` on the range: it tries the
/// numbers in increasing order and stops at the first that is accepted, so
/// every number before it was refused, and all were where it returns `None`.
#[verifier::external_body]
pub(crate) fn find_position<F: Fn(usize) -> bool>(lo: usize, hi: usize, pred: F) -> (r: Option<
    (usize, usize),
>)
    requires
        forall|j: usize| lo <= j < hi ==> call_requires(pred, (j,)),
    ensures
        match r {
            Some((k, j)) => lo <= j < hi && k == j - lo && call_ensures(pred, (j,), true)
                && forall|i: usize| lo <= i < j ==> call_ensures(pred, (i,), false),
            None => forall|i: usize| lo <= i < hi ==> call_ensures(pred, (i,), false),
        },
{
    (lo..hi).find_position(|&j| pred(j))
}

/// The next position round a text of length `n`.
fn next_position(pos: usize, n: usize, Ghost(x): Ghost<int>) -> (r: usize)
    requires
        pos < n,
        pos == x % (n as int),
    ensures
        r < n,
        r == (x + 1) % (n as int),
{
    proof {
        lemma_wrap(x, 1, n as int);
        lemma_wrap(0, 0, n as int);
        lemma_wrap(pos as int + 1, 0, n as int);
    }
    if pos + 1 == n {
        0
    } else {
        pos + 1
    }
}

/// Whether the rotation at `x` begins with `q`.
pub fn rotation_starts_with(t: &[u8], x: usize, q: &[u8]) -> (r: bool)
    requires
        x < t@.len(),
    ensures
        r == rot_match(t@, x as int, q@),
{
    let n = t.len();
    let mut pos = x;
    let mut k: usize = 0;
    proof {
        lemma_wrap(x as int, 0, n as int);
    }
    while k < q.len()
        invariant
            n == t@.len(),
            k <= q@.len(),
            pos < n,
            pos == (x + k) % (n as int),
            forall|a: int| 0 <= a < k ==> #[trigger] rot(t@, x as int, a) == q[a],
        decreases q@.len() - k,
    {
        if t[pos] != q[k] {
            assert(rot(t@, x as int, k as int) != q[k as int]);
            return false;
        }
        pos = next_position(pos, n, Ghost(x + k));
        k += 1;
    }
    true
}

/// Whether the rotation at `x` sorts before every string that begins with
/// `q`.
pub fn rotation_sorts_before(t: &[u8], x: usize, q: &[u8]) -> (r: bool)
    requires
        x < t@.len(),
    ensures
        r == rot_below(t@, x as int, q@),
{
    let n = t.len();
    let mut pos = x;
    let mut k: usize = 0;
    proof {
        lemma_wrap(x as int, 0, n as int);
    }
    while k < q.len() && t[pos] == q[k]
        invariant
            n == t@.len(),
            k <= q@.len(),
            pos < n,
            pos == (x + k) % (n as int),
            forall|a: int| 0 <= a < k ==> #[trigger] rot(t@, x as int, a) == q[a],
        decreases q@.len() - k,
    {
        pos = next_position(pos, n, Ghost(x + k));
        k += 1;
    }
    let r = k < q.len() && t[pos] < q[k];
    proof {
        if r {
            assert(rot_below_at(t@, x as int, q@, k as int));
        } else {
            assert forall|d: int| !rot_below_at(t@, x as int, q@, d) by {
                if rot_below_at(t@, x as int, q@, d) {
                    if d < k {
                        assert(rot(t@, x as int, d) == q[d]);
                    } else if d > k {
                        assert(rot(t@, x as int, k as int) == q[k as int]);
                    }
                }
            }
        }
    }
    r
}

/// The rows `sa[j]` whose rotation begins with `q`, found by scanning the
/// rows in order: first for the first row that does not sort before `q`,
/// then from there for the first row that does not begin with `q`.
pub fn scan_range(t: &[u8], sa: &Vec<usize>, q: &[u8]) -> (r: Range<usize>)
    requires
        forall|j: int| 0 <= j < sa@.len() ==> #[trigger] sa[j] < t@.len(),
    ensures
        is_scan_range(t@, crate::suffix_array::rows_of(sa@), q@, r.start as int, r.end as int),
{
    let n = sa.len();
    let ghost rows = crate::suffix_array::rows_of(sa@);
    let at_least = |j: usize| -> (b: bool)
        requires
            j < sa@.len(),
        ensures
            b == !rot_below(t@, sa[j as int] as int, q@),
        { !rotation_sorts_before(t, sa[j], q) };
    let j_begin = match find_position(0, n, at_least) {
        Some((_, j)) => j,
        None => n,
    };
    let differs = |j: usize| -> (b: bool)
        requires
            j < sa@.len(),
        ensures
            b == !rot_match(t@, sa[j as int] as int, q@),
        { !rotation_starts_with(t, sa[j], q) };
    let j_end = match find_position(j_begin, n, differs) {
        Some((_, j)) => j,
        None => n,
    };
    proof {
        assert forall|j: int| 0 <= j < j_begin implies rot_below(t@, #[trigger] rows[j], q@) by {
            assert(call_ensures(at_least, (j as usize,), false));
        }
        assert forall|j: int| j_begin <= j < j_end implies rot_match(t@, #[trigger] rows[j], q@) by {
            assert(call_ensures(differs, (j as usize,), false));
        }
    }
    j_begin..j_end
}

/// The rotation at `x` sorts after every string that begins with `q`, and
/// place `d` shows it.
pub open spec fn rot_above_at(t: Seq<u8>, x: int, q: Seq<u8>, d: int) -> bool {
    &&& 0 <= d < q.len()
    &&& forall|k: int|
        #![trigger rot(t, x, k)]
        #![trigger q[k]]
        0 <= k < d ==> rot(t, x, k) == q[k]
    &&& rot(t, x, d) > q[d]
}

/// The rotation at `x` sorts after every string that begins with `q`.
pub open spec fn rot_above(t: Seq<u8>, x: int, q: Seq<u8>) -> bool {
    exists|d: int| rot_above_at(t, x, q, d)
}

/// A rotation that agrees with `q` below place `k` sorts before `q`, begins
/// with it, or sorts after it.
proof fn lemma_three_ways(t: Seq<u8>, x: int, q: Seq<u8>, k: int)
    requires
        0 <= k <= q.len(),
        forall|a: int| 0 <= a < k ==> #[trigger] rot(t, x, a) == q[a],
    ensures
        rot_below(t, x, q) || rot_match(t, x, q) || rot_above(t, x, q),
    decreases q.len() - k,
{
    if k < q.len() {
        if rot(t, x, k) < q[k] {
            assert(rot_below_at(t, x, q, k));
        } else if rot(t, x, k) > q[k] {
            assert(rot_above_at(t, x, q, k));
        } else {
            lemma_three_ways(t, x, q, k + 1);
        }
    }
}

/// A rotation that sorts before `q` does not begin with it.
proof fn lemma_below_excludes_match(t: Seq<u8>, x: int, q: Seq<u8>)
    ensures
        !(rot_below(t, x, q) && rot_match(t, x, q)),
        !(rot_above(t, x, q) && rot_match(t, x, q)),
{
    if rot_below(t, x, q) && rot_match(t, x, q) {
        let d = choose|d: int| rot_below_at(t, x, q, d);
        assert(rot(t, x, d) == q[d]);
    }
    if rot_above(t, x, q) && rot_match(t, x, q) {
        let d = choose|d: int| rot_above_at(t, x, q, d);
        assert(rot(t, x, d) == q[d]);
    }
}

/// After a rotation that begins with `q` or sorts after it, a larger rotation
/// that does not begin with `q` sorts after it.
proof fn lemma_above_stays(t: Seq<u8>, x: int, y: int, q: Seq<u8>)
    requires
        rot_lt(t, x, y),
        rot_match(t, x, q) || rot_above(t, x, q),
        !rot_match(t, y, q),
    ensures
        rot_above(t, y, q),
{
    let d0 = choose|d: int| rot_lt_at(t, x, y, d);
    if rot_match(t, x, q) {
        if d0 >= q.len() {
            assert forall|k: int| 0 <= k < q.len() implies #[trigger] rot(t, y, k) == q[k] by {
                assert(rot(t, x, k) == rot(t, y, k));
                assert(rot(t, x, k) == q[k]);
            }
        } else {
            assert(rot(t, x, d0) == q[d0]);
            assert forall|k: int| 0 <= k < d0 implies #[trigger] rot(t, y, k) == q[k] by {
                assert(rot(t, x, k) == rot(t, y, k));
                assert(rot(t, x, k) == q[k]);
            }
            assert(rot_above_at(t, y, q, d0));
        }
    } else {
        let d2 = choose|d: int| rot_above_at(t, x, q, d);
        let d = if d0 <= d2 { d0 } else { d2 };
        assert forall|k: int| 0 <= k < d implies #[trigger] rot(t, y, k) == q[k] by {
            assert(rot(t, x, k) == rot(t, y, k));
            assert(rot(t, x, k) == q[k]);
        }
        if d0 < d2 {
            assert(rot(t, x, d0) == q[d0]);
        } else if d2 < d0 {
            assert(rot(t, x, d2) == rot(t, y, d2));
        }
        assert(rot_above_at(t, y, q, d));
    }
}

/// Over sorted rows, what a scan finds is the range of rows that begin with
/// the pattern.
pub proof fn lemma_scan_range(t: Seq<u8>, rows: Seq<int>, q: Seq<u8>, s: int, e: int)
    requires
        rows_sorted(t, rows),
        is_scan_range(t, rows, q, s, e),
    ensures
        range_matches(t, rows, q, s, e),
{
    assert forall|j: int| 0 <= j < rows.len() implies ((s <= j < e) <==> rot_match(
        t,
        #[trigger] rows[j],
        q,
    )) by {
        lemma_below_excludes_match(t, rows[j], q);
        if rot_match(t, rows[j], q) && j >= e {
            // the row at e sorts after q, and so does every row behind it
            if e == s {
                lemma_three_ways(t, rows[e], q, 0);
            } else {
                assert(rot_match(t, rows[e - 1], q));
                assert(rot_lt(t, rows[e - 1], rows[e]));
                lemma_above_stays(t, rows[e - 1], rows[e], q);
            }
            if e < j {
                assert(rot_lt(t, rows[e], rows[j]));
                if !rot_match(t, rows[j], q) {
                    lemma_above_stays(t, rows[e], rows[j], q);
                }
            }
        }
    }
}

} // verus!
