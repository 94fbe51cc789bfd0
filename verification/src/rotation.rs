//! Rotations of a text, read as endless periodic strings, and their order.
//!
//! Position `x` of a text of length `n` stands for the rotation that starts
//! at `x mod n`; every statement here is periodic in the positions it takes.
use crate::counting::{
    count_in, holds_on_prefix, lemma_count_all, lemma_count_bijection, lemma_count_bound,
    lemma_count_enumerated, lemma_count_ext, lemma_count_monotone, lemma_count_none,
    lemma_count_prefix, lemma_count_reaches, lemma_count_split, lemma_injective_onto,
};
use vstd::arithmetic::div_mod::{
    lemma_add_mod_noop_right, lemma_mod_add_multiples_vanish, lemma_mod_bound, lemma_small_mod,
};
use vstd::prelude::*;

verus! {

/// The symbol `k` places after position `x`, going round the text.
pub open spec fn rot(t: Seq<u8>, x: int, k: int) -> u8 {
    t[(x + k) % (t.len() as int)]
}

/// The rotation that starts at `x` begins with `p`.
pub open spec fn rot_match(t: Seq<u8>, x: int, p: Seq<u8>) -> bool {
    forall|k: int|
        #![trigger rot(t, x, k)]
        #![trigger p[k]]
        0 <= k < p.len() ==> rot(t, x, k) == p[k]
}

/// The rotations at `x` and `y` hold the same symbols at the places below `d`.
pub open spec fn rot_agree(t: Seq<u8>, x: int, y: int, d: int) -> bool {
    forall|k: int|
        #![trigger rot(t, x, k)]
        #![trigger rot(t, y, k)]
        0 <= k < d ==> rot(t, x, k) == rot(t, y, k)
}

/// The rotation at `x` sorts before the one at `y`, and place `d` shows it.
pub open spec fn rot_lt_at(t: Seq<u8>, x: int, y: int, d: int) -> bool {
    &&& 0 <= d < t.len()
    &&& rot_agree(t, x, y, d)
    &&& rot(t, x, d) < rot(t, y, d)
}

/// The rotation at `x` sorts strictly before the one at `y`: they differ
/// within one round, and at the first difference `x` holds the smaller symbol.
pub open spec fn rot_lt(t: Seq<u8>, x: int, y: int) -> bool {
    exists|d: int| rot_lt_at(t, x, y, d)
}

/// Number of rotations of `t` that begin with `p`.
pub open spec fn cyclic_occurrences(t: Seq<u8>, p: Seq<u8>) -> nat {
    count_in(0, t.len() as int, |i: int| rot_match(t, i, p))
}

/// `rows` lists every position of `t` once, in strictly increasing order of
/// the rotations that start there.
pub open spec fn rows_sorted(t: Seq<u8>, rows: Seq<int>) -> bool {
    &&& t.len() > 0
    &&& rows.len() == t.len()
    &&& forall|j: int| 0 <= j < rows.len() ==> 0 <= #[trigger] rows[j] < t.len()
    &&& forall|a: int, b: int|
        0 <= a < b < rows.len() ==> rot_lt(t, #[trigger] rows[a], #[trigger] rows[b])
}

/// The row at which the rotation of position `x` stands.
pub open spec fn row_of(t: Seq<u8>, rows: Seq<int>, x: int) -> int {
    choose|j: int| 0 <= j < rows.len() && rows[j] == x % (t.len() as int)
}

/// The rows `s..e` are exactly the rows whose rotation begins with `p`.
pub open spec fn range_matches(t: Seq<u8>, rows: Seq<int>, p: Seq<u8>, s: int, e: int) -> bool {
    &&& 0 <= s <= e <= rows.len()
    &&& forall|j: int|
        0 <= j < rows.len() ==> ((s <= j < e) <==> rot_match(t, #[trigger] rows[j], p))
}

/// The symbol that stands before each row's rotation: the last column of the
/// sorted rotations.
pub open spec fn last_column(t: Seq<u8>, rows: Seq<int>) -> Seq<u8> {
    Seq::new(rows.len(), |j: int| rot(t, rows[j], -1))
}

/// The predicate "the symbol at this place is smaller than `c`".
pub open spec fn sym_below(l: Seq<u8>, c: u8) -> spec_fn(int) -> bool {
    |i: int| l[i] < c
}

/// The predicate "the symbol at this place is `c`".
pub open spec fn sym_is(l: Seq<u8>, c: u8) -> spec_fn(int) -> bool {
    |i: int| l[i] == c
}

/// The predicate "the symbol at this place is `c` or smaller".
pub open spec fn sym_upto(l: Seq<u8>, c: u8) -> spec_fn(int) -> bool {
    |i: int| l[i] <= c
}

/// Number of symbols of `t` that are strictly smaller than `c`.
pub open spec fn smaller(t: Seq<u8>, c: u8) -> nat {
    count_in(0, t.len() as int, sym_below(t, c))
}

/// Number of times `c` stands in `l` before place `j`.
pub open spec fn rank(l: Seq<u8>, c: u8, j: int) -> nat {
    count_in(0, j, sym_is(l, c))
}

/// The row that the rotation one place earlier than row `j`'s stands at,
/// computed from the two tables.
pub open spec fn lf(t: Seq<u8>, rows: Seq<int>, j: int) -> int {
    let l = last_column(t, rows);
    (smaller(t, l[j]) + rank(l, l[j], j)) as int
}

/// `lf` applied `k` times.
pub open spec fn lf_iterated(t: Seq<u8>, rows: Seq<int>, j: int, k: nat) -> int
    decreases k,
{
    if k == 0 {
        j
    } else {
        lf(t, rows, lf_iterated(t, rows, j, (k - 1) as nat))
    }
}

/// Remainders of positions: a remainder lies in `0..n`, may stand for its
/// number in a sum, and does not change by `n` more or less.
pub proof fn lemma_wrap(x: int, k: int, n: int)
    requires
        0 < n,
    ensures
        0 <= x % n < n,
        (x % n + k) % n == (x + k) % n,
        (x + n) % n == x % n,
        (x - n) % n == x % n,
        0 <= x < n ==> x % n == x,
{
    lemma_mod_bound(x, n);
    lemma_add_mod_noop_right(k, x, n);
    lemma_mod_add_multiples_vanish(x, n);
    lemma_mod_add_multiples_vanish(x - n, n);
    if 0 <= x < n {
        lemma_small_mod(x as nat, n as nat);
    }
}

/// A position and the same position reduced into `0..n` read the same
/// symbols.
pub proof fn lemma_rot_wrap(t: Seq<u8>, x: int, k: int)
    requires
        t.len() > 0,
    ensures
        rot(t, x % (t.len() as int), k) == rot(t, x, k),
        rot(t, x + t.len(), k) == rot(t, x, k),
        rot(t, x, k + 1) == rot(t, x + 1, k),
        0 <= x < t.len() ==> rot(t, x, 0) == t[x],
{
    let n = t.len() as int;
    lemma_wrap(x, k, n);
    lemma_wrap(x + k, 0, n);
    assert(x + n + k == x + k + n);
    assert(x + (k + 1) == x + 1 + k);
    lemma_wrap(x, 0, n);
}

/// A position and the same position reduced into `0..n` begin with the same
/// patterns.
pub proof fn lemma_rot_match_wrap(t: Seq<u8>, x: int, p: Seq<u8>)
    requires
        t.len() > 0,
    ensures
        rot_match(t, x % (t.len() as int), p) == rot_match(t, x, p),
{
    let y = x % (t.len() as int);
    assert forall|k: int| 0 <= k < p.len() implies rot(t, y, k) == rot(t, x, k) by {
        lemma_rot_wrap(t, x, k);
    }
    if rot_match(t, x, p) {
        assert forall|k: int| 0 <= k < p.len() implies rot(t, y, k) == p[k] by {
            assert(rot(t, x, k) == p[k]);
        }
    }
    if rot_match(t, y, p) {
        assert forall|k: int| 0 <= k < p.len() implies rot(t, x, k) == p[k] by {
            assert(rot(t, y, k) == p[k]);
        }
    }
}

/// The order of two rotations is that of their positions reduced into
/// `0..n`.
pub proof fn lemma_rot_lt_wrap(t: Seq<u8>, x: int, y: int)
    requires
        t.len() > 0,
        rot_lt(t, x, y),
    ensures
        rot_lt(t, x % (t.len() as int), y % (t.len() as int)),
{
    let n = t.len() as int;
    let xm = x % n;
    let ym = y % n;
    let d = choose|d: int| rot_lt_at(t, x, y, d);
    assert forall|k: int| 0 <= k <= d implies #[trigger] rot(t, xm, k) == rot(t, x, k) && rot(
        t,
        ym,
        k,
    ) == rot(t, y, k) by {
        lemma_rot_wrap(t, x, k);
        lemma_rot_wrap(t, y, k);
    }
    assert forall|k: int| 0 <= k < d implies #[trigger] rot(t, xm, k) == rot(t, ym, k) by {
        assert(rot(t, x, k) == rot(t, y, k));
    }
    assert(rot_lt_at(t, xm, ym, d));
}

/// Of two rotations at most one sorts before the other, and none before
/// itself.
pub proof fn lemma_rot_lt_asymmetric(t: Seq<u8>, x: int, y: int)
    ensures
        !(rot_lt(t, x, y) && rot_lt(t, y, x)),
        !rot_lt(t, x, x),
{
    if rot_lt(t, x, y) && rot_lt(t, y, x) {
        let d1 = choose|d: int| rot_lt_at(t, x, y, d);
        let d2 = choose|d: int| rot_lt_at(t, y, x, d);
        if d1 < d2 {
            assert(rot(t, y, d1) == rot(t, x, d1));
        } else if d2 < d1 {
            assert(rot(t, x, d2) == rot(t, y, d2));
        }
    }
    assert forall|d: int| !rot_lt_at(t, x, x, d) by {}
}

/// The smaller rotation does not begin with the larger symbol.
pub proof fn lemma_rot_lt_first(t: Seq<u8>, x: int, y: int)
    requires
        rot_lt(t, x, y),
    ensures
        rot(t, x, 0) <= rot(t, y, 0),
{
    let d = choose|d: int| rot_lt_at(t, x, y, d);
    if d > 0 {
        assert(rot(t, x, 0) == rot(t, y, 0));
    }
}

/// Two ordered rotations that begin alike are ordered the same way from
/// their second place on.
pub proof fn lemma_rot_lt_shift(t: Seq<u8>, x: int, y: int)
    requires
        t.len() > 0,
        rot_lt(t, x, y),
        rot(t, x, 0) == rot(t, y, 0),
    ensures
        rot_lt(t, x + 1, y + 1),
{
    let d = choose|d: int| rot_lt_at(t, x, y, d);
    assert(d > 0);
    let x1 = x + 1;
    let y1 = y + 1;
    assert forall|k: int| 0 <= k < d - 1 implies #[trigger] rot(t, x1, k) == rot(t, y1, k) by {
        lemma_rot_wrap(t, x, k);
        lemma_rot_wrap(t, y, k);
        assert(rot(t, x, k + 1) == rot(t, y, k + 1));
    }
    lemma_rot_wrap(t, x, d - 1);
    lemma_rot_wrap(t, y, d - 1);
    assert(rot_lt_at(t, x1, y1, d - 1));
}

/// No position stands at two rows.
pub proof fn lemma_rows_injective(t: Seq<u8>, rows: Seq<int>, a: int, b: int)
    requires
        rows_sorted(t, rows),
        0 <= a < rows.len(),
        0 <= b < rows.len(),
        rows[a] == rows[b],
    ensures
        a == b,
{
    lemma_rot_lt_asymmetric(t, rows[a], rows[b]);
    if a < b {
        assert(rot_lt(t, rows[a], rows[b]));
    } else if b < a {
        assert(rot_lt(t, rows[b], rows[a]));
    }
}

/// Every position stands at a row, and `row_of` finds it.
pub proof fn lemma_row_of(t: Seq<u8>, rows: Seq<int>, x: int)
    requires
        rows_sorted(t, rows),
    ensures
        0 <= row_of(t, rows, x) < rows.len(),
        rows[row_of(t, rows, x)] == x % (t.len() as int),
{
    let n = t.len() as int;
    lemma_wrap(x, 0, n);
    assert forall|a: int, b: int| 0 <= a < b < rows.len() implies #[trigger] rows[a]
        != #[trigger] rows[b] by {
        if rows[a] == rows[b] {
            lemma_rows_injective(t, rows, a, b);
        }
    }
    let j = lemma_injective_onto(rows, x % n);
    assert(0 <= j < rows.len() && rows[j] == x % n);
}

/// `row_of` undoes `rows`.
pub proof fn lemma_row_of_row(t: Seq<u8>, rows: Seq<int>, j: int)
    requires
        rows_sorted(t, rows),
        0 <= j < rows.len(),
    ensures
        row_of(t, rows, rows[j]) == j,
{
    lemma_row_of(t, rows, rows[j]);
    lemma_wrap(rows[j], 0, t.len() as int);
    lemma_rows_injective(t, rows, row_of(t, rows, rows[j]), j);
}

/// Positions that are the same round the text stand at the same row.
pub proof fn lemma_row_of_same(t: Seq<u8>, rows: Seq<int>, x: int, y: int)
    requires
        rows_sorted(t, rows),
        x % (t.len() as int) == y % (t.len() as int),
    ensures
        row_of(t, rows, x) == row_of(t, rows, y),
{
    lemma_row_of(t, rows, x);
    lemma_row_of(t, rows, y);
    lemma_rows_injective(t, rows, row_of(t, rows, x), row_of(t, rows, y));
}

/// The smaller rotation stands at the earlier row.
pub proof fn lemma_rows_order(t: Seq<u8>, rows: Seq<int>, x: int, y: int)
    requires
        rows_sorted(t, rows),
        rot_lt(t, x, y),
    ensures
        row_of(t, rows, x) < row_of(t, rows, y),
{
    lemma_row_of(t, rows, x);
    lemma_row_of(t, rows, y);
    lemma_rot_lt_wrap(t, x, y);
    let a = row_of(t, rows, x);
    let b = row_of(t, rows, y);
    lemma_rot_lt_asymmetric(t, rows[a], rows[b]);
    if b < a {
        assert(rot_lt(t, rows[b], rows[a]));
    }
}

/// The first column is sorted, so the rows whose first symbol passes a test
/// that smaller symbols pass too come first, as many as the text has such
/// symbols.
proof fn lemma_first_column_threshold(
    t: Seq<u8>,
    rows: Seq<int>,
    down: spec_fn(u8) -> bool,
    r: int,
)
    requires
        rows_sorted(t, rows),
        forall|a: u8, b: u8| a <= b && #[trigger] down(b) ==> #[trigger] down(a),
        0 <= r < rows.len(),
    ensures
        down(t[rows[r]]) <==> r < count_in(0, t.len() as int, |i: int| down(t[i])),
{
    let n = t.len() as int;
    let by_row = |j: int| down(t[rows[j]]);
    let by_pos = |i: int| down(t[i]);
    assert forall|i: int, j: int| 0 <= i <= j < n && #[trigger] by_row(j) implies #[trigger] by_row(
        i,
    ) by {
        if i < j {
            assert(rot_lt(t, rows[i], rows[j]));
            lemma_rot_lt_first(t, rows[i], rows[j]);
            lemma_rot_wrap(t, rows[i], 0);
            lemma_rot_wrap(t, rows[j], 0);
            assert(down(t[rows[j]]));
        }
    }
    assert(holds_on_prefix(0, n, by_row));
    lemma_count_prefix(0, n, by_row, r);
    let f = |j: int| rows[j];
    let g = |x: int| row_of(t, rows, x);
    assert forall|j: int| 0 <= j < n implies 0 <= #[trigger] f(j) < n && g(f(j)) == j by {
        lemma_row_of_row(t, rows, j);
    }
    assert forall|x: int| 0 <= x < n implies 0 <= #[trigger] g(x) < n && f(g(x)) == x by {
        lemma_row_of(t, rows, x);
        lemma_wrap(x, 0, n);
    }
    assert forall|j: int| 0 <= j < n implies #[trigger] by_row(j) == by_pos(f(j)) by {}
    lemma_count_bijection(0, n, by_row, 0, n, by_pos, f, g);
}

/// The rows whose rotation begins with `c` are the rows from `smaller(t, c)`
/// up to the number of symbols that are `c` or smaller.
pub proof fn lemma_first_column_block(t: Seq<u8>, rows: Seq<int>, c: u8, r: int)
    requires
        rows_sorted(t, rows),
        0 <= r < rows.len(),
    ensures
        t[rows[r]] < c <==> r < smaller(t, c),
        t[rows[r]] <= c <==> r < count_in(0, t.len() as int, sym_upto(t, c)),
{
    let n = t.len() as int;
    let below = |a: u8| a < c;
    let upto = |a: u8| a <= c;
    lemma_first_column_threshold(t, rows, below, r);
    lemma_first_column_threshold(t, rows, upto, r);
    assert forall|i: int| 0 <= i < n implies #[trigger] sym_below(t, c)(i) == below(t[i]) by {}
    lemma_count_ext(0, n, sym_below(t, c), |i: int| below(t[i]));
    assert forall|i: int| 0 <= i < n implies #[trigger] sym_upto(t, c)(i) == upto(t[i]) by {}
    lemma_count_ext(0, n, sym_upto(t, c), |i: int| upto(t[i]));
}

/// The row one place later than row `r`: its last-column symbol is the first
/// symbol of row `r`, and one place earlier leads back to `r`.
pub proof fn lemma_next_row(t: Seq<u8>, rows: Seq<int>, r: int)
    requires
        rows_sorted(t, rows),
        0 <= r < rows.len(),
    ensures
        ({
            let j = row_of(t, rows, rows[r] + 1);
            &&& 0 <= j < rows.len()
            &&& last_column(t, rows)[j] == t[rows[r]]
            &&& row_of(t, rows, rows[j] - 1) == r
        }),
{
    let n = t.len() as int;
    let x = rows[r];
    let j = row_of(t, rows, x + 1);
    lemma_row_of(t, rows, x + 1);
    lemma_rot_wrap(t, x + 1, -1);
    lemma_rot_wrap(t, x, 0);
    assert(rot(t, x + 1, -1) == rot(t, x, 0));
    lemma_wrap(x + 1, -1, n);
    lemma_wrap(rows[j] - 1, 0, n);
    lemma_wrap(x, 0, n);
    lemma_row_of(t, rows, rows[j] - 1);
    lemma_rows_injective(t, rows, row_of(t, rows, rows[j] - 1), r);
}

/// The row one place earlier than row `j`: its first symbol is the
/// last-column symbol of row `j`, and one place later leads back to `j`.
pub proof fn lemma_prev_row(t: Seq<u8>, rows: Seq<int>, j: int)
    requires
        rows_sorted(t, rows),
        0 <= j < rows.len(),
    ensures
        ({
            let r = row_of(t, rows, rows[j] - 1);
            &&& 0 <= r < rows.len()
            &&& t[rows[r]] == last_column(t, rows)[j]
            &&& row_of(t, rows, rows[r] + 1) == j
        }),
{
    let n = t.len() as int;
    let y = rows[j];
    let r = row_of(t, rows, y - 1);
    lemma_row_of(t, rows, y - 1);
    lemma_rot_wrap(t, y - 1, 0);
    lemma_rot_wrap(t, rows[r], 0);
    assert(rot(t, y - 1, 0) == rot(t, y, -1));
    lemma_wrap(y - 1, 1, n);
    lemma_wrap(rows[r] + 1, 0, n);
    lemma_wrap(y, 0, n);
    lemma_row_of(t, rows, rows[r] + 1);
    lemma_rows_injective(t, rows, row_of(t, rows, rows[r] + 1), j);
}

/// Rows with the same first symbol keep their order one place later.
pub proof fn lemma_next_rows_ordered(t: Seq<u8>, rows: Seq<int>, r1: int, r2: int)
    requires
        rows_sorted(t, rows),
        0 <= r1 < r2 < rows.len(),
        t[rows[r1]] == t[rows[r2]],
    ensures
        row_of(t, rows, rows[r1] + 1) < row_of(t, rows, rows[r2] + 1),
{
    assert(rot_lt(t, rows[r1], rows[r2]));
    lemma_rot_wrap(t, rows[r1], 0);
    lemma_rot_wrap(t, rows[r2], 0);
    lemma_rot_lt_shift(t, rows[r1], rows[r2]);
    lemma_rows_order(t, rows, rows[r1] + 1, rows[r2] + 1);
}

/// The two tables find the row one place earlier: `lf` of row `j` is the row
/// of the position before `rows[j]`.
pub proof fn lemma_lf(t: Seq<u8>, rows: Seq<int>, j: int)
    requires
        rows_sorted(t, rows),
        0 <= j < rows.len(),
    ensures
        lf(t, rows, j) == row_of(t, rows, rows[j] - 1),
        0 <= lf(t, rows, j) < rows.len(),
{
    let n = t.len() as int;
    let l = last_column(t, rows);
    let c = l[j];
    let lo = smaller(t, c) as int;
    let hi = count_in(0, n, sym_upto(t, c)) as int;
    let m = hi - lo;
    let g = |k: int| row_of(t, rows, rows[lo + k] + 1);
    let h = |i: int| row_of(t, rows, rows[i] - 1) - lo;
    let p = sym_is(l, c);
    assert forall|a: int| 0 <= a < m implies 0 <= #[trigger] g(a) < n && p(g(a)) by {
        lemma_count_bound(0, n, sym_upto(t, c));
        lemma_first_column_block(t, rows, c, lo + a);
        lemma_next_row(t, rows, lo + a);
    }
    assert forall|a: int, b: int| 0 <= a < b < m implies #[trigger] g(a) < #[trigger] g(b) by {
        lemma_count_bound(0, n, sym_upto(t, c));
        lemma_first_column_block(t, rows, c, lo + a);
        lemma_first_column_block(t, rows, c, lo + b);
        lemma_next_rows_ordered(t, rows, lo + a, lo + b);
    }
    assert forall|i: int| 0 <= i < n && #[trigger] p(i) implies 0 <= h(i) < m && g(h(i)) == i by {
        lemma_prev_row(t, rows, i);
        lemma_first_column_block(t, rows, c, row_of(t, rows, rows[i] - 1));
    }
    assert(p(j));
    lemma_count_enumerated(0, n, p, m, g, h, h(j));
    lemma_row_of(t, rows, rows[j] - 1);
}

/// Applying `lf` as often as the text is long leads back to the row it
/// started from.
pub proof fn lemma_lf_cycle(t: Seq<u8>, rows: Seq<int>, j: int)
    requires
        rows_sorted(t, rows),
        0 <= j < rows.len(),
    ensures
        lf_iterated(t, rows, j, t.len()) == j,
{
    lemma_lf_walk(t, rows, j, t.len());
    lemma_wrap(rows[j] - t.len(), 0, t.len() as int);
    lemma_wrap(rows[j], 0, t.len() as int);
    lemma_row_of_same(t, rows, rows[j] - t.len(), rows[j]);
    lemma_row_of_row(t, rows, j);
}

/// `lf` applied `k` times leads to the row of the position `k` places earlier.
pub proof fn lemma_lf_walk(t: Seq<u8>, rows: Seq<int>, j: int, k: nat)
    requires
        rows_sorted(t, rows),
        0 <= j < rows.len(),
    ensures
        lf_iterated(t, rows, j, k) == row_of(t, rows, rows[j] - k),
    decreases k,
{
    let n = t.len() as int;
    if k == 0 {
        lemma_row_of_row(t, rows, j);
    } else {
        lemma_lf_walk(t, rows, j, (k - 1) as nat);
        let x = rows[j] - (k - 1);
        let r = row_of(t, rows, x);
        lemma_row_of(t, rows, x);
        lemma_lf(t, rows, r);
        lemma_wrap(x, -1, n);
        lemma_row_of_same(t, rows, rows[r] - 1, x - 1);
    }
}

/// Every rotation begins with the empty pattern.
pub proof fn lemma_range_of_empty(t: Seq<u8>, rows: Seq<int>)
    requires
        rows_sorted(t, rows),
    ensures
        range_matches(t, rows, Seq::<u8>::empty(), 0, rows.len() as int),
{
}

/// A rotation begins with `c` followed by `p` exactly when it begins with
/// `c` and the rotation one place later begins with `p`.
proof fn lemma_match_prepended(t: Seq<u8>, x: int, p: Seq<u8>, c: u8)
    requires
        t.len() > 0,
    ensures
        rot_match(t, x, seq![c] + p) <==> rot(t, x, 0) == c && rot_match(t, x + 1, p),
{
    let q = seq![c] + p;
    let x1 = x + 1;
    if rot_match(t, x, q) {
        assert(rot(t, x, 0) == q[0]);
        assert forall|k: int| 0 <= k < p.len() implies #[trigger] rot(t, x1, k) == p[k] by {
            lemma_rot_wrap(t, x, k);
            assert(rot(t, x, k + 1) == q[k + 1]);
        }
    }
    if rot(t, x, 0) == c && rot_match(t, x1, p) {
        assert forall|k: int| 0 <= k < q.len() implies #[trigger] rot(t, x, k) == q[k] by {
            if k > 0 {
                lemma_rot_wrap(t, x, k - 1);
                assert(rot(t, x1, k - 1) == p[k - 1]);
            }
        }
    }
}

/// A row that begins with `c` followed by `p` lies in the range that the
/// step leads to.
proof fn lemma_prepend_into(t: Seq<u8>, rows: Seq<int>, p: Seq<u8>, s: int, e: int, c: u8, r: int)
    requires
        rows_sorted(t, rows),
        range_matches(t, rows, p, s, e),
        0 <= r < rows.len(),
        rot_match(t, rows[r], seq![c] + p),
    ensures
        smaller(t, c) + rank(last_column(t, rows), c, s) <= r < smaller(t, c) + rank(
            last_column(t, rows),
            c,
            e,
        ),
{
    let l = last_column(t, rows);
    let x = rows[r];
    lemma_match_prepended(t, x, p, c);
    lemma_rot_wrap(t, x, 0);
    let j = row_of(t, rows, x + 1);
    lemma_next_row(t, rows, r);
    lemma_rot_match_wrap(t, x + 1, p);
    lemma_row_of(t, rows, x + 1);
    assert(rot_match(t, rows[j], p));
    assert(s <= j < e);
    lemma_lf(t, rows, j);
    lemma_count_monotone(0, s, j, sym_is(l, c));
    lemma_count_monotone(0, j + 1, e, sym_is(l, c));
    assert(sym_is(l, c)(j));
}

/// A row of the range that the step leads to begins with `c` followed by
/// `p`.
proof fn lemma_prepend_from(t: Seq<u8>, rows: Seq<int>, p: Seq<u8>, s: int, e: int, c: u8, r: int)
    requires
        rows_sorted(t, rows),
        range_matches(t, rows, p, s, e),
        0 <= r < rows.len(),
        smaller(t, c) + rank(last_column(t, rows), c, s) <= r < smaller(t, c) + rank(
            last_column(t, rows),
            c,
            e,
        ),
    ensures
        rot_match(t, rows[r], seq![c] + p),
{
    let l = last_column(t, rows);
    let j = lemma_count_reaches(0, s, e, sym_is(l, c), r - smaller(t, c));
    lemma_lf(t, rows, j);
    lemma_prev_row(t, rows, j);
    assert(rot_match(t, rows[j], p));
    let x = rows[r];
    lemma_rot_wrap(t, x, 0);
    lemma_row_of(t, rows, x + 1);
    lemma_rot_match_wrap(t, x + 1, p);
    lemma_match_prepended(t, x, p, c);
}

/// One step of backward search. Where the rows `s..e` are those that begin
/// with `p`, the rows that begin with `c` followed by `p` are those from
/// `smaller(t, c) + rank(l, c, s)` up to `smaller(t, c) + rank(l, c, e)`,
/// `l` being the last column.
pub proof fn lemma_prepend(t: Seq<u8>, rows: Seq<int>, p: Seq<u8>, s: int, e: int, c: u8)
    requires
        rows_sorted(t, rows),
        range_matches(t, rows, p, s, e),
    ensures
        range_matches(
            t,
            rows,
            seq![c] + p,
            (smaller(t, c) + rank(last_column(t, rows), c, s)) as int,
            (smaller(t, c) + rank(last_column(t, rows), c, e)) as int,
        ),
{
    let n = t.len() as int;
    let l = last_column(t, rows);
    let q = seq![c] + p;
    let s2 = smaller(t, c) + rank(l, c, s);
    let e2 = smaller(t, c) + rank(l, c, e);
    lemma_count_monotone(0, s, e, sym_is(l, c));
    lemma_count_bound(0, n, sym_below(t, c));
    if rank(l, c, e) > 0 {
        let j = lemma_count_reaches(0, 0, e, sym_is(l, c), rank(l, c, e) - 1);
        lemma_lf(t, rows, j);
    }
    assert forall|r: int| 0 <= r < n implies ((s2 <= r < e2) <==> rot_match(
        t,
        #[trigger] rows[r],
        q,
    )) by {
        if rot_match(t, rows[r], q) {
            lemma_prepend_into(t, rows, p, s, e, c, r);
        }
        if s2 <= r < e2 {
            lemma_prepend_from(t, rows, p, s, e, c, r);
        }
    }
}

/// The symbol that follows the first `m` symbols of each row's rotation.
pub open spec fn column(t: Seq<u8>, rows: Seq<int>, m: int) -> Seq<u8> {
    Seq::new(rows.len(), |j: int| rot(t, rows[j], m))
}

/// One step of extending a pattern at its end. Where the rows `s..e` are
/// those that begin with `p`, the rows that begin with `p` followed by `c`
/// come after the rows of `s..e` whose next symbol is smaller than `c`, and
/// are as many as the rows of `s..e` whose next symbol is `c`.
pub proof fn lemma_append(t: Seq<u8>, rows: Seq<int>, p: Seq<u8>, s: int, e: int, c: u8)
    requires
        rows_sorted(t, rows),
        range_matches(t, rows, p, s, e),
    ensures
        range_matches(
            t,
            rows,
            p.push(c),
            s + count_in(s, e, sym_below(column(t, rows, p.len() as int), c)),
            s + count_in(s, e, sym_below(column(t, rows, p.len() as int), c)) + count_in(
                s,
                e,
                sym_is(column(t, rows, p.len() as int), c),
            ),
        ),
{
    let n = t.len() as int;
    let m = p.len() as int;
    let col = column(t, rows, m);
    let q = p.push(c);
    let below = sym_below(col, c);
    let upto = sym_upto(col, c);
    let is = sym_is(col, c);
    // within s..e the next symbols are sorted
    assert forall|a: int, b: int| s <= a < b < e implies col[a] <= col[b] by {
        assert(rot_lt(t, rows[a], rows[b]));
        let d = choose|d: int| rot_lt_at(t, rows[a], rows[b], d);
        assert(rot_match(t, rows[a], p));
        assert(rot_match(t, rows[b], p));
        if d < m {
            assert(rot(t, rows[a], d) == p[d]);
            assert(rot(t, rows[b], d) == p[d]);
        } else if d > m {
            assert(rot(t, rows[a], m) == rot(t, rows[b], m));
        }
    }
    assert forall|i: int, j: int| s <= i <= j < e && #[trigger] below(j) implies #[trigger] below(
        i,
    ) by {
        if i < j {
            assert(col[i] <= col[j]);
        }
    }
    assert forall|i: int, j: int| s <= i <= j < e && #[trigger] upto(j) implies #[trigger] upto(
        i,
    ) by {
        if i < j {
            assert(col[i] <= col[j]);
        }
    }
    crate::counting::lemma_count_disjoint_or(s, e, below, is, upto);
    lemma_count_bound(s, e, upto);
    let s2 = s + count_in(s, e, below);
    let e2 = s + count_in(s, e, upto);
    assert forall|r: int| 0 <= r < n implies ((s2 <= r < e2) <==> rot_match(
        t,
        #[trigger] rows[r],
        q,
    )) by {
        let x = rows[r];
        if s <= r < e {
            lemma_count_prefix(s, e, below, r);
            lemma_count_prefix(s, e, upto, r);
        }
        if rot_match(t, x, q) {
            assert forall|k: int| 0 <= k < p.len() implies #[trigger] rot(t, x, k) == p[k] by {
                assert(rot(t, x, k) == q[k]);
            }
            assert(rot(t, x, m) == q[m]);
        }
        if s2 <= r < e2 {
            assert(rot_match(t, x, p));
            assert(col[r] == c);
            assert forall|k: int| 0 <= k < q.len() implies #[trigger] rot(t, x, k) == q[k] by {
                if k < m {
                    assert(rot(t, x, k) == p[k]);
                }
            }
        }
    }
}

/// A range of rows that holds exactly the rotations that begin with `p` is
/// as long as `p` has occurrences round the text.
pub proof fn lemma_range_size(t: Seq<u8>, rows: Seq<int>, p: Seq<u8>, s: int, e: int)
    requires
        rows_sorted(t, rows),
        range_matches(t, rows, p, s, e),
    ensures
        e - s == cyclic_occurrences(t, p),
{
    let n = t.len() as int;
    let by_row = |j: int| rot_match(t, rows[j], p);
    let by_pos = |i: int| rot_match(t, i, p);
    lemma_count_split(0, s, n, by_row);
    lemma_count_split(s, e, n, by_row);
    assert forall|j: int| 0 <= j < s implies !#[trigger] by_row(j) by {
        assert(!rot_match(t, rows[j], p));
    }
    assert forall|j: int| s <= j < e implies #[trigger] by_row(j) by {
        assert(rot_match(t, rows[j], p));
    }
    assert forall|j: int| e <= j < n implies !#[trigger] by_row(j) by {
        assert(!rot_match(t, rows[j], p));
    }
    lemma_count_none(0, s, by_row);
    lemma_count_all(s, e, by_row);
    lemma_count_none(e, n, by_row);
    let f = |j: int| rows[j];
    let g = |x: int| row_of(t, rows, x);
    assert forall|j: int| 0 <= j < n implies 0 <= #[trigger] f(j) < n && g(f(j)) == j by {
        lemma_row_of_row(t, rows, j);
    }
    assert forall|x: int| 0 <= x < n implies 0 <= #[trigger] g(x) < n && f(g(x)) == x by {
        lemma_row_of(t, rows, x);
        lemma_wrap(x, 0, n);
    }
    assert forall|j: int| 0 <= j < n implies #[trigger] by_row(j) == by_pos(f(j)) by {}
    lemma_count_bijection(0, n, by_row, 0, n, by_pos, f, g);
}

/// A pattern has one range of rows only: two ranges that both hold exactly
/// the rows that begin with `p` are the same, or both hold no row.
pub proof fn lemma_range_unique(
    t: Seq<u8>,
    rows: Seq<int>,
    p: Seq<u8>,
    a: int,
    b: int,
    a2: int,
    b2: int,
)
    requires
        range_matches(t, rows, p, a, b),
        range_matches(t, rows, p, a2, b2),
    ensures
        a < b ==> a == a2 && b == b2,
        a == b ==> a2 == b2,
{
    if a < b {
        assert(rot_match(t, rows[a], p));
        assert(rot_match(t, rows[b - 1], p));
        assert(rot_match(t, rows[a2], p));
        assert(rot_match(t, rows[b2 - 1], p));
    } else if a2 < b2 {
        assert(rot_match(t, rows[a2], p));
    }
}

/// A longer pattern has no more rows: putting a symbol before a pattern or
/// behind it never makes its range longer.
pub proof fn lemma_longer_pattern(t: Seq<u8>, rows: Seq<int>, p: Seq<u8>, s: int, e: int, c: u8)
    requires
        rows_sorted(t, rows),
        range_matches(t, rows, p, s, e),
    ensures
        cyclic_occurrences(t, seq![c] + p) <= cyclic_occurrences(t, p),
        cyclic_occurrences(t, p.push(c)) <= cyclic_occurrences(t, p),
{
    let l = last_column(t, rows);
    let col = column(t, rows, p.len() as int);
    lemma_range_size(t, rows, p, s, e);
    lemma_prepend(t, rows, p, s, e, c);
    lemma_range_size(
        t,
        rows,
        seq![c] + p,
        (smaller(t, c) + rank(l, c, s)) as int,
        (smaller(t, c) + rank(l, c, e)) as int,
    );
    lemma_count_split(0, s, e, sym_is(l, c));
    lemma_count_bound(s, e, sym_is(l, c));
    lemma_append(t, rows, p, s, e, c);
    let s2 = s + count_in(s, e, sym_below(col, c));
    lemma_range_size(t, rows, p.push(c), s2, s2 + count_in(s, e, sym_is(col, c)));
    lemma_count_bound(s, e, sym_is(col, c));
}

/// Some rotation that begins with `p` runs over the end of the text: `p`
/// stands there only when the text is read round.
pub open spec fn wraps(t: Seq<u8>, p: Seq<u8>) -> bool {
    exists|i: int| 0 <= i < t.len() && i + p.len() > t.len() && #[trigger] rot_match(t, i, p)
}

/// Where no rotation that begins with `p` runs over the end of the text, the
/// rotations that begin with `p` are the occurrences of `p` in the text.
pub proof fn lemma_cyclic_is_plain(t: Seq<u8>, p: Seq<u8>)
    requires
        t.len() > 0,
        !wraps(t, p),
    ensures
        cyclic_occurrences(t, p) == crate::text::occurrences(t, p),
{
    let n = t.len() as int;
    let round = |i: int| rot_match(t, i, p);
    let plain = |i: int| crate::text::occurs_at(t, i, p);
    assert forall|i: int| 0 <= i < n implies #[trigger] round(i) == plain(i) by {
        if i + p.len() <= n {
            let part = t.subrange(i, i + p.len());
            assert forall|k: int| 0 <= k < p.len() implies #[trigger] rot(t, i, k) == part[k] by {
                lemma_wrap(i + k, 0, n);
            }
            if rot_match(t, i, p) {
                assert forall|k: int| 0 <= k < p.len() implies part[k] == p[k] by {
                    assert(rot(t, i, k) == p[k]);
                }
                assert(part =~= p);
            }
            if part == p {
                assert forall|k: int| 0 <= k < p.len() implies #[trigger] rot(t, i, k) == p[k] by {
                    assert(rot(t, i, k) == part[k]);
                }
            }
        } else {
            assert(!rot_match(t, i, p));
        }
    }
    lemma_count_ext(0, n, round, plain);
}

/// Where a rotation that begins with `p` runs over the end of the text, more
/// rotations begin with `p` than `p` has occurrences in the text.
pub proof fn lemma_cyclic_is_more(t: Seq<u8>, p: Seq<u8>)
    requires
        t.len() > 0,
        wraps(t, p),
    ensures
        cyclic_occurrences(t, p) > crate::text::occurrences(t, p),
{
    let n = t.len() as int;
    let round = |i: int| rot_match(t, i, p);
    let plain = |i: int| crate::text::occurs_at(t, i, p);
    let w = choose|i: int| 0 <= i < t.len() && i + p.len() > t.len() && #[trigger] rot_match(t, i, p);
    assert forall|i: int| 0 <= i < n && #[trigger] plain(i) implies round(i) by {
        let part = t.subrange(i, i + p.len());
        assert forall|k: int| 0 <= k < p.len() implies #[trigger] rot(t, i, k) == p[k] by {
            lemma_wrap(i + k, 0, n);
            assert(part[k] == p[k]);
        }
    }
    assert(round(w) && !plain(w));
    crate::counting::lemma_count_implies(0, n, plain, round, w);
}

/// A pattern that holds the sentinel of a valid text nowhere but at its last
/// place stands in the text only where it stands there whole.
pub proof fn lemma_sentinel_last(t: Seq<u8>, p: Seq<u8>)
    requires
        crate::text::valid_text(t),
        forall|k: int| 0 <= k < p.len() - 1 ==> #[trigger] p[k] != t[t.len() - 1],
    ensures
        !wraps(t, p),
{
    let n = t.len() as int;
    assert forall|i: int| 0 <= i < n && i + p.len() > n implies !#[trigger] rot_match(t, i, p) by {
        let k = n - 1 - i;
        lemma_wrap(i + k, 0, n);
        if rot_match(t, i, p) {
            assert(rot(t, i, k) == p[k]);
        }
    }
}

} // verus!
