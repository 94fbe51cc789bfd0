//! A text and its reverse: how the rotations of the one read in the other.
use crate::counting::{count_in, lemma_count_all, lemma_count_bijection, lemma_count_split};
use crate::rotation::{
    column, last_column, lemma_append, lemma_prepend, lemma_rot_match_wrap, lemma_rot_wrap,
    lemma_row_of, lemma_row_of_same, lemma_wrap, range_matches, rank, rot, rot_match, row_of,
    rows_sorted, smaller, sym_below, sym_is,
};
use vstd::arithmetic::div_mod::{lemma_fundamental_div_mod, lemma_fundamental_div_mod_converse};
use vstd::prelude::*;

verus! {

/// Counting back from the end: the remainder of `-1 - a` mirrors that of `a`.
pub proof fn lemma_mirror_mod(a: int, n: int)
    requires
        0 < n,
    ensures
        (-1 - a) % n == n - 1 - a % n,
{
    lemma_fundamental_div_mod(a, n);
    lemma_wrap(a, 0, n);
    let q = a / n;
    let r = a % n;
    assert(-1 - a == (-q - 1) * n + (n - 1 - r)) by (nonlinear_arith)
        requires
            a == n * q + r,
    ;
    lemma_fundamental_div_mod_converse(-1 - a, n, -q - 1, n - 1 - r);
}

/// Reading the reversed text forward from `y` is reading the text backward
/// from the place before `-y`.
pub proof fn lemma_rot_reversed(t: Seq<u8>, y: int, k: int)
    requires
        t.len() > 0,
    ensures
        rot(t.reverse(), y, k) == rot(t, -1 - y, -k),
{
    let n = t.len() as int;
    lemma_mirror_mod(y + k, n);
    lemma_wrap(y + k, 0, n);
    assert(-1 - y + (-k) == -1 - (y + k));
}

/// The reversed text holds as many symbols below `c` as the text.
pub proof fn lemma_smaller_reversed(t: Seq<u8>, c: u8)
    ensures
        smaller(t.reverse(), c) == smaller(t, c),
{
    let n = t.len() as int;
    let r = t.reverse();
    let f = |i: int| n - 1 - i;
    assert forall|i: int| 0 <= i < n implies #[trigger] sym_below(r, c)(i) == sym_below(t, c)(
        f(i),
    ) by {}
    lemma_count_bijection(0, n, sym_below(r, c), 0, n, sym_below(t, c), f, f);
}

/// Where the rotation of `u` at `x` begins with `q`, the rotation of the
/// reversed text at `-x - q.len()` begins with `q` reversed.
pub proof fn lemma_match_mirrored(u: Seq<u8>, x: int, q: Seq<u8>)
    requires
        u.len() > 0,
        rot_match(u, x, q),
    ensures
        rot_match(u.reverse(), -x - q.len(), q.reverse()),
{
    let v = u.reverse();
    let m = q.len() as int;
    let y = -x - m;
    let qr = q.reverse();
    assert forall|k: int| 0 <= k < qr.len() implies #[trigger] rot(v, y, k) == qr[k] by {
        lemma_rot_reversed(u, y, k);
        assert(-1 - y + (-k) == x + (m - 1 - k));
        assert(rot(u, x, m - 1 - k) == q[m - 1 - k]);
    }
}

/// The row of the reversed text that stands for the same occurrence as row
/// `j` of the text.
pub open spec fn mirror_row(u: Seq<u8>, urows: Seq<int>, vrows: Seq<int>, m: int, j: int) -> int {
    row_of(u.reverse(), vrows, -urows[j] - m)
}

/// Row `j` of `u` begins with `q`. Then its mirror row in the reversed text
/// begins with `q` reversed, the symbol that follows there is the symbol
/// before row `j`, and the mirror of the mirror is `j` again.
pub proof fn lemma_mirror_row(
    u: Seq<u8>,
    v: Seq<u8>,
    urows: Seq<int>,
    vrows: Seq<int>,
    q: Seq<u8>,
    j: int,
)
    requires
        v == u.reverse(),
        rows_sorted(u, urows),
        rows_sorted(v, vrows),
        0 <= j < urows.len(),
        rot_match(u, urows[j], q),
    ensures
        ({
            let j2 = mirror_row(u, urows, vrows, q.len() as int, j);
            &&& 0 <= j2 < vrows.len()
            &&& rot_match(v, vrows[j2], q.reverse())
            &&& rot(v, vrows[j2], q.len() as int) == rot(u, urows[j], -1)
            &&& mirror_row(v, vrows, urows, q.len() as int, j2) == j
        }),
{
    let n = u.len() as int;
    let m = q.len() as int;
    let x = urows[j];
    let y = -x - m;
    let j2 = row_of(v, vrows, y);
    lemma_row_of(v, vrows, y);
    lemma_match_mirrored(u, x, q);
    lemma_rot_match_wrap(v, y, q.reverse());
    // the symbol after the mirrored occurrence
    lemma_rot_wrap(v, y, m);
    lemma_rot_reversed(u, y, m);
    assert(-1 - y + (-m) == x + (-1));
    // back again
    assert(v.reverse() =~= u);
    let back = -vrows[j2] - m;
    lemma_fundamental_div_mod(y, n);
    vstd::arithmetic::div_mod::lemma_mod_multiples_vanish(y / n, x, n);
    assert(back == n * (y / n) + x) by (nonlinear_arith)
        requires
            back == -(y % n) - m,
            y == n * (y / n) + y % n,
            y == -x - m,
    ;
    lemma_row_of_same(u, urows, back, x);
    crate::rotation::lemma_row_of_row(u, urows, j);
}

/// The two ranges of a pattern: `s..e` are the rows of `u` that begin with
/// `p`, and `s2..e2` the rows of the reversed text that begin with `p`
/// reversed.
pub open spec fn dual_range(
    u: Seq<u8>,
    urows: Seq<int>,
    vrows: Seq<int>,
    p: Seq<u8>,
    s: int,
    e: int,
    s2: int,
    e2: int,
) -> bool {
    &&& range_matches(u, urows, p, s, e)
    &&& range_matches(u.reverse(), vrows, p.reverse(), s2, e2)
}

/// The two ranges of a pattern over a text are the two ranges of the
/// reversed pattern over the reversed text, the other way round.
pub proof fn lemma_turn(
    u: Seq<u8>,
    urows: Seq<int>,
    vrows: Seq<int>,
    p: Seq<u8>,
    s: int,
    e: int,
    s2: int,
    e2: int,
)
    requires
        dual_range(u, urows, vrows, p, s, e, s2, e2),
    ensures
        dual_range(u.reverse(), vrows, urows, p.reverse(), s2, e2, s, e),
        u.reverse().reverse() == u,
        p.reverse().reverse() == p,
{
    assert(u.reverse().reverse() =~= u);
    assert(p.reverse().reverse() =~= p);
}

/// The rows of `s..e` and the rows of `s2..e2` stand for the same
/// occurrences, so what is counted by the symbol before an occurrence on one
/// side is counted by the symbol after its mirror on the other.
proof fn lemma_mirror_counts(
    u: Seq<u8>,
    urows: Seq<int>,
    vrows: Seq<int>,
    p: Seq<u8>,
    s: int,
    e: int,
    s2: int,
    e2: int,
    pu: spec_fn(int) -> bool,
    pv: spec_fn(int) -> bool,
    test: spec_fn(u8) -> bool,
)
    requires
        rows_sorted(u, urows),
        rows_sorted(u.reverse(), vrows),
        dual_range(u, urows, vrows, p, s, e, s2, e2),
        forall|j: int| 0 <= j < urows.len() ==> #[trigger] pu(j) == test(rot(u, urows[j], -1)),
        forall|j: int|
            0 <= j < vrows.len() ==> #[trigger] pv(j) == test(
                rot(u.reverse(), vrows[j], p.len() as int),
            ),
    ensures
        count_in(s, e, pu) == count_in(s2, e2, pv),
{
    let v = u.reverse();
    let m = p.len() as int;
    let f = |j: int| mirror_row(u, urows, vrows, m, j);
    let g = |j: int| mirror_row(v, vrows, urows, m, j);
    assert(v.reverse() =~= u);
    assert(p.reverse().reverse() =~= p);
    assert forall|j: int| s <= j < e implies s2 <= #[trigger] f(j) < e2 && g(f(j)) == j && pu(j)
        == pv(f(j)) by {
        assert(rot_match(u, urows[j], p));
        lemma_mirror_row(u, v, urows, vrows, p, j);
        assert(rot_match(v, vrows[f(j)], p.reverse()));
    }
    assert forall|j: int| s2 <= j < e2 implies s <= #[trigger] g(j) < e && f(g(j)) == j by {
        assert(rot_match(v, vrows[j], p.reverse()));
        lemma_mirror_row(v, u, vrows, urows, p.reverse(), j);
        assert(rot_match(u, urows[g(j)], p));
    }
    lemma_count_bijection(s, e, pu, s2, e2, pv, f, g);
}

/// The two ranges of a pattern have the same length.
pub proof fn lemma_dual_range_size(
    u: Seq<u8>,
    urows: Seq<int>,
    vrows: Seq<int>,
    p: Seq<u8>,
    s: int,
    e: int,
    s2: int,
    e2: int,
)
    requires
        rows_sorted(u, urows),
        rows_sorted(u.reverse(), vrows),
        dual_range(u, urows, vrows, p, s, e, s2, e2),
    ensures
        e - s == e2 - s2,
{
    let all = |j: int| true;
    let any = |c: u8| true;
    lemma_mirror_counts(u, urows, vrows, p, s, e, s2, e2, all, all, any);
    lemma_count_all(s, e, all);
    lemma_count_all(s2, e2, all);
}

/// Extending a pattern by `c` at its front, on both sides at once. The range
/// in `u` moves by a step of backward search. The range in the reversed text
/// shrinks inside itself: it skips as many rows as the old range of `u` has
/// rows with a smaller symbol before them, and keeps as many as the new
/// range of `u` is long.
pub proof fn lemma_extend(
    u: Seq<u8>,
    urows: Seq<int>,
    vrows: Seq<int>,
    p: Seq<u8>,
    s: int,
    e: int,
    s2: int,
    e2: int,
    c: u8,
)
    requires
        rows_sorted(u, urows),
        rows_sorted(u.reverse(), vrows),
        dual_range(u, urows, vrows, p, s, e, s2, e2),
    ensures
        ({
            let l = last_column(u, urows);
            let ns = smaller(u, c) + rank(l, c, s);
            let ne = smaller(u, c) + rank(l, c, e);
            let less = count_in(s, e, sym_below(l, c));
            &&& ns <= ne
            &&& s2 + less + (ne - ns) <= e2
            &&& dual_range(
                u,
                urows,
                vrows,
                seq![c] + p,
                ns as int,
                ne as int,
                s2 + less,
                s2 + less + (ne - ns),
            )
        }),
{
    let v = u.reverse();
    let m = p.len() as int;
    let l = last_column(u, urows);
    let col = column(v, vrows, m);
    lemma_prepend(u, urows, p, s, e, c);
    lemma_append(v, vrows, p.reverse(), s2, e2, c);
    assert((seq![c] + p).reverse() =~= p.reverse().push(c));
    let below = |a: u8| a < c;
    let is = |a: u8| a == c;
    lemma_mirror_counts(u, urows, vrows, p, s, e, s2, e2, sym_below(l, c), sym_below(col, c), below);
    lemma_mirror_counts(u, urows, vrows, p, s, e, s2, e2, sym_is(l, c), sym_is(col, c), is);
    lemma_count_split(0, s, e, sym_is(l, c));
    crate::counting::lemma_count_disjoint_or(
        s2,
        e2,
        sym_below(col, c),
        sym_is(col, c),
        crate::rotation::sym_upto(col, c),
    );
    crate::counting::lemma_count_bound(s2, e2, crate::rotation::sym_upto(col, c));
}

/// What an extension by `c` makes of the ranges `s..e` on the side that the
/// symbol is searched on and `s2..` on the other side: the first moves by a
/// step of backward search, the second skips the rows of smaller symbols and
/// becomes as long as the first; where no row is left, both are `(0, 0)`.
pub open spec fn extend_ranges(u: Seq<u8>, urows: Seq<int>, c: u8, s: int, e: int, s2: int) -> (
    int,
    int,
    int,
    int,
) {
    let l = last_column(u, urows);
    let ns = smaller(u, c) + rank(l, c, s);
    let ne = smaller(u, c) + rank(l, c, e);
    let less = count_in(s, e, sym_below(l, c));
    if ns < ne {
        (ns as int, ne as int, s2 + less, s2 + less + (ne - ns))
    } else {
        (0, 0, 0, 0)
    }
}

/// The ranges that an extension at the front leads to are the two ranges of
/// the longer pattern.
pub proof fn lemma_extend_front(
    u: Seq<u8>,
    urows: Seq<int>,
    vrows: Seq<int>,
    p: Seq<u8>,
    s: int,
    e: int,
    s2: int,
    e2: int,
    c: u8,
)
    requires
        rows_sorted(u, urows),
        rows_sorted(u.reverse(), vrows),
        dual_range(u, urows, vrows, p, s, e, s2, e2),
    ensures
        ({
            let r = extend_ranges(u, urows, c, s, e, s2);
            &&& dual_range(u, urows, vrows, seq![c] + p, r.0, r.1, r.2, r.3)
            &&& r.1 - r.0 == r.3 - r.2
            &&& 0 <= r.0 <= r.1
            &&& 0 <= r.2 <= r.3 <= e2 || r.3 == 0
            &&& s == e ==> r == (0int, 0int, 0int, 0int)
        }),
{
    lemma_extend(u, urows, vrows, p, s, e, s2, e2, c);
    let l = last_column(u, urows);
    let ns = smaller(u, c) + rank(l, c, s);
    let ne = smaller(u, c) + rank(l, c, e);
    let less = count_in(s, e, sym_below(l, c));
    let q = seq![c] + p;
    if ns >= ne {
        // no row begins with the longer pattern, on either side
        assert(range_matches(u, urows, q, ns as int, ne as int));
        assert(range_matches(u.reverse(), vrows, q.reverse(), s2 + less, s2 + less));
        assert(range_matches(u, urows, q, 0, 0));
        assert(range_matches(u.reverse(), vrows, q.reverse(), 0, 0));
    }
}

/// The ranges that an extension at the end leads to are the two ranges of
/// the longer pattern: it is an extension at the front of the reversed
/// pattern over the reversed text.
pub proof fn lemma_extend_back(
    u: Seq<u8>,
    urows: Seq<int>,
    vrows: Seq<int>,
    p: Seq<u8>,
    s: int,
    e: int,
    s2: int,
    e2: int,
    c: u8,
)
    requires
        rows_sorted(u, urows),
        rows_sorted(u.reverse(), vrows),
        dual_range(u, urows, vrows, p, s, e, s2, e2),
    ensures
        ({
            let r = extend_ranges(u.reverse(), vrows, c, s2, e2, s);
            &&& dual_range(u, urows, vrows, p.push(c), r.2, r.3, r.0, r.1)
            &&& r.1 - r.0 == r.3 - r.2
            &&& s2 == e2 ==> r == (0int, 0int, 0int, 0int)
        }),
{
    let v = u.reverse();
    lemma_turn(u, urows, vrows, p, s, e, s2, e2);
    lemma_extend_front(v, vrows, urows, p.reverse(), s2, e2, s, e, c);
    let r = extend_ranges(v, vrows, c, s2, e2, s);
    let grown = seq![c] + p.reverse();
    lemma_turn(v, vrows, urows, grown, r.0, r.1, r.2, r.3);
    assert(grown.reverse() =~= p.push(c));
}

} // verus!
