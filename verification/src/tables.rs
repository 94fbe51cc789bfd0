//! The tables of an FM-index: the alphabet, the count of smaller symbols per
//! symbol, the last column and its rank table; and one step of backward
//! search over them.
use crate::counting::count_in;
use crate::rotation::{
    last_column, lemma_prepend, lemma_rot_wrap, lemma_wrap, range_matches, rank, rot, rot_match,
    rows_sorted, smaller, sym_below, sym_is,
};
use vstd::prelude::*;

verus! {

/// `alph` lists the symbols that occur in `t`, each once, in increasing order.
pub open spec fn is_alphabet(alph: Seq<u8>, t: Seq<u8>) -> bool {
    &&& forall|a: int, b: int| 0 <= a < b < alph.len() ==> #[trigger] alph[a] < #[trigger] alph[b]
    &&& forall|k: int| 0 <= k < alph.len() ==> t.contains(#[trigger] alph[k])
    &&& forall|i: int| 0 <= i < t.len() ==> alph.contains(#[trigger] t[i])
}

/// `starts[k]` is the number of symbols of `t` smaller than `alph[k]`: the
/// C-array of the index.
pub open spec fn is_char_start(starts: Seq<usize>, alph: Seq<u8>, t: Seq<u8>) -> bool {
    &&& starts.len() == alph.len()
    &&& forall|k: int| 0 <= k < alph.len() ==> #[trigger] starts[k] == smaller(t, alph[k])
}

/// `counts[k]` is the number of times `alph[k]` occurs in `t`.
pub open spec fn is_char_count(counts: Seq<usize>, alph: Seq<u8>, t: Seq<u8>) -> bool {
    &&& counts.len() == alph.len()
    &&& forall|k: int|
        0 <= k < alph.len() ==> #[trigger] counts[k] == count_in(
            0,
            t.len() as int,
            sym_is(t, alph[k]),
        )
}

/// `occ[k][j]` is the number of times `alph[k]` occurs in `l` before place
/// `j`, for every `j` up to the length of `l`.
pub open spec fn is_occ_table(occ: Seq<Vec<usize>>, alph: Seq<u8>, l: Seq<u8>) -> bool {
    &&& occ.len() == alph.len()
    &&& forall|k: int| 0 <= k < alph.len() ==> (#[trigger] occ[k]).len() == l.len() + 1
    &&& forall|k: int, j: int|
        0 <= k < alph.len() && 0 <= j <= l.len() ==> #[trigger] occ[k][j] == rank(l, alph[k], j)
}

/// The symbols of `s`, each once, in increasing order.
pub fn alphabet(s: &[u8]) -> (alph: Vec<u8>)
    ensures
        is_alphabet(alph@, s@),
{
    let n = s.len();
    let mut seen: Vec<bool> = Vec::new();
    let mut c: usize = 0;
    while c < 256
        invariant
            c <= 256,
            seen.len() == c,
            forall|k: int| 0 <= k < c ==> !#[trigger] seen[k],
        decreases 256 - c,
    {
        seen.push(false);
        c += 1;
    }
    let mut i: usize = 0;
    while i < n
        invariant
            n == s.len(),
            i <= n,
            seen.len() == 256,
            forall|k: int| 0 <= k < 256 ==> (#[trigger] seen[k] <==> exists|j: int| 0 <= j < i && s[j] == k),
        decreases n - i,
    {
        let ghost before = seen@;
        let sym = s[i];
        seen.set(sym as usize, true);
        proof {
            assert forall|k: int| 0 <= k < 256 implies (#[trigger] seen[k] <==> exists|j: int|
                0 <= j < i + 1 && s[j] == k) by {
                if seen[k] {
                    if k == sym {
                        assert(s[i as int] == k);
                    } else {
                        assert(before[k]);
                        let j = choose|j: int| 0 <= j < i && s[j] == k;
                        assert(0 <= j < i + 1 && s[j] == k);
                    }
                } else {
                    assert(!before[k]);
                }
            }
        }
        i += 1;
    }
    let mut alph: Vec<u8> = Vec::new();
    let mut c: usize = 0;
    while c < 256
        invariant
            n == s.len(),
            c <= 256,
            seen.len() == 256,
            forall|k: int| 0 <= k < 256 ==> (#[trigger] seen[k] <==> exists|j: int| 0 <= j < n && s[j] == k),
            forall|a: int, b: int| 0 <= a < b < alph.len() ==> #[trigger] alph[a] < #[trigger] alph[b],
            forall|k: int| 0 <= k < alph.len() ==> #[trigger] alph[k] < c && seen[alph[k] as int],
            forall|k: int| 0 <= k < c && #[trigger] seen[k] ==> alph@.contains(k as u8),
        decreases 256 - c,
    {
        if seen[c] {
            let ghost before = alph@;
            alph.push(c as u8);
            proof {
                assert(alph[alph.len() - 1] == c);
                assert forall|k: int| 0 <= k < c + 1 && #[trigger] seen[k] implies alph@.contains(
                    k as u8,
                ) by {
                    if k < c {
                        let at = choose|at: int| 0 <= at < before.len() && before[at] == k as u8;
                        assert(alph[at] == k as u8);
                    }
                }
            }
        }
        c += 1;
    }
    proof {
        assert forall|k: int| 0 <= k < alph.len() implies s@.contains(#[trigger] alph[k]) by {
            let sym = alph[k] as int;
            assert(seen[sym]);
            let j = choose|j: int| 0 <= j < n && s[j] == sym;
            assert(s@[j] == alph[k]);
        }
        assert forall|i: int| 0 <= i < n implies alph@.contains(#[trigger] s[i]) by {
            assert(seen[s[i] as int]);
        }
    }
    alph
}

/// Where `c` stands in the alphabet, if it does.
pub fn symbol_index(alph: &Vec<u8>, c: u8) -> (r: Option<usize>)
    ensures
        match r {
            Some(k) => k < alph.len() && alph[k as int] == c && forall|a: int|
                0 <= a < k ==> alph[a] != c,
            None => !alph@.contains(c),
        },
{
    let mut k: usize = 0;
    while k < alph.len()
        invariant
            k <= alph.len(),
            forall|a: int| 0 <= a < k ==> alph[a] != c,
        decreases alph.len() - k,
    {
        if alph[k] == c {
            return Some(k);
        }
        k += 1;
    }
    None
}

/// Number of symbols of `s` that are smaller than `c`.
pub fn count_smaller(s: &[u8], c: u8) -> (r: usize)
    ensures
        r == smaller(s@, c),
{
    let n = s.len();
    let mut r: usize = 0;
    let mut i: usize = 0;
    while i < n
        invariant
            n == s.len(),
            i <= n,
            r <= i,
            r == count_in(0, i as int, sym_below(s@, c)),
        decreases n - i,
    {
        if s[i] < c {
            r += 1;
        }
        i += 1;
    }
    r
}

/// Number of times `c` occurs in `s`.
pub fn count_symbol(s: &[u8], c: u8) -> (r: usize)
    ensures
        r == count_in(0, s@.len() as int, sym_is(s@, c)),
{
    let n = s.len();
    let mut r: usize = 0;
    let mut i: usize = 0;
    while i < n
        invariant
            n == s.len(),
            i <= n,
            r <= i,
            r == count_in(0, i as int, sym_is(s@, c)),
        decreases n - i,
    {
        if s[i] == c {
            r += 1;
        }
        i += 1;
    }
    r
}

/// The C-array: for each symbol of the alphabet, how many symbols of `s` are
/// smaller.
pub fn char_starts(alph: &Vec<u8>, s: &[u8]) -> (starts: Vec<usize>)
    ensures
        is_char_start(starts@, alph@, s@),
{
    let mut starts: Vec<usize> = Vec::new();
    let mut k: usize = 0;
    while k < alph.len()
        invariant
            k <= alph.len(),
            starts.len() == k,
            forall|a: int| 0 <= a < k ==> #[trigger] starts[a] == smaller(s@, alph[a]),
        decreases alph.len() - k,
    {
        starts.push(count_smaller(s, alph[k]));
        k += 1;
    }
    starts
}

/// For each symbol of the alphabet, how often it occurs in `s`.
pub fn char_counts(alph: &Vec<u8>, s: &[u8]) -> (counts: Vec<usize>)
    ensures
        is_char_count(counts@, alph@, s@),
{
    let mut counts: Vec<usize> = Vec::new();
    let mut k: usize = 0;
    while k < alph.len()
        invariant
            k <= alph.len(),
            counts.len() == k,
            forall|a: int|
                0 <= a < k ==> #[trigger] counts[a] == count_in(
                    0,
                    s@.len() as int,
                    sym_is(s@, alph[a]),
                ),
        decreases alph.len() - k,
    {
        counts.push(count_symbol(s, alph[k]));
        k += 1;
    }
    counts
}

/// The running counts of `c` in `l`: entry `j` is the number of times `c`
/// occurs before place `j`; there is one entry more than `l` has symbols.
pub fn occ_column(l: &[u8], c: u8) -> (col: Vec<usize>)
    ensures
        col.len() == l@.len() + 1,
        forall|j: int| 0 <= j <= l@.len() ==> #[trigger] col[j] == rank(l@, c, j),
{
    let n = l.len();
    let mut col: Vec<usize> = Vec::new();
    let mut seen: usize = 0;
    col.push(0);
    let mut j: usize = 0;
    while j < n
        invariant
            n == l.len(),
            j <= n,
            col.len() == j + 1,
            seen <= j,
            seen == rank(l@, c, j as int),
            forall|a: int| 0 <= a <= j ==> #[trigger] col[a] == rank(l@, c, a),
        decreases n - j,
    {
        if l[j] == c {
            seen += 1;
        }
        col.push(seen);
        j += 1;
    }
    col
}

/// The rank table of `l` over the alphabet.
pub fn occ_table(alph: &Vec<u8>, l: &[u8]) -> (occ: Vec<Vec<usize>>)
    ensures
        is_occ_table(occ@, alph@, l@),
{
    let mut occ: Vec<Vec<usize>> = Vec::new();
    let mut k: usize = 0;
    while k < alph.len()
        invariant
            k <= alph.len(),
            occ.len() == k,
            forall|a: int| 0 <= a < k ==> (#[trigger] occ[a]).len() == l@.len() + 1,
            forall|a: int, j: int|
                0 <= a < k && 0 <= j <= l@.len() ==> #[trigger] occ[a][j] == rank(l@, alph[a], j),
        decreases alph.len() - k,
    {
        occ.push(occ_column(l, alph[k]));
        k += 1;
    }
    occ
}

/// A symbol that stands in `l` is counted at least once.
pub proof fn lemma_count_positive(l: Seq<u8>, c: u8)
    requires
        l.contains(c),
    ensures
        count_in(0, l.len() as int, sym_is(l, c)) >= 1,
{
    let i = choose|i: int| 0 <= i < l.len() && l[i] == c;
    crate::counting::lemma_count_split(0, i, l.len() as int, sym_is(l, c));
    crate::counting::lemma_count_split(i, i + 1, l.len() as int, sym_is(l, c));
    assert(count_in(i, i, sym_is(l, c)) == 0);
    assert(sym_is(l, c)(i));
}

/// A symbol that does not stand in `l` is counted nowhere.
pub proof fn lemma_count_absent(l: Seq<u8>, c: u8)
    requires
        !l.contains(c),
    ensures
        count_in(0, l.len() as int, sym_is(l, c)) == 0,
{
    assert forall|i: int| 0 <= i < l.len() implies !#[trigger] sym_is(l, c)(i) by {
        assert(l[i] != c);
    }
    crate::counting::lemma_count_none(0, l.len() as int, sym_is(l, c));
}

/// The symbols below `c` and the occurrences of `c` together are no more
/// than the text has symbols.
pub proof fn lemma_block_fits(t: Seq<u8>, c: u8)
    ensures
        smaller(t, c) + count_in(0, t.len() as int, sym_is(t, c)) <= t.len(),
{
    let n = t.len() as int;
    crate::counting::lemma_count_disjoint_or(
        0,
        n,
        sym_below(t, c),
        sym_is(t, c),
        crate::rotation::sym_upto(t, c),
    );
    crate::counting::lemma_count_bound(0, n, crate::rotation::sym_upto(t, c));
}

/// The sentinel of a valid text is the first symbol of its alphabet and
/// occurs once; a text of two symbols or more has a second symbol.
pub proof fn lemma_sentinel_first(t: Seq<u8>, alph: Seq<u8>)
    requires
        crate::text::valid_text(t),
        is_alphabet(alph, t),
    ensures
        alph.len() >= 1,
        alph[0] == t[t.len() - 1],
        count_in(0, t.len() as int, sym_is(t, t[t.len() - 1])) == 1,
        t.len() >= 2 ==> alph.len() >= 2,
{
    let n = t.len() as int;
    let end = t[n - 1];
    assert(alph.contains(t[n - 1]));
    let at = choose|at: int| 0 <= at < alph.len() && alph[at] == end;
    let w = choose|w: int| 0 <= w < t.len() && t[w] == alph[0];
    if at > 0 {
        assert(alph[0] < alph[at]);
        assert(w == n - 1 || t[n - 1] < t[w]);
    }
    assert forall|i: int| 0 <= i < n - 1 implies !#[trigger] sym_is(t, end)(i) by {
        assert(t[n - 1] < t[i]);
    }
    crate::counting::lemma_count_none(0, n - 1, sym_is(t, end));
    assert(sym_is(t, end)(n - 1));
    if n >= 2 {
        assert(alph.contains(t[0]));
        assert(t[n - 1] < t[0]);
    }
}

/// The running count of a symbol starts at nothing and goes up by one at
/// each place that holds the symbol, and nowhere else.
pub proof fn lemma_rank_steps(l: Seq<u8>, c: u8, j: int)
    requires
        0 <= j < l.len(),
    ensures
        rank(l, c, 0) == 0,
        rank(l, c, j + 1) == rank(l, c, j) + if l[j] == c { 1nat } else { 0nat },
{
}

/// The C-array begins with 0 and does not go down along the alphabet.
pub proof fn lemma_char_start_order(t: Seq<u8>, alph: Seq<u8>, starts: Seq<usize>, a: int, b: int)
    requires
        is_alphabet(alph, t),
        is_char_start(starts, alph, t),
        0 <= a <= b < alph.len(),
    ensures
        starts[0] == 0,
        starts[a] <= starts[b],
{
    let n = t.len() as int;
    assert forall|i: int| 0 <= i < n implies !#[trigger] sym_below(t, alph[0])(i) by {
        let at = choose|at: int| 0 <= at < alph.len() && alph[at] == t[i];
        assert(at == 0 || alph[0] < alph[at]);
    }
    crate::counting::lemma_count_none(0, n, sym_below(t, alph[0]));
    if a < b {
        // what is below the earlier symbol is below the later one
        let both = |i: int| sym_below(t, alph[a])(i) || (alph[a] <= t[i] && t[i] < alph[b]);
        let rest = |i: int| alph[a] <= t[i] && t[i] < alph[b];
        assert(alph[a] < alph[b]);
        crate::counting::lemma_count_disjoint_or(0, n, sym_below(t, alph[a]), rest, both);
        crate::counting::lemma_count_ext(0, n, both, sym_below(t, alph[b]));
    }
}

/// The sum of the counts of the first `k` symbols of the alphabet in `l`
/// before place `j`.
pub open spec fn rank_sum(l: Seq<u8>, alph: Seq<u8>, k: int, j: int) -> nat
    decreases k,
{
    if k <= 0 {
        0
    } else {
        rank_sum(l, alph, k - 1, j) + rank(l, alph[k - 1], j)
    }
}

/// The counts of all symbols of the alphabet before place `j` add up to `j`.
pub proof fn lemma_rank_total(l: Seq<u8>, alph: Seq<u8>, j: int)
    requires
        forall|a: int, b: int| 0 <= a < b < alph.len() ==> #[trigger] alph[a] < #[trigger] alph[b],
        forall|i: int| 0 <= i < l.len() ==> alph.contains(#[trigger] l[i]),
        0 <= j <= l.len(),
    ensures
        rank_sum(l, alph, alph.len() as int, j) == j,
{
    let m = alph.len() as int;
    if m == 0 {
        if j > 0 {
            assert(alph.contains(l[0]));
        }
    } else {
        lemma_rank_sum_below(l, alph, m - 1, j);
        let top = alph[m - 1];
        crate::counting::lemma_count_disjoint_or(
            0,
            j,
            sym_below(l, top),
            sym_is(l, top),
            crate::rotation::sym_upto(l, top),
        );
        assert forall|i: int| 0 <= i < j implies #[trigger] crate::rotation::sym_upto(l, top)(i) by {
            let at = choose|at: int| 0 <= at < alph.len() && alph[at] == l[i];
            assert(at == m - 1 || alph[at] < alph[m - 1]);
        }
        crate::counting::lemma_count_all(0, j, crate::rotation::sym_upto(l, top));
    }
}

/// The counts of the symbols before `alph[k]` add up to the number of
/// smaller symbols.
proof fn lemma_rank_sum_below(l: Seq<u8>, alph: Seq<u8>, k: int, j: int)
    requires
        forall|a: int, b: int| 0 <= a < b < alph.len() ==> #[trigger] alph[a] < #[trigger] alph[b],
        forall|i: int| 0 <= i < l.len() ==> alph.contains(#[trigger] l[i]),
        0 <= k < alph.len(),
        0 <= j <= l.len(),
    ensures
        rank_sum(l, alph, k, j) == count_in(0, j, sym_below(l, alph[k])),
    decreases k,
{
    if k == 0 {
        assert forall|i: int| 0 <= i < j implies !#[trigger] sym_below(l, alph[0])(i) by {
            let at = choose|at: int| 0 <= at < alph.len() && alph[at] == l[i];
            assert(at == 0 || alph[0] < alph[at]);
        }
        crate::counting::lemma_count_none(0, j, sym_below(l, alph[0]));
    } else {
        lemma_rank_sum_below(l, alph, k - 1, j);
        let here = alph[k - 1];
        let next = alph[k];
        assert forall|i: int| 0 <= i < j implies (#[trigger] sym_below(l, next)(i) <==> (sym_below(
            l,
            here,
        )(i) || sym_is(l, here)(i))) by {
            let at = choose|at: int| 0 <= at < alph.len() && alph[at] == l[i];
            if at < k - 1 {
                assert(alph[at] < alph[k - 1]);
            } else if at > k {
                assert(alph[k] < alph[at]);
            }
            assert(here < next);
        }
        crate::counting::lemma_count_disjoint_or(
            0,
            j,
            sym_below(l, here),
            sym_is(l, here),
            sym_below(l, next),
        );
    }
}

/// The three tables belong to the sorted rotations `rows` of `t`.
pub open spec fn is_index(
    t: Seq<u8>,
    rows: Seq<int>,
    alph: Seq<u8>,
    starts: Seq<usize>,
    occ: Seq<Vec<usize>>,
) -> bool {
    &&& rows_sorted(t, rows)
    &&& is_alphabet(alph, t)
    &&& is_char_start(starts, alph, t)
    &&& is_occ_table(occ, alph, last_column(t, rows))
}

/// The range that one step of backward search leads to: from the rows `s..e`
/// to the rows that hold `c` before one of them.
pub open spec fn step_range(t: Seq<u8>, rows: Seq<int>, c: u8, s: int, e: int) -> (int, int) {
    let l = last_column(t, rows);
    ((smaller(t, c) + rank(l, c, s)) as int, (smaller(t, c) + rank(l, c, e)) as int)
}

/// The range of rows that begin with `p`, as backward search finds it: the
/// symbols of `p` are taken last one first, each by one step, and as soon as
/// a step leaves no row the range is `(0, 0)`.
pub open spec fn search_range(t: Seq<u8>, rows: Seq<int>, p: Seq<u8>) -> (int, int)
    decreases p.len(),
{
    if p.len() == 0 {
        (0, rows.len() as int)
    } else {
        let (s, e) = search_range(t, rows, p.drop_first());
        let (s2, e2) = step_range(t, rows, p[0], s, e);
        if s2 < e2 {
            (s2, e2)
        } else {
            (0, 0)
        }
    }
}

/// No rotation begins with a symbol that the text does not hold.
pub proof fn lemma_unknown_symbol(t: Seq<u8>, rows: Seq<int>, p: Seq<u8>)
    requires
        rows_sorted(t, rows),
        p.len() > 0,
        !t.contains(p[0]),
    ensures
        range_matches(t, rows, p, 0, 0),
{
    assert forall|j: int| 0 <= j < rows.len() implies !rot_match(t, #[trigger] rows[j], p) by {
        lemma_rot_wrap(t, rows[j], 0);
        if rot_match(t, rows[j], p) {
            assert(rot(t, rows[j], 0) == p[0]);
            assert(t[rows[j]] == p[0]);
        }
    }
}

/// What backward search finds is the range of rows that begin with the
/// pattern.
pub proof fn lemma_search_range(t: Seq<u8>, rows: Seq<int>, p: Seq<u8>)
    requires
        rows_sorted(t, rows),
    ensures
        range_matches(t, rows, p, search_range(t, rows, p).0, search_range(t, rows, p).1),
    decreases p.len(),
{
    if p.len() == 0 {
        assert(p =~= Seq::<u8>::empty());
        crate::rotation::lemma_range_of_empty(t, rows);
    } else {
        let rest = p.drop_first();
        lemma_search_range(t, rows, rest);
        let (s, e) = search_range(t, rows, rest);
        lemma_prepend(t, rows, rest, s, e, p[0]);
        assert(seq![p[0]] + rest =~= p);
    }
}

/// The last column of the sorted rotations: for each row the symbol before
/// its start position, the last symbol of the text before position 0.
pub fn last_column_of(t: &[u8], sa: &Vec<usize>) -> (l: Vec<u8>)
    requires
        t@.len() > 0,
        sa@.len() == t@.len(),
        forall|j: int| 0 <= j < sa@.len() ==> #[trigger] sa[j] < t@.len(),
    ensures
        l@ == last_column(t@, crate::suffix_array::rows_of(sa@)),
{
    let n = t.len();
    let ghost rows = crate::suffix_array::rows_of(sa@);
    let mut l: Vec<u8> = Vec::new();
    let mut j: usize = 0;
    while j < n
        invariant
            n == t.len(),
            n > 0,
            sa@.len() == n,
            rows == crate::suffix_array::rows_of(sa@),
            forall|k: int| 0 <= k < n ==> #[trigger] sa[k] < n,
            j <= n,
            l.len() == j,
            forall|k: int| 0 <= k < j ==> #[trigger] l[k] == rot(t@, rows[k], -1),
        decreases n - j,
    {
        let x = sa[j];
        proof {
            lemma_wrap(x as int - 1, 0, n as int);
            lemma_wrap(n as int - 1, 0, n as int);
        }
        if x == 0 {
            l.push(t[n - 1]);
        } else {
            l.push(t[x - 1]);
        }
        j += 1;
    }
    assert(l@ =~= last_column(t@, rows));
    l
}

/// One step of backward search over the tables: prepends `alph[ci]` to the
/// pattern whose rows are `s..e`.
pub(crate) fn search_step(
    starts: &Vec<usize>,
    occ: &Vec<Vec<usize>>,
    ci: usize,
    s: usize,
    e: usize,
    Ghost(t): Ghost<Seq<u8>>,
    Ghost(rows): Ghost<Seq<int>>,
    Ghost(alph): Ghost<Seq<u8>>,
) -> (r: (usize, usize))
    requires
        is_index(t, rows, alph, starts@, occ@),
        ci < alph.len(),
        s <= e <= rows.len(),
    ensures
        (r.0 as int, r.1 as int) == step_range(t, rows, alph[ci as int], s as int, e as int),
        r.0 <= r.1 <= rows.len(),
{
    proof {
        let l = last_column(t, rows);
        let c = alph[ci as int];
        // the steps of the full range bound every other step
        crate::rotation::lemma_range_of_empty(t, rows);
        lemma_prepend(t, rows, Seq::<u8>::empty(), 0, rows.len() as int, c);
        crate::counting::lemma_count_monotone(0, s as int, e as int, sym_is(l, c));
        crate::counting::lemma_count_monotone(0, e as int, rows.len() as int, sym_is(l, c));
        assert(occ@[ci as int][s as int] == rank(l, c, s as int));
        assert(occ@[ci as int][e as int] == rank(l, c, e as int));
    }
    (starts[ci] + occ[ci][s], starts[ci] + occ[ci][e])
}

/// Backward search: the range of rows whose rotation begins with `pattern`,
/// `(0, 0)` where there is none.
pub(crate) fn backward_search(
    alph: &Vec<u8>,
    starts: &Vec<usize>,
    occ: &Vec<Vec<usize>>,
    n: usize,
    pattern: &[u8],
    Ghost(t): Ghost<Seq<u8>>,
    Ghost(rows): Ghost<Seq<int>>,
) -> (r: (usize, usize))
    requires
        is_index(t, rows, alph@, starts@, occ@),
        n == t.len(),
    ensures
        (r.0 as int, r.1 as int) == search_range(t, rows, pattern@),
        range_matches(t, rows, pattern@, r.0 as int, r.1 as int),
        r.0 <= r.1 <= n,
        r.0 == r.1 ==> r.0 == 0,
{
    let m = pattern.len();
    let mut s: usize = 0;
    let mut e: usize = n;
    let mut i: usize = m;
    proof {
        assert(pattern@.subrange(m as int, m as int) =~= Seq::<u8>::empty());
        lemma_search_range(t, rows, pattern@);
    }
    while i > 0
        invariant
            is_index(t, rows, alph@, starts@, occ@),
            n == t.len(),
            m == pattern@.len(),
            i <= m,
            s <= e <= n,
            i < m ==> s < e,
            (s as int, e as int) == search_range(t, rows, pattern@.subrange(i as int, m as int)),
        decreases i,
    {
        let c = pattern[i - 1];
        let ghost tail = pattern@.subrange(i as int, m as int);
        let ghost longer = pattern@.subrange(i as int - 1, m as int);
        proof {
            assert(longer.drop_first() =~= tail);
            assert(longer[0] == c);
            lemma_search_range(t, rows, tail);
            lemma_search_range(t, rows, longer);
        }
        match symbol_index(alph, c) {
            None => {
                proof {
                    lemma_unknown_symbol(t, rows, longer);
                    let found = search_range(t, rows, longer);
                    if found.0 < found.1 {
                        assert(rot_match(t, rows[found.0], longer));
                    }
                    lemma_empty_range_stays(t, rows, pattern@, i as int - 1);
                    lemma_search_range(t, rows, pattern@);
                }
                return (0, 0);
            },
            Some(ci) => {
                let (s2, e2) = search_step(starts, occ, ci, s, e, Ghost(t), Ghost(rows), Ghost(alph@));
                if s2 >= e2 {
                    proof {
                        lemma_empty_range_stays(t, rows, pattern@, i as int - 1);
                        lemma_search_range(t, rows, pattern@);
                    }
                    return (0, 0);
                }
                s = s2;
                e = e2;
            },
        }
        i -= 1;
    }
    proof {
        assert(pattern@.subrange(0, m as int) =~= pattern@);
        lemma_search_range(t, rows, pattern@);
    }
    (s, e)
}

/// Once backward search has found no row for the end of a pattern, it finds
/// none for the pattern.
pub proof fn lemma_empty_range_stays(t: Seq<u8>, rows: Seq<int>, p: Seq<u8>, i: int)
    requires
        rows_sorted(t, rows),
        0 <= i <= p.len(),
        search_range(t, rows, p.subrange(i, p.len() as int)).0 >= search_range(
            t,
            rows,
            p.subrange(i, p.len() as int),
        ).1,
    ensures
        search_range(t, rows, p) == (0int, 0int),
    decreases i,
{
    let m = p.len() as int;
    if i == 0 {
        assert(p.subrange(0, m) =~= p);
        lemma_search_range(t, rows, p);
        if p.len() > 0 {
        } else {
            assert(rows.len() > 0);
        }
    } else {
        let tail = p.subrange(i, m);
        let longer = p.subrange(i - 1, m);
        assert(longer.drop_first() =~= tail);
        lemma_search_range(t, rows, tail);
        let (s, e) = search_range(t, rows, tail);
        // an empty range has the form (0, 0), and a step keeps it empty
        assert(s == e);
        lemma_empty_range_stays(t, rows, p, i - 1);
    }
}

/// The text does not hold `c`, so neither does the last column of its
/// rotations.
pub proof fn lemma_rank_of_unknown(t: Seq<u8>, rows: Seq<int>, c: u8, j: int)
    requires
        rows_sorted(t, rows),
        !t.contains(c),
        0 <= j <= rows.len(),
    ensures
        rank(last_column(t, rows), c, j) == 0,
{
    let l = last_column(t, rows);
    assert forall|i: int| 0 <= i < j implies !#[trigger] sym_is(l, c)(i) by {
        lemma_wrap(rows[i] - 1, 0, t.len() as int);
        assert(t.contains(t[(rows[i] - 1) % (t.len() as int)]));
    }
    crate::counting::lemma_count_none(0, j, sym_is(l, c));
}

/// Every symbol of the last column is a symbol of the alphabet.
pub proof fn lemma_last_column_symbols(t: Seq<u8>, rows: Seq<int>, alph: Seq<u8>, j: int)
    requires
        rows_sorted(t, rows),
        is_alphabet(alph, t),
        0 <= j < rows.len(),
    ensures
        alph.contains(last_column(t, rows)[j]),
{
    lemma_wrap(rows[j] - 1, 0, t.len() as int);
    assert(alph.contains(t[(rows[j] - 1) % (t.len() as int)]));
}

/// Number of rows in `s..e` whose last-column symbol is smaller than
/// `alph[ci]`: the sum, over the smaller symbols of the alphabet, of their
/// counts in that part of the last column.
pub(crate) fn count_smaller_in_range(
    occ: &Vec<Vec<usize>>,
    ci: usize,
    s: usize,
    e: usize,
    Ghost(alph): Ghost<Seq<u8>>,
    Ghost(l): Ghost<Seq<u8>>,
) -> (less: usize)
    requires
        is_occ_table(occ@, alph, l),
        forall|a: int, b: int| 0 <= a < b < alph.len() ==> #[trigger] alph[a] < #[trigger] alph[b],
        forall|j: int| 0 <= j < l.len() ==> alph.contains(#[trigger] l[j]),
        ci < alph.len(),
        s <= e <= l.len(),
    ensures
        less == count_in(s as int, e as int, sym_below(l, alph[ci as int])),
        less <= e - s,
{
    let mut less: usize = 0;
    let mut k: usize = 0;
    proof {
        assert forall|j: int| s <= j < e implies !#[trigger] sym_below(l, alph[0])(j) by {
            let at = choose|at: int| 0 <= at < alph.len() && alph[at] == l[j];
            assert(at == 0 || alph[0] < alph[at]);
        }
        crate::counting::lemma_count_none(s as int, e as int, sym_below(l, alph[0]));
    }
    while k < ci
        invariant
            is_occ_table(occ@, alph, l),
            forall|a: int, b: int|
                0 <= a < b < alph.len() ==> #[trigger] alph[a] < #[trigger] alph[b],
            forall|j: int| 0 <= j < l.len() ==> alph.contains(#[trigger] l[j]),
            ci < alph.len(),
            s <= e <= l.len(),
            k <= ci,
            less == count_in(s as int, e as int, sym_below(l, alph[k as int])),
        decreases ci - k,
    {
        proof {
            let here = alph[k as int];
            let next = alph[k as int + 1];
            assert forall|j: int| s <= j < e implies (#[trigger] sym_below(l, next)(j) <==> (
            sym_below(l, here)(j) || sym_is(l, here)(j))) by {
                let at = choose|at: int| 0 <= at < alph.len() && alph[at] == l[j];
                if at < k {
                    assert(alph[at] < alph[k as int]);
                } else if at > k + 1 {
                    assert(alph[k as int + 1] < alph[at]);
                }
                assert(here < next);
            }
            crate::counting::lemma_count_disjoint_or(
                s as int,
                e as int,
                sym_below(l, here),
                sym_is(l, here),
                sym_below(l, next),
            );
            crate::counting::lemma_count_split(0, s as int, e as int, sym_is(l, here));
            crate::counting::lemma_count_bound(s as int, e as int, sym_below(l, next));
            assert(occ@[k as int][s as int] == rank(l, here, s as int));
            assert(occ@[k as int][e as int] == rank(l, here, e as int));
        }
        less = less + (occ[k][e] - occ[k][s]);
        k += 1;
    }
    proof {
        crate::counting::lemma_count_bound(s as int, e as int, sym_below(l, alph[ci as int]));
    }
    less
}

} // verus!
