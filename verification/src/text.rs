//! The text model: byte strings, their lexicographic order, suffixes,
//! reversed prefixes, the sentinel rule and occurrences of a pattern.
use crate::counting::{count_in, lemma_injective_onto};
use vstd::prelude::*;

verus! {

/// Why an index could not be built over a text.
#[derive(Clone, Copy, Debug, PartialEq, Eq, Structural)]
pub enum ConstructionError {
    /// The text holds no symbol at all.
    EmptyInput,
    /// The last symbol is not strictly smaller than every other symbol.
    MissingSentinel,
}

/// `a` and `b` hold the same symbols at the positions below `d`.
pub open spec fn agree_upto(a: Seq<u8>, b: Seq<u8>, d: int) -> bool {
    forall|k: int|
        #![trigger a[k]]
        #![trigger b[k]]
        0 <= k < d ==> a[k] == b[k]
}

/// `a` sorts before `b`, and position `d` shows it: the two agree below `d`,
/// and there `a` ends or holds the smaller symbol.
pub open spec fn lex_lt_at(a: Seq<u8>, b: Seq<u8>, d: int) -> bool {
    &&& 0 <= d <= a.len()
    &&& d < b.len()
    &&& agree_upto(a, b, d)
    &&& (d == a.len() || a[d] < b[d])
}

/// Strict lexicographic order on byte strings; a proper prefix sorts first.
pub open spec fn lex_lt(a: Seq<u8>, b: Seq<u8>) -> bool {
    exists|d: int| lex_lt_at(a, b, d)
}

/// The suffix of `t` that starts at position `i`.
pub open spec fn suffix(t: Seq<u8>, i: int) -> Seq<u8> {
    t.subrange(i, t.len() as int)
}

/// The first `i` symbols of `t`, last one first.
pub open spec fn reversed_prefix(t: Seq<u8>, i: int) -> Seq<u8> {
    t.subrange(0, i).reverse()
}

/// A text that an index can be built over: it is not empty and its last
/// symbol, the sentinel, is strictly smaller than every other symbol.
pub open spec fn valid_text(t: Seq<u8>) -> bool {
    &&& t.len() > 0
    &&& forall|i: int| 0 <= i < t.len() - 1 ==> t[t.len() - 1] < #[trigger] t[i]
}

/// `p` stands in `t` at position `i`, whole.
pub open spec fn occurs_at(t: Seq<u8>, i: int, p: Seq<u8>) -> bool {
    &&& 0 <= i
    &&& i + p.len() <= t.len()
    &&& t.subrange(i, i + p.len()) == p
}

/// Number of start positions below `t.len()` at which `p` stands in `t`;
/// occurrences may overlap, and the empty pattern stands at every position.
pub open spec fn occurrences(t: Seq<u8>, p: Seq<u8>) -> nat {
    count_in(0, t.len() as int, |i: int| occurs_at(t, i, p))
}

/// Every entry is below `n` and none occurs twice.
pub open spec fn is_permutation(sa: Seq<usize>, n: nat) -> bool {
    &&& sa.len() == n
    &&& forall|j: int| 0 <= j < n ==> #[trigger] sa[j] < n
    &&& forall|a: int, b: int| 0 <= a < b < n ==> #[trigger] sa[a] != #[trigger] sa[b]
}

/// `sa` lists the start positions of all suffixes of `t` in strictly
/// increasing lexicographic order of the suffixes.
pub open spec fn is_suffix_array(t: Seq<u8>, sa: Seq<usize>) -> bool {
    &&& is_permutation(sa, t.len())
    &&& forall|a: int, b: int|
        0 <= a < b < t.len() ==> lex_lt(
            suffix(t, #[trigger] sa[a] as int),
            suffix(t, #[trigger] sa[b] as int),
        )
}

/// `sar` lists the lengths `1..=n` of all non-empty prefixes of `t` in
/// strictly increasing lexicographic order of the reversed prefixes.
pub open spec fn is_reverse_suffix_array(t: Seq<u8>, sar: Seq<usize>) -> bool {
    &&& sar.len() == t.len()
    &&& forall|j: int| 0 <= j < t.len() ==> 1 <= #[trigger] sar[j] <= t.len()
    &&& forall|a: int, b: int|
        0 <= a < b < t.len() ==> lex_lt(
            reversed_prefix(t, #[trigger] sar[a] as int),
            reversed_prefix(t, #[trigger] sar[b] as int),
        )
}

/// No string sorts before itself.
pub proof fn lemma_lex_irreflexive(a: Seq<u8>)
    ensures
        !lex_lt(a, a),
{
    assert forall|d: int| !lex_lt_at(a, a, d) by {}
}

/// Of two strings at most one sorts before the other.
pub proof fn lemma_lex_asymmetric(a: Seq<u8>, b: Seq<u8>)
    ensures
        !(lex_lt(a, b) && lex_lt(b, a)),
{
    if lex_lt(a, b) && lex_lt(b, a) {
        let d1 = choose|d: int| lex_lt_at(a, b, d);
        let d2 = choose|d: int| lex_lt_at(b, a, d);
        if d1 < d2 {
            assert(b[d1] == a[d1]);
        } else if d2 < d1 {
            assert(a[d2] == b[d2]);
        }
    }
}

/// The order is transitive.
pub proof fn lemma_lex_transitive(a: Seq<u8>, b: Seq<u8>, c: Seq<u8>)
    requires
        lex_lt(a, b),
        lex_lt(b, c),
    ensures
        lex_lt(a, c),
{
    let d1 = choose|d: int| lex_lt_at(a, b, d);
    let d2 = choose|d: int| lex_lt_at(b, c, d);
    let d = if d1 <= d2 { d1 } else { d2 };
    assert forall|k: int| 0 <= k < d implies a[k] == c[k] by {
        assert(a[k] == b[k]);
        assert(b[k] == c[k]);
    }
    if d1 < d2 {
        assert(b[d1] == c[d1]);
    } else if d2 < d1 {
        assert(a[d2] == b[d2]);
    }
    assert(lex_lt_at(a, c, d));
}

/// What a comparison that has found the two strings equal below `k` may
/// conclude at `k`.
pub proof fn lemma_lex_decided(a: Seq<u8>, b: Seq<u8>, k: int)
    requires
        0 <= k <= a.len(),
        k <= b.len(),
        agree_upto(a, b, k),
    ensures
        k == b.len() ==> !lex_lt(a, b),
        k == a.len() && k < b.len() ==> lex_lt(a, b),
        k < a.len() && k < b.len() && a[k] < b[k] ==> lex_lt(a, b),
        k < a.len() && k < b.len() && a[k] > b[k] ==> !lex_lt(a, b),
        k == a.len() && k == b.len() ==> a == b,
{
    if k == a.len() && k == b.len() {
        assert(a =~= b);
    }
    if k < b.len() && (k == a.len() || a[k] < b[k]) {
        assert(lex_lt_at(a, b, k));
    }
    if k == b.len() || (k < a.len() && a[k] > b[k]) {
        assert forall|d: int| !lex_lt_at(a, b, d) by {
            if lex_lt_at(a, b, d) {
                if d < k {
                    assert(a[d] == b[d]);
                } else if d > k {
                    assert(a[k] == b[k]);
                }
            }
        }
    }
}

/// Two different strings are ordered one way or the other.
pub proof fn lemma_lex_total(a: Seq<u8>, b: Seq<u8>)
    ensures
        a == b || lex_lt(a, b) || lex_lt(b, a),
{
    lemma_lex_total_from(a, b, 0);
}

/// Two strings that agree below `k` are equal or ordered one way or the
/// other.
proof fn lemma_lex_total_from(a: Seq<u8>, b: Seq<u8>, k: int)
    requires
        0 <= k <= a.len(),
        k <= b.len(),
        agree_upto(a, b, k),
    ensures
        a == b || lex_lt(a, b) || lex_lt(b, a),
    decreases a.len() - k,
{
    assert(agree_upto(b, a, k));
    lemma_lex_decided(a, b, k);
    lemma_lex_decided(b, a, k);
    if k < a.len() && k < b.len() && a[k] == b[k] {
        lemma_lex_total_from(a, b, k + 1);
    }
}

/// Different suffixes of one text are different strings, so the order on
/// suffixes is total.
pub proof fn lemma_suffix_total(t: Seq<u8>, i: int, j: int)
    requires
        0 <= i <= t.len(),
        0 <= j <= t.len(),
        i != j,
    ensures
        lex_lt(suffix(t, i), suffix(t, j)) || lex_lt(suffix(t, j), suffix(t, i)),
{
    lemma_lex_total(suffix(t, i), suffix(t, j));
    assert(suffix(t, i).len() != suffix(t, j).len());
}

/// There is only one suffix array of a text.
pub proof fn lemma_suffix_array_unique(t: Seq<u8>, a: Seq<usize>, b: Seq<usize>)
    requires
        is_suffix_array(t, a),
        is_suffix_array(t, b),
    ensures
        a == b,
{
    assert forall|j: int| 0 <= j < t.len() implies a[j] == b[j] by {
        lemma_sorted_agree(t, a, b, j);
    }
    assert(a =~= b);
}

/// Every position below `n` occurs in a permutation of `0..n`.
pub proof fn lemma_permutation_onto(sa: Seq<usize>, n: nat, v: int) -> (j: int)
    requires
        is_permutation(sa, n),
        0 <= v < n,
    ensures
        0 <= j < n,
        sa[j] == v,
{
    lemma_injective_onto(Seq::new(n, |j: int| sa[j] as int), v)
}

/// Two suffix arrays of one text hold the same position at row `j`.
proof fn lemma_sorted_agree(t: Seq<u8>, a: Seq<usize>, b: Seq<usize>, j: int)
    requires
        is_suffix_array(t, a),
        is_suffix_array(t, b),
        0 <= j < t.len(),
    ensures
        a[j] == b[j],
    decreases j,
{
    // the two agree below j
    assert forall|k: int| 0 <= k < j implies a[k] == b[k] by {
        lemma_sorted_agree(t, a, b, k);
    }
    if a[j] != b[j] {
        let ka = lemma_permutation_onto(b, t.len(), a[j] as int);
        let kb = lemma_permutation_onto(a, t.len(), b[j] as int);
        // a[j] stands in b behind j, and b[j] stands in a behind j
        assert(ka > j) by {
            if ka < j {
                assert(a[ka] == b[ka]);
            }
        }
        assert(kb > j) by {
            if kb < j {
                assert(b[kb] == a[kb]);
            }
        }
        assert(lex_lt(suffix(t, b[j] as int), suffix(t, b[ka] as int)));
        assert(lex_lt(suffix(t, a[j] as int), suffix(t, a[kb] as int)));
        lemma_lex_asymmetric(suffix(t, a[j] as int), suffix(t, b[j] as int));
    }
}

} // verus!
