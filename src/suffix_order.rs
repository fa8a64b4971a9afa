//! Lexicographic order of byte strings, suffix arrays, and what their order
//! says about common prefixes.
use vstd::prelude::*;

use crate::prefix::{is_prefix_len, lemma_prefix_len, lemma_prefix_len_unique, prefix_len};

verus! {

/// `a` sorts strictly before `b`: it is a proper prefix of `b`, or smaller at
/// the first byte where the two differ.
pub open spec fn lex_lt(a: Seq<u8>, b: Seq<u8>) -> bool {
    let m = prefix_len(a, b) as int;
    (m == a.len() && m < b.len()) || (m < a.len() && m < b.len() && a[m] < b[m])
}

/// Some entry of `sa` is `x`.
pub open spec fn occurs(sa: Seq<u32>, x: int) -> bool {
    exists|k: int| 0 <= k < sa.len() && sa[k] == x
}

/// `sa` is the suffix array of `s`: a permutation of `0 ..= s.len()` that
/// lists the start of every suffix of `s`, the empty one included, in
/// strictly increasing order of the suffixes.
pub open spec fn is_suffix_array(s: Seq<u8>, sa: Seq<u32>) -> bool {
    &&& sa.len() == s.len() + 1
    &&& forall|k: int| 0 <= k < sa.len() ==> sa[k] <= s.len()
    &&& forall|x: int| 0 <= x <= s.len() ==> #[trigger] occurs(sa, x)
    &&& forall|a: int, b: int|
        0 <= a < b < sa.len() ==> lex_lt(s.skip(#[trigger] sa[a] as int), s.skip(#[trigger] sa[b] as int))
}

pub proof fn lemma_prefix_len_symmetric(a: Seq<u8>, b: Seq<u8>)
    ensures
        prefix_len(a, b) == prefix_len(b, a),
{
    lemma_prefix_len(a, b);
    lemma_prefix_len_unique(b, a, prefix_len(a, b) as int);
}

pub proof fn lemma_lex_lt_irreflexive(a: Seq<u8>)
    ensures
        !lex_lt(a, a),
{
    lemma_prefix_len_unique(a, a, a.len() as int);
}

/// Of three strings in increasing order, the outer two share no longer a
/// prefix than either shares with the middle one.
pub proof fn lemma_lex_between(a: Seq<u8>, b: Seq<u8>, c: Seq<u8>)
    requires
        lex_lt(a, b),
        lex_lt(b, c),
    ensures
        prefix_len(a, c) <= prefix_len(a, b),
        prefix_len(a, c) <= prefix_len(b, c),
{
    lemma_prefix_len(a, b);
    lemma_prefix_len(b, c);
    lemma_prefix_len(a, c);
    let m = prefix_len(a, c) as int;
    let k = prefix_len(a, b) as int;
    let k2 = prefix_len(b, c) as int;
    if k < m {
        assert(a[k] < b[k]);
        assert(a[k] == c[k]);
        assert(is_prefix_len(b, c, k));
        lemma_prefix_len_unique(b, c, k);
    }
    if k2 < m {
        if k2 == b.len() {
            assert(is_prefix_len(a, b, k2));
            lemma_prefix_len_unique(a, b, k2);
        } else {
            assert(b[k2] < c[k2]);
            assert(a[k2] == c[k2]);
            assert(is_prefix_len(a, b, k2));
            lemma_prefix_len_unique(a, b, k2);
        }
    }
}

} // verus!
