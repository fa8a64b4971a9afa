use vstd::prelude::*;

verus! {

/// Number of leading positions on which `a` and `b` agree.
pub open spec fn prefix_len(a: Seq<u8>, b: Seq<u8>) -> nat
    decreases a.len(),
{
    if a.len() == 0 || b.len() == 0 || a[0] != b[0] {
        0
    } else {
        1 + prefix_len(a.drop_first(), b.drop_first())
    }
}

/// `l` is the length of the longest common prefix of `a` and `b`.
pub open spec fn is_prefix_len(a: Seq<u8>, b: Seq<u8>, l: int) -> bool {
    &&& 0 <= l <= a.len()
    &&& l <= b.len()
    &&& forall|j: int| 0 <= j < l ==> a[j] == b[j]
    &&& (l < a.len() && l < b.len() ==> a[l] != b[l])
}

pub proof fn lemma_prefix_len(a: Seq<u8>, b: Seq<u8>)
    ensures
        is_prefix_len(a, b, prefix_len(a, b) as int),
    decreases a.len(),
{
    if a.len() == 0 || b.len() == 0 || a[0] != b[0] {
    } else {
        lemma_prefix_len(a.drop_first(), b.drop_first());
        let l = prefix_len(a, b) as int;
        assert forall|j: int| 0 <= j < l implies a[j] == b[j] by {
            if j > 0 {
                assert(a.drop_first()[j - 1] == a[j]);
                assert(b.drop_first()[j - 1] == b[j]);
            }
        }
        if l < a.len() && l < b.len() {
            assert(a.drop_first()[l - 1] == a[l]);
            assert(b.drop_first()[l - 1] == b[l]);
        }
    }
}

/// The longest common prefix is characterised by `is_prefix_len`.
pub proof fn lemma_prefix_len_unique(a: Seq<u8>, b: Seq<u8>, l: int)
    requires
        is_prefix_len(a, b, l),
    ensures
        prefix_len(a, b) == l,
{
    lemma_prefix_len(a, b);
    let m = prefix_len(a, b) as int;
    if m < l {
        assert(a[m] == b[m]);
    } else if l < m {
        assert(a[l] == b[l]);
    }
}

} // verus!
