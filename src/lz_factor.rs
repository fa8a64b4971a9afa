//! Lempel-Ziv factorisation of a buffer from its suffix array, by the
//! linear-time previous/next-smaller-value (Phi array) method.
use vstd::prelude::*;

use crate::prefix::{lemma_prefix_len, lemma_prefix_len_unique, prefix_len};
use crate::suffix_order::{
    is_suffix_array, lemma_lex_between, lemma_lex_lt_irreflexive, lemma_prefix_len_symmetric, lex_lt,
};

verus! {

/// One unit of a factorisation: a copy of `len` bytes from an earlier
/// position of the same buffer, or a single literal byte.
#[derive(Debug, PartialEq, Eq, Structural, Clone, Copy)]
pub enum Factor {
    Normal(u32, u32),
    Special(u8),
}

/// Common prefix length of the suffixes starting at `i - 1` and `j - 1`;
/// position 0 is the sentinel and matches nothing.
pub open spec fn lcp_spec(s: Seq<u8>, i: int, j: int) -> nat {
    if i == 0 || j == 0 {
        0
    } else {
        prefix_len(s.skip(i - 1), s.skip(j - 1))
    }
}

/// Number of bytes a factor stands for.
pub open spec fn factor_len(f: Factor) -> nat {
    match f {
        Factor::Normal(_, l) => l as nat,
        Factor::Special(_) => 1,
    }
}

/// Position just past the text covered by `fs` when it starts at `start`.
pub open spec fn parse_end(start: int, fs: Seq<Factor>) -> int
    decreases fs.len(),
{
    if fs.len() == 0 {
        start
    } else {
        parse_end(start, fs.drop_last()) + factor_len(fs.last())
    }
}

/// `f` describes `s` at 0-based position `pos`: a literal equal to the byte
/// there, or a copy from an earlier position that is as long as the two
/// suffixes agree.
pub open spec fn factor_fits(s: Seq<u8>, pos: int, f: Factor) -> bool {
    match f {
        Factor::Special(b) => 0 <= pos < s.len() && b == s[pos],
        Factor::Normal(p, l) => {
            &&& 1 <= l
            &&& p < pos
            &&& pos + l <= s.len()
            &&& l == prefix_len(s.skip(pos), s.skip(p as int))
        },
    }
}

/// `fs` covers `s` from `start` on, factor after factor, each fitting at the
/// position where it stands.
pub open spec fn is_parse(s: Seq<u8>, start: int, fs: Seq<Factor>) -> bool
    decreases fs.len(),
{
    if fs.len() == 0 {
        true
    } else {
        is_parse(s, start, fs.drop_last()) && factor_fits(
            s,
            parse_end(start, fs.drop_last()),
            fs.last(),
        )
    }
}

/// What `factorise(s, start, _)` returns: nothing when `start` is at or past
/// the end, else a parse of `s[start..]` that ends exactly at the end.
pub open spec fn factorises(s: Seq<u8>, start: int, fs: Seq<Factor>) -> bool {
    if start >= s.len() {
        fs.len() == 0
    } else {
        is_parse(s, start, fs) && is_greedy(s, start, fs) && parse_end(start, fs) == s.len()
    }
}

/// The factor chosen at 1-based position `i` from its two neighbours `psv`
/// and `nsv`, with the position at which the next factor starts.
pub open spec fn next_factor_spec(s: Seq<u8>, i: u32, psv: u32, nsv: u32) -> (u32, Factor) {
    let psv_len = lcp_spec(s, i as int, psv as int);
    let nsv_len = lcp_spec(s, i as int, nsv as int);
    let p = if psv_len > nsv_len {
        psv
    } else {
        nsv
    };
    let l = if psv_len > nsv_len {
        psv_len
    } else {
        nsv_len
    };
    if l > 0 {
        ((i + l) as u32, Factor::Normal((p - 1) as u32, l as u32))
    } else {
        ((i + 1) as u32, Factor::Special(s[i - 1]))
    }
}

/// Length of the common prefix of the suffixes at 1-based positions `i` and
/// `j` of `source` (0 where either is the sentinel 0).
pub fn lcp(i: u32, j: u32, source: &[u8]) -> (r: u32)
    requires
        source@.len() < u32::MAX,
        i <= source@.len() + 1,
        j <= source@.len() + 1,
    ensures
        r == lcp_spec(source@, i as int, j as int),
{
    if i == 0 || j == 0 {
        return 0;
    }
    let n = source.len();
    let a = (i - 1) as usize;
    let b = (j - 1) as usize;
    let mut k: usize = 0;
    while a + k < n && b + k < n && source[a + k] == source[b + k]
        invariant
            n == source@.len(),
            a <= n,
            b <= n,
            k <= n - a,
            k <= n - b,
            source@.subrange(a as int, a + k) == source@.subrange(b as int, b + k),
        decreases n - k,
    {
        proof {
            assert(source@.subrange(a as int, a + k + 1) == source@.subrange(a as int, a + k).push(source@[a + k]));
            assert(source@.subrange(b as int, b + k + 1) == source@.subrange(b as int, b + k).push(source@[b + k]));
        }
        k += 1;
    }
    proof {
        let x = source@.skip(a as int);
        let y = source@.skip(b as int);
        assert forall|q: int| 0 <= q < k implies x[q] == y[q] by {
            assert(source@.subrange(a as int, a + k)[q] == source@.subrange(b as int, b + k)[q]);
        }
        lemma_prefix_len_unique(x, y, k as int);
    }
    k as u32
}

/// The factor at 1-based position `i`: a copy from whichever of `psv` and
/// `nsv` shares the longer prefix with `i` (`nsv` on a tie), or the literal
/// byte when neither shares any.
pub fn next_factor(i: u32, source: &[u8], psv: u32, nsv: u32) -> (r: (u32, Factor))
    requires
        source@.len() < u32::MAX,
        1 <= i <= source@.len(),
        psv <= source@.len(),
        nsv <= source@.len(),
    ensures
        r == next_factor_spec(source@, i, psv, nsv),
        psv < i && nsv < i ==> factor_fits(source@, i - 1, r.1) && r.0 == i + factor_len(r.1),
{
    let psv_len = lcp(i, psv, source);
    let nsv_len = lcp(i, nsv, source);
    proof {
        lemma_prefix_len(source@.skip(i - 1), source@.skip(psv - 1));
        lemma_prefix_len(source@.skip(i - 1), source@.skip(nsv - 1));
    }
    let (p, l) = if psv_len > nsv_len {
        (psv, psv_len)
    } else {
        (nsv, nsv_len)
    };
    if l > 0 {
        (i + l, Factor::Normal(p - 1, l))
    } else {
        (i + 1, Factor::Special(source[(i - 1) as usize]))
    }
}

/// `aug` is the suffix array of `s` shifted to 1-based positions, between
/// two sentinel zeros.
spec fn augments(s: Seq<u8>, sa: Seq<u32>, aug: Seq<u32>) -> bool {
    &&& is_suffix_array(s, sa)
    &&& aug.len() == s.len() + 3
    &&& aug[0] == 0
    &&& aug[s.len() + 2int] == 0
    &&& forall|k: int| 1 <= k <= s.len() + 1 ==> #[trigger] aug[k] == sa[k - 1] + 1
}

/// No value occurs twice between the sentinels of `aug`.
spec fn distinct_inside(aug: Seq<u32>) -> bool {
    forall|a: int, b: int|
        1 <= a < aug.len() - 1 && 1 <= b < aug.len() - 1 && #[trigger] aug[a] == #[trigger] aug[b]
            ==> a == b
}

/// `k2` is the first index after `k` whose entry in `aug` is smaller.
spec fn next_smaller_at(aug: Seq<u32>, k: int, k2: int) -> bool {
    &&& k < k2 < aug.len()
    &&& aug[k2] < aug[k]
    &&& forall|m: int| k < m < k2 ==> #[trigger] aug[m] > aug[k]
}

/// The entry of `phi` for the value at index `m` of `aug` is the next
/// smaller value after it.
spec fn nearest_smaller_set(aug: Seq<u32>, phi: Seq<u32>, m: int) -> bool {
    exists|k2: int| #[trigger] next_smaller_at(aug, m, k2) && phi[aug[m] as int] == aug[k2]
}

/// The ghost stack `stk` of indices below `i`: increasing in index and in
/// value, with every entry after a stacked one larger than it.
spec fn stack_shaped(aug: Seq<u32>, stk: Seq<int>, i: int) -> bool {
    &&& stk.len() >= 1
    &&& stk[0] == 0
    &&& forall|q: int| 0 <= q < stk.len() ==> 0 <= #[trigger] stk[q] < i
    &&& forall|q1: int, q2: int|
        0 <= q1 < q2 < stk.len() ==> #[trigger] stk[q1] < #[trigger] stk[q2] && aug[stk[q1]]
            < aug[stk[q2]]
    &&& forall|q: int, m: int|
        1 <= q < stk.len() && #[trigger] stk[q] < m < i ==> #[trigger] aug[m] > aug[stk[q]]
}

proof fn lemma_augmented_distinct(s: Seq<u8>, sa: Seq<u32>, aug: Seq<u32>)
    requires
        augments(s, sa, aug),
    ensures
        distinct_inside(aug),
        forall|k: int| 1 <= k <= s.len() + 1 ==> 1 <= #[trigger] aug[k] <= s.len() + 1,
{
    assert forall|a: int, b: int|
        1 <= a < aug.len() - 1 && 1 <= b < aug.len() - 1 && #[trigger] aug[a] == #[trigger] aug[b]
            implies a == b by {
        if a < b {
            assert(sa[a - 1] == sa[b - 1]);
            assert(lex_lt(s.skip(sa[a - 1] as int), s.skip(sa[b - 1] as int)));
            lemma_lex_lt_irreflexive(s.skip(sa[a - 1] as int));
        } else if b < a {
            assert(sa[a - 1] == sa[b - 1]);
            assert(lex_lt(s.skip(sa[b - 1] as int), s.skip(sa[a - 1] as int)));
            lemma_lex_lt_irreflexive(s.skip(sa[a - 1] as int));
        }
    }
}

/// Each text position 1 ..= n + 1 by its index in `aug`; the sentinel 0 by
/// the index of the closing zero.
spec fn node_index(aug: Seq<u32>) -> Seq<int> {
    Seq::new(
        (aug.len() - 1) as nat,
        |x: int|
            if x == 0 {
                aug.len() - 1
            } else {
                choose|k: int| 1 <= k < aug.len() - 1 && aug[k] == x
            },
    )
}

spec fn node_index_ok(aug: Seq<u32>, pos: Seq<int>) -> bool {
    &&& pos.len() == aug.len() - 1
    &&& pos[0] == aug.len() - 1
    &&& forall|x: int|
        1 <= x < aug.len() - 1 ==> 1 <= #[trigger] pos[x] < aug.len() - 1 && aug[pos[x]] == x
    &&& forall|k: int| 1 <= k < aug.len() - 1 ==> 1 <= #[trigger] aug[k] < aug.len() - 1
}

proof fn lemma_node_index(s: Seq<u8>, sa: Seq<u32>, aug: Seq<u32>)
    requires
        augments(s, sa, aug),
    ensures
        node_index_ok(aug, node_index(aug)),
{
    lemma_augmented_distinct(s, sa, aug);
    let pos = node_index(aug);
    assert forall|x: int| 1 <= x < aug.len() - 1 implies 1 <= #[trigger] pos[x] < aug.len() - 1
        && aug[pos[x]] == x by {
        assert(crate::suffix_order::occurs(sa, x - 1));
        let k = choose|k: int| 0 <= k < sa.len() && sa[k] == x - 1;
        assert(aug[k + 1] == x);
    }
}

/// Among the entries of `aug` below `t`, the nearest one before index `kx`
/// is at `ky`.
spec fn prev_at(aug: Seq<u32>, t: int, kx: int, ky: int) -> bool {
    &&& 1 <= ky < kx
    &&& aug[ky] < t
    &&& forall|k: int| ky < k < kx ==> #[trigger] aug[k] >= t
}

/// `y` is the nearest entry below `t` before index `kx` of `aug`, or 0
/// where there is none.
spec fn is_prev(aug: Seq<u32>, t: int, kx: int, y: u32) -> bool {
    ||| (y == 0 && forall|k: int| 1 <= k < kx ==> #[trigger] aug[k] >= t)
    ||| exists|ky: int| #[trigger] prev_at(aug, t, kx, ky) && aug[ky] == y
}

proof fn lemma_next_is_node(aug: Seq<u32>, pos: Seq<int>, kt: int, k2: int)
    requires
        distinct_inside(aug),
        node_index_ok(aug, pos),
        1 <= kt < aug.len() - 1,
        aug[aug.len() - 1] == 0,
        next_smaller_at(aug, kt, k2),
    ensures
        0 <= aug[k2] < aug.len() - 1,
        pos[aug[k2] as int] == k2,
{
    if k2 < aug.len() - 1 {
        let y = aug[k2] as int;
        assert(1 <= y);
        assert(aug[pos[y]] == aug[k2]);
    } else {
        assert(aug[k2] == 0);
    }
}

/// The nearest entry below `t` before the next smaller value of `t` is the
/// nearest one before `t` itself.
proof fn lemma_prev_of_new(aug: Seq<u32>, t: int, kt: int, k2: int, psv: u32)
    requires
        next_smaller_at(aug, kt, k2),
        aug[kt] == t,
        1 <= kt,
        is_prev(aug, t, k2, psv),
    ensures
        is_prev(aug, t, kt, psv),
{
    if psv == 0 && forall|k: int| 1 <= k < k2 ==> #[trigger] aug[k] >= t {
    } else {
        let ky = choose|ky: int| #[trigger] prev_at(aug, t, k2, ky) && aug[ky] == psv;
        if ky > kt {
            assert(aug[ky] > aug[kt]);
        }
        assert(ky != kt);
        assert(prev_at(aug, t, kt, ky));
    }
}

/// No earlier position of `s` shares a longer prefix with position `pos`
/// than the factor `f` copies; a literal stands where none shares any.
pub open spec fn factor_longest(s: Seq<u8>, pos: int, f: Factor) -> bool {
    forall|q: int|
        0 <= q < pos ==> #[trigger] prefix_len(s.skip(pos), s.skip(q)) <= match f {
            Factor::Normal(_, l) => l as nat,
            Factor::Special(_) => 0,
        }
}

/// Every factor of `fs`, placed from `start` on, is as long as the longest
/// match with an earlier position.
pub open spec fn is_greedy(s: Seq<u8>, start: int, fs: Seq<Factor>) -> bool
    decreases fs.len(),
{
    if fs.len() == 0 {
        true
    } else {
        is_greedy(s, start, fs.drop_last()) && factor_longest(
            s,
            parse_end(start, fs.drop_last()),
            fs.last(),
        )
    }
}

/// Every earlier position shares no longer a prefix with `t` than one of its
/// two neighbours in suffix order among the earlier positions.
proof fn lemma_neighbours_bound(
    s: Seq<u8>,
    sa: Seq<u32>,
    aug: Seq<u32>,
    pos: Seq<int>,
    t: int,
    kt: int,
    k2: int,
    psv: u32,
)
    requires
        augments(s, sa, aug),
        distinct_inside(aug),
        node_index_ok(aug, pos),
        1 <= t <= s.len(),
        kt == pos[t],
        next_smaller_at(aug, kt, k2),
        is_prev(aug, t, kt, psv),
    ensures
        forall|j: int|
            1 <= j < t ==> #[trigger] lcp_spec(s, t, j) <= lcp_spec(s, t, psv as int)
                || lcp_spec(s, t, j) <= lcp_spec(s, t, aug[k2] as int),
        forall|q: int|
            0 <= q < t - 1 ==> #[trigger] prefix_len(s.skip(t - 1), s.skip(q)) == lcp_spec(
                s,
                t,
                q + 1,
            ),
{
    assert forall|j: int|
        1 <= j < t implies #[trigger] lcp_spec(s, t, j) <= lcp_spec(s, t, psv as int) || lcp_spec(
        s,
        t,
        j,
    ) <= lcp_spec(s, t, aug[k2] as int) by {
        let kj = pos[j];
        let st = s.skip(sa[kt - 1] as int);
        let sj = s.skip(sa[kj - 1] as int);
        assert(aug[kj] == j);
        assert(aug[kt] == t);
        assert(st == s.skip(t - 1));
        assert(sj == s.skip(j - 1));
        if kj < kt {
            if psv == 0 && forall|k: int| 1 <= k < kt ==> #[trigger] aug[k] >= t {
                assert(aug[kj] >= t);
            } else {
                let ky = choose|ky: int| #[trigger] prev_at(aug, t, kt, ky) && aug[ky] == psv;
                if kj > ky {
                    assert(aug[kj] >= t);
                }
                if kj < ky {
                    let sy = s.skip(sa[ky - 1] as int);
                    assert(sy == s.skip(psv - 1));
                    assert(lex_lt(sj, sy));
                    assert(lex_lt(sy, st));
                    lemma_lex_between(sj, sy, st);
                    lemma_prefix_len_symmetric(sj, st);
                    lemma_prefix_len_symmetric(sy, st);
                }
            }
        } else if kj > kt {
            if kj < k2 {
                assert(aug[kj] > aug[kt]);
            }
            if kj > k2 {
                let sn = s.skip(sa[k2 - 1] as int);
                assert(sn == s.skip(aug[k2] - 1));
                assert(lex_lt(st, sn));
                assert(lex_lt(sn, sj));
                lemma_lex_between(st, sn, sj);
            }
        }
    }
}

/// Splicing `t` between its two neighbours keeps every earlier position's
/// nearest earlier neighbour right, with `t` now counted.
proof fn lemma_chain_splice(
    aug: Seq<u32>,
    pos: Seq<int>,
    old_phi: Seq<u32>,
    phi: Seq<u32>,
    t: int,
    kt: int,
    k2: int,
    psv: u32,
)
    requires
        distinct_inside(aug),
        node_index_ok(aug, pos),
        1 <= t < aug.len() - 2,
        kt == pos[t],
        next_smaller_at(aug, kt, k2),
        pos[aug[k2] as int] == k2,
        aug[k2] < t,
        old_phi.len() == aug.len() - 1,
        forall|x: int| 0 <= x < t ==> #[trigger] is_prev(aug, t, pos[x], old_phi[x]),
        is_prev(aug, t, kt, psv),
        phi == old_phi.update(t, psv).update(aug[k2] as int, t as u32),
    ensures
        forall|x: int| 0 <= x < t + 1 ==> #[trigger] is_prev(aug, t + 1, pos[x], phi[x]),
{
    let nsv = aug[k2] as int;
    assert forall|x: int| 0 <= x < t + 1 implies #[trigger] is_prev(aug, t + 1, pos[x], phi[x]) by {
        let kx = pos[x];
        if x == nsv {
            assert(phi[x] == t);
            assert(prev_at(aug, t + 1, kx, kt)) by {
                assert forall|k: int| kt < k < kx implies #[trigger] aug[k] >= t + 1 by {
                    assert(aug[k] > aug[kt]);
                }
            }
        } else if x == t {
            assert(phi[x] == psv);
            if psv == 0 && forall|k: int| 1 <= k < kt ==> #[trigger] aug[k] >= t {
                assert forall|k: int| 1 <= k < kt implies #[trigger] aug[k] >= t + 1 by {
                    assert(aug[k] >= t);
                    assert(aug[k] != aug[kt]);
                }
            } else {
                let ky = choose|ky: int| #[trigger] prev_at(aug, t, kt, ky) && aug[ky] == psv;
                assert(prev_at(aug, t + 1, kt, ky)) by {
                    assert forall|k: int| ky < k < kt implies #[trigger] aug[k] >= t + 1 by {
                        assert(aug[k] >= t);
                        assert(aug[k] != aug[kt]);
                    }
                }
            }
        } else {
            assert(phi[x] == old_phi[x]);
            let y = old_phi[x];
            assert(is_prev(aug, t, kx, y));
            if x != 0 {
                assert(aug[kx] == x);
            }
            if y == 0 && forall|k: int| 1 <= k < kx ==> #[trigger] aug[k] >= t {
                if kt < kx {
                    if k2 < kx {
                        assert(aug[k2] >= t);
                    } else if k2 > kx {
                        assert(aug[kx] > aug[kt]);
                    } else {
                        assert(pos[x] == pos[nsv]);
                        assert(x == nsv);
                    }
                }
                assert forall|k: int| 1 <= k < kx implies #[trigger] aug[k] >= t + 1 by {
                    assert(aug[k] >= t);
                    assert(k != kt);
                    assert(aug[k] != aug[kt]);
                }
            } else {
                let ky = choose|ky: int| #[trigger] prev_at(aug, t, kx, ky) && aug[ky] == y;
                if ky < kt && kt < kx {
                    if k2 < kx {
                        assert(aug[k2] >= t);
                    } else if k2 > kx {
                        assert(aug[kx] > aug[kt]);
                    } else {
                        assert(x == nsv);
                    }
                }
                assert(ky != kt);
                assert(prev_at(aug, t + 1, kx, ky)) by {
                    assert forall|k: int| ky < k < kx implies #[trigger] aug[k] >= t + 1 by {
                        assert(aug[k] >= t);
                        assert(k != kt);
                        assert(aug[k] != aug[kt]);
                    }
                }
            }
        }
    }
}

/// The greedy Lempel-Ziv factorisation of `source[start..]`, where the bytes
/// before `start` form a dictionary that copies may refer to but that no
/// factor covers. `suffix_array` is the suffix array of `source`, empty
/// suffix included. Each factor copies the longest match with any earlier
/// position, as far as the two suffixes agree; a literal stands only where
/// the byte has not occurred before.
///
/// A first pass over the suffix array, with a stack kept in the array's own
/// prefix, gives each position its next smaller neighbour in suffix order
/// (the Phi array). A second pass over the text reads each position's two
/// neighbours from that chain, emits a factor where one starts, and splices
/// the position into the chain.
pub fn factorise(source: &[u8], start: usize, suffix_array: Vec<u32>) -> (r: Vec<Factor>)
    requires
        source@.len() + 2 <= u32::MAX,
        is_suffix_array(source@, suffix_array@),
    ensures
        factorises(source@, start as int, r@),
{
    let n = source.len();
    let mut factorised: Vec<Factor> = Vec::new();
    if start >= n {
        return factorised;
    }
    let mut phi: Vec<u32> = Vec::new();
    while phi.len() < n + 2
        invariant
            n + 2 <= u32::MAX,
            phi.len() <= n + 2,
            forall|x: int| 0 <= x < phi.len() ==> phi[x] == 0,
        decreases n + 2 - phi.len(),
    {
        phi.push(0);
    }
    let mut sa: Vec<u32> = Vec::new();
    sa.push(0);
    let mut k: usize = 0;
    while k < suffix_array.len()
        invariant
            n == source@.len(),
            n + 2 <= u32::MAX,
            is_suffix_array(source@, suffix_array@),
            k <= suffix_array.len(),
            sa.len() == k + 1,
            sa[0] == 0,
            forall|q: int| 1 <= q < sa.len() ==> sa[q] == suffix_array@[q - 1] + 1,
        decreases suffix_array.len() - k,
    {
        sa.push(suffix_array[k] + 1);
        k += 1;
    }
    sa.push(0);
    let ghost aug = sa@;
    proof {
        assert(augments(source@, suffix_array@, aug));
        lemma_augmented_distinct(source@, suffix_array@, aug);
    }
    let ghost mut stk: Seq<int> = seq![0int];
    let mut top: usize = 0;
    let mut i: usize = 1;
    while i <= n + 1
        invariant
            n == source@.len(),
            n + 2 <= u32::MAX,
            augments(source@, suffix_array@, aug),
            distinct_inside(aug),
            1 <= i <= n + 2,
            sa.len() == n + 3,
            phi.len() == n + 2,
            phi@[0] == 0,
            forall|x: int| 1 <= x < phi.len() ==> phi@[x] < x,
            stack_shaped(aug, stk, i as int),
            top < i,
            stk.len() == top + 1,
            forall|q: int| 0 <= q <= top ==> sa@[q] == aug[#[trigger] stk[q]],
            forall|m: int| i <= m < n + 3 ==> #[trigger] sa@[m] == aug[m],
            forall|m: int|
                1 <= m < i ==> #[trigger] stk.contains(m) || nearest_smaller_set(aug, phi@, m),
            forall|q: int| 1 <= q <= top ==> phi@[aug[#[trigger] stk[q]] as int] == 0,
            forall|m: int| i <= m <= n + 1 ==> phi@[#[trigger] aug[m] as int] == 0,
        decreases n + 2 - i,
    {
        while sa[top] > sa[i]
            invariant
                n == source@.len(),
                n + 2 <= u32::MAX,
                augments(source@, suffix_array@, aug),
                distinct_inside(aug),
                1 <= i <= n + 1,
                sa.len() == n + 3,
                phi.len() == n + 2,
                phi@[0] == 0,
                forall|x: int| 1 <= x < phi.len() ==> phi@[x] < x,
                stack_shaped(aug, stk, i as int),
                top < i,
                stk.len() == top + 1,
                forall|q: int| 0 <= q <= top ==> sa@[q] == aug[#[trigger] stk[q]],
                forall|m: int| i <= m < n + 3 ==> #[trigger] sa@[m] == aug[m],
                forall|m: int|
                    1 <= m < i ==> #[trigger] stk.contains(m) || nearest_smaller_set(aug, phi@, m),
                forall|q: int| 1 <= q <= top ==> phi@[aug[#[trigger] stk[q]] as int] == 0,
                forall|m: int| i <= m <= n + 1 ==> phi@[#[trigger] aug[m] as int] == 0,
            decreases top,
        {
            let ghost kk = stk[top as int];
            proof {
                assert(top > 0);
            }
            let ghost old_phi = phi@;
            let v = sa[top] as usize;
            phi.set(v, sa[i]);
            top -= 1;
            proof {
                let old_stk = stk;
                stk = stk.drop_last();
                assert(next_smaller_at(aug, kk, i as int));
                assert forall|m: int|
                    1 <= m < i implies #[trigger] stk.contains(m) || nearest_smaller_set(aug, phi@, m) by {
                    if m == kk {
                        assert(phi@[aug[kk] as int] == aug[i as int]);
                    } else if old_stk.contains(m) {
                        let q = choose|q: int| 0 <= q < old_stk.len() && old_stk[q] == m;
                        assert(q < top + 1);
                        assert(stk[q] == m);
                    } else {
                        assert(aug[m] != aug[kk]);
                        let k2 = choose|k2: int|
                            #[trigger] next_smaller_at(aug, m, k2) && old_phi[aug[m] as int]
                                == aug[k2];
                        assert(phi@[aug[m] as int] == aug[k2]);
                    }
                }
                assert forall|q: int| 1 <= q <= top implies phi@[aug[#[trigger] stk[q]] as int] == 0 by {
                    assert(stk[q] == old_stk[q]);
                    assert(aug[stk[q]] != aug[kk]);
                }
                assert forall|m: int| i <= m <= n + 1 implies phi@[#[trigger] aug[m] as int] == 0 by {
                    assert(aug[m] != aug[kk]);
                }
            }
        }
        proof {
            assert forall|q: int| 0 <= q <= top implies aug[#[trigger] stk[q]] < aug[i as int] by {
                if stk[top as int] != 0 {
                    assert(aug[stk[top as int]] != aug[i as int]);
                }
                if q < top {
                    assert(aug[stk[q]] < aug[stk[top as int]]);
                }
            }
        }
        top += 1;
        let v = sa[i];
        sa.set(top, v);
        proof {
            let old_stk = stk;
            stk = stk.push(i as int);
            assert forall|m: int|
                1 <= m < i + 1 implies #[trigger] stk.contains(m) || nearest_smaller_set(aug, phi@, m) by {
                if m == i {
                    assert(stk[top as int] == m);
                } else if old_stk.contains(m) {
                    let q = choose|q: int| 0 <= q < old_stk.len() && old_stk[q] == m;
                    assert(stk[q] == m);
                } else {
                    assert(nearest_smaller_set(aug, phi@, m));
                }
            }
        }
        i += 1;
    }
    proof {
        assert forall|m: int| 1 <= m <= n + 1 implies #[trigger] nearest_smaller_set(aug, phi@, m) by {
            if stk.contains(m) {
                let q = choose|q: int| 0 <= q < stk.len() && stk[q] == m;
                assert(q >= 1);
                assert(next_smaller_at(aug, m, n + 2));
            }
        }
    }
    let ghost pos = node_index(aug);
    proof {
        lemma_node_index(source@, suffix_array@, aug);
    }
    let mut next: usize = start + 1;
    let mut t: usize = 1;
    while t <= n
        invariant
            n == source@.len(),
            n + 2 <= u32::MAX,
            start < n,
            1 <= t <= n + 1,
            augments(source@, suffix_array@, aug),
            distinct_inside(aug),
            pos == node_index(aug),
            node_index_ok(aug, pos),
            phi.len() == n + 2,
            forall|x: int| 0 <= x < t ==> phi@[x] < t,
            forall|x: int| t <= x < phi.len() ==> phi@[x] < x,
            forall|x: int| 0 <= x < t ==> #[trigger] is_prev(aug, t as int, pos[x], phi@[x]),
            forall|x: int| t <= x <= n + 1 ==> #[trigger] nearest_smaller_set(aug, phi@, pos[x]),
            start + 1 <= next,
            t <= next <= n + 1,
            is_parse(source@, start as int, factorised@),
            is_greedy(source@, start as int, factorised@),
            parse_end(start as int, factorised@) == next - 1,
        decreases n + 1 - t,
    {
        let nsv = phi[t];
        let psv = phi[nsv as usize];
        let ghost kt = pos[t as int];
        let ghost k2 = choose|k2: int|
            #[trigger] next_smaller_at(aug, kt, k2) && phi@[aug[kt] as int] == aug[k2];
        proof {
            assert(nearest_smaller_set(aug, phi@, pos[t as int]));
            assert(aug[kt] == t);
            lemma_next_is_node(aug, pos, kt, k2);
            assert(is_prev(aug, t as int, pos[nsv as int], phi@[nsv as int]));
            lemma_prev_of_new(aug, t as int, kt, k2, psv);
        }
        if t == next {
            let (inner_next, factor) = next_factor(t as u32, source, psv, nsv);
            proof {
                lemma_neighbours_bound(source@, suffix_array@, aug, pos, t as int, kt, k2, psv);
            }
            let ghost before = factorised@;
            factorised.push(factor);
            proof {
                assert(factorised@.drop_last() == before);
            }
            next = inner_next as usize;
        }
        let ghost old_phi = phi@;
        phi.set(t, psv);
        phi.set(nsv as usize, t as u32);
        proof {
            lemma_chain_splice(aug, pos, old_phi, phi@, t as int, kt, k2, psv);
            assert forall|x: int| t + 1 <= x <= n + 1 implies #[trigger] nearest_smaller_set(
                aug,
                phi@,
                pos[x],
            ) by {
                assert(nearest_smaller_set(aug, old_phi, pos[x]));
                let w = choose|w: int|
                    #[trigger] next_smaller_at(aug, pos[x], w) && old_phi[aug[pos[x]] as int]
                        == aug[w];
                assert(aug[pos[x]] == x);
                assert(phi@[x] == old_phi[x]);
            }
        }
        t += 1;
    }
    factorised
}

/// Byte `i` of the dictionary followed by the output so far, if it exists.
pub open spec fn expand_byte(dict: Seq<u8>, out: Seq<u8>, i: int) -> Option<u8> {
    if 0 <= i < dict.len() {
        Some(dict[i])
    } else if dict.len() <= i < dict.len() + out.len() {
        Some(out[i - dict.len()])
    } else {
        None
    }
}

/// `out` after a copy of `l` bytes from position `p` of the dictionary and
/// output, one byte at a time, so that a copy may read what it wrote itself.
pub open spec fn expand_copy(dict: Seq<u8>, out: Seq<u8>, p: int, l: nat) -> Option<Seq<u8>>
    decreases l,
{
    if l == 0 {
        Some(out)
    } else {
        match expand_copy(dict, out, p, (l - 1) as nat) {
            Some(o) => match expand_byte(dict, o, p + l - 1) {
                Some(b) => Some(o.push(b)),
                None => None,
            },
            None => None,
        }
    }
}

pub open spec fn expand_factor(dict: Seq<u8>, out: Seq<u8>, f: Factor) -> Option<Seq<u8>> {
    match f {
        Factor::Special(b) => Some(out.push(b)),
        Factor::Normal(p, l) => expand_copy(dict, out, p as int, l as nat),
    }
}

/// The bytes that `fs` stands for after the dictionary `dict`, or `None`
/// where a copy reads past what exists.
pub open spec fn expand(dict: Seq<u8>, fs: Seq<Factor>) -> Option<Seq<u8>>
    decreases fs.len(),
{
    if fs.len() == 0 {
        Some(Seq::empty())
    } else {
        match expand(dict, fs.drop_last()) {
            Some(o) => expand_factor(dict, o, fs.last()),
            None => None,
        }
    }
}

/// Expands a factorisation after the dictionary `dictionary`; `None` where a
/// copy refers to a byte that is neither in the dictionary nor already output.
pub fn lz_expand(dictionary: &[u8], factorised: &[Factor]) -> (r: Option<Vec<u8>>)
    ensures
        r is Some == expand(dictionary@, factorised@) is Some,
        r is Some ==> r->0@ == expand(dictionary@, factorised@)->0,
{
    let mut output: Vec<u8> = Vec::new();
    let dl = dictionary.len() as u64;
    let mut j: usize = 0;
    while j < factorised.len()
        invariant
            dl == dictionary@.len(),
            j <= factorised@.len(),
            expand(dictionary@, factorised@.take(j as int)) == Some(output@),
        decreases factorised@.len() - j,
    {
        proof {
            assert(factorised@.take(j + 1).drop_last() == factorised@.take(j as int));
        }
        match factorised[j] {
            Factor::Special(b) => output.push(b),
            Factor::Normal(p, l) => {
                let ghost before = output@;
                let mut q: u32 = 0;
                while q < l
                    invariant
                        dl == dictionary@.len(),
                        j < factorised@.len(),
                        factorised@[j as int] == Factor::Normal(p, l),
                        expand(dictionary@, factorised@.take(j as int)) == Some(before),
                        factorised@.take(j + 1).drop_last() == factorised@.take(j as int),
                        q <= l,
                        expand_copy(dictionary@, before, p as int, q as nat) == Some(output@),
                    decreases l - q,
                {
                    let i: u64 = p as u64 + q as u64;
                    if i < dl {
                        output.push(dictionary[i as usize]);
                    } else if i - dl < output.len() as u64 {
                        let b = output[(i - dl) as usize];
                        output.push(b);
                    } else {
                        proof {
                            assert(expand_copy(dictionary@, before, p as int, (q + 1) as nat) is None);
                            lemma_expand_copy_none_stays(dictionary@, before, p as int, (q + 1) as nat, l as nat);
                            lemma_expand_none_stays(dictionary@, factorised@, j + 1);
                        }
                        return None;
                    }
                    q += 1;
                }
            },
        }
        j += 1;
    }
    proof {
        assert(factorised@.take(j as int) == factorised@);
    }
    Some(output)
}

proof fn lemma_expand_copy_none_stays(dict: Seq<u8>, out: Seq<u8>, p: int, l: nat, m: nat)
    requires
        l <= m,
        expand_copy(dict, out, p, l) is None,
    ensures
        expand_copy(dict, out, p, m) is None,
    decreases m - l,
{
    if l < m {
        lemma_expand_copy_none_stays(dict, out, p, l, (m - 1) as nat);
    }
}

proof fn lemma_expand_none_stays(dict: Seq<u8>, fs: Seq<Factor>, j: int)
    requires
        0 < j <= fs.len(),
        expand(dict, fs.take(j)) is None,
    ensures
        expand(dict, fs) is None,
    decreases fs.len() - j,
{
    if j < fs.len() {
        assert(fs.take(j + 1).drop_last() == fs.take(j));
        lemma_expand_none_stays(dict, fs, j + 1);
    } else {
        assert(fs.take(j) == fs);
    }
}

proof fn lemma_parse_end_grows(start: int, fs: Seq<Factor>)
    ensures
        start <= parse_end(start, fs),
    decreases fs.len(),
{
    if fs.len() > 0 {
        lemma_parse_end_grows(start, fs.drop_last());
    }
}

proof fn lemma_copy_reproduces(s: Seq<u8>, k: int, e: int, p: int, q: nat)
    requires
        0 <= k <= e,
        0 <= p < e,
        e + q <= s.len(),
        forall|x: int| 0 <= x < q ==> #[trigger] s.skip(e)[x] == s.skip(p)[x],
    ensures
        expand_copy(s.take(k), s.subrange(k, e), p, q) == Some(s.subrange(k, e + q)),
    decreases q,
{
    if q > 0 {
        lemma_copy_reproduces(s, k, e, p, (q - 1) as nat);
        let o = s.subrange(k, e + q - 1);
        let i = p + q - 1;
        assert(s.skip(e)[q - 1] == s.skip(p)[q - 1]);
        if i >= k {
            assert(o[i - k] == s[i]);
        }
        assert(o.push(s[e + q - 1]) == s.subrange(k, e + q));
    }
}

/// A parse of `s` from `k` expands, after the dictionary `s[..k]`, to the
/// bytes of `s` that it covers.
pub proof fn lemma_parse_expands(s: Seq<u8>, k: int, fs: Seq<Factor>)
    requires
        0 <= k <= s.len(),
        is_parse(s, k, fs),
    ensures
        k <= parse_end(k, fs) <= s.len(),
        expand(s.take(k), fs) == Some(s.subrange(k, parse_end(k, fs))),
    decreases fs.len(),
{
    lemma_parse_end_grows(k, fs);
    if fs.len() == 0 {
        assert(s.subrange(k, k) == Seq::<u8>::empty());
    } else {
        let init = fs.drop_last();
        lemma_parse_expands(s, k, init);
        let e = parse_end(k, init);
        match fs.last() {
            Factor::Special(b) => {
                assert(s.subrange(k, e).push(b) == s.subrange(k, e + 1));
            },
            Factor::Normal(p, l) => {
                let a = s.skip(e);
                let c = s.skip(p as int);
                lemma_prefix_len(a, c);
                lemma_copy_reproduces(s, k, e, p as int, l as nat);
            },
        }
    }
}

/// Factorising `s` with the dictionary `s[..k]` and expanding the factors
/// after that dictionary gives back `s[k..]`.
pub proof fn lemma_factorise_round_trip(s: Seq<u8>, k: int, fs: Seq<Factor>)
    requires
        0 <= k <= s.len(),
        factorises(s, k, fs),
    ensures
        expand(s.take(k), fs) == Some(s.skip(k)),
{
    if k == s.len() {
        assert(s.skip(k) == Seq::<u8>::empty());
    } else {
        lemma_parse_expands(s, k, fs);
        assert(s.subrange(k, s.len() as int) == s.skip(k));
    }
}

/// Factorising `s` with an empty dictionary and expanding the factors gives
/// back `s`.
pub proof fn lemma_factorise_whole_round_trip(s: Seq<u8>, fs: Seq<Factor>)
    requires
        factorises(s, 0, fs),
    ensures
        expand(Seq::empty(), fs) == Some(s),
{
    lemma_factorise_round_trip(s, 0, fs);
    assert(s.take(0) == Seq::<u8>::empty());
    assert(s.skip(0) == s);
}

} // verus!
