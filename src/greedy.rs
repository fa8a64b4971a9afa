//! The greedy matcher's rules, the instruction stream's meaning, and the
//! proofs that tie them together.
use vstd::prelude::*;

use crate::fingerprint::{
    add_entry, bucket_of, index_of, lemma_index_prefix_bucket, window_key,
    FingerprintIndex,
};
use crate::prefix::{lemma_prefix_len, prefix_len};
use crate::{OutputSymbol, ReferenceSource};

verus! {

/// `out` after a copy of `l` bytes from its own position `o`, one byte at a
/// time, so that the copy may read bytes that it appended itself.
pub open spec fn target_copy(out: Seq<u8>, o: int, l: nat) -> Seq<u8>
    decreases l,
{
    if l == 0 {
        out
    } else {
        let prev = target_copy(out, o, (l - 1) as nat);
        prev.push(prev[o + l - 1])
    }
}

/// `out` after one instruction, or `None` where the instruction refers to a
/// byte that does not exist.
pub open spec fn decode_symbol(src: Seq<u8>, out: Seq<u8>, sym: OutputSymbol) -> Option<Seq<u8>> {
    match sym {
        OutputSymbol::Literal(b) => Some(out.push(b)),
        OutputSymbol::Copy(ReferenceSource::Source, o, l) => {
            if 0 <= o && o + l <= src.len() {
                Some(out + src.subrange(o as int, o + l))
            } else {
                None
            }
        },
        OutputSymbol::Copy(ReferenceSource::Target, o, l) => {
            if l == 0 || 0 <= o < out.len() {
                Some(target_copy(out, o as int, l as nat))
            } else {
                None
            }
        },
    }
}

/// `out` after the instructions `syms`, in order.
pub open spec fn decode_from(src: Seq<u8>, out: Seq<u8>, syms: Seq<OutputSymbol>) -> Option<
    Seq<u8>,
>
    decreases syms.len(),
{
    if syms.len() == 0 {
        Some(out)
    } else {
        match decode_symbol(src, out, syms[0]) {
            Some(o) => decode_from(src, o, syms.drop_first()),
            None => None,
        }
    }
}

/// The bytes that `syms` stands for against the source `src`.
pub open spec fn decoded(src: Seq<u8>, syms: Seq<OutputSymbol>) -> Option<Seq<u8>> {
    decode_from(src, Seq::empty(), syms)
}

/// One literal per byte of `s`.
pub open spec fn literals(s: Seq<u8>) -> Seq<OutputSymbol> {
    s.map_values(|b: u8| OutputSymbol::Literal(b))
}

/// Length credited to a match of `rem` against `buf` from `p`: the common
/// prefix is bounded by what is left of both; where a mismatch falls within
/// that bound the length credited is one less than the common prefix.
pub open spec fn match_len(rem: Seq<u8>, buf: Seq<u8>, p: int) -> nat {
    if p < 0 || p >= buf.len() {
        0
    } else {
        let bound = if rem.len() < buf.len() - p {
            rem.len()
        } else {
            (buf.len() - p) as nat
        };
        let m = prefix_len(rem, buf.skip(p));
        if m < bound {
            if m == 0 {
                0
            } else {
                (m - 1) as nat
            }
        } else {
            bound
        }
    }
}

/// Length credited to the candidate `p`; only positions below `limit` may
/// be referred to.
pub open spec fn candidate_len(rem: Seq<u8>, buf: Seq<u8>, limit: int, p: int) -> nat {
    if p < limit {
        match_len(rem, buf, p)
    } else {
        0
    }
}

/// The longest candidate with its length, the last one among equals;
/// `(0, 0)` where there is no candidate.
pub open spec fn longest_match(cands: Seq<usize>, rem: Seq<u8>, buf: Seq<u8>, limit: int) -> (
    nat,
    usize,
)
    decreases cands.len(),
{
    if cands.len() == 0 {
        (0, 0)
    } else {
        let best = longest_match(cands.drop_last(), rem, buf, limit);
        let c = cands.last();
        let l = candidate_len(rem, buf, limit, c as int);
        if cands.len() == 1 || l >= best.0 {
            (l, c)
        } else {
            best
        }
    }
}

/// `m` with the windows of `t` at `c .. c + k` added, each under its own
/// position.
pub open spec fn index_windows(m: Map<u32, Seq<usize>>, t: Seq<u8>, c: int, k: nat) -> Map<
    u32,
    Seq<usize>,
>
    decreases k,
{
    if k == 0 {
        m
    } else {
        add_entry(index_windows(m, t, c, (k - 1) as nat), window_key(t, c + k - 1), (c + k - 1) as usize)
    }
}

/// The smaller of `a` and `b`.
pub open spec fn min_nat(a: nat, b: nat) -> nat {
    if a < b {
        a
    } else {
        b
    }
}

/// One step of the encoder at cursor `c` of `t` (at least three bytes left):
/// the instruction, how far the cursor moves, and the target index after it.
pub open spec fn encode_step(
    src: Seq<u8>,
    sidx: Map<u32, Seq<usize>>,
    tidx: Map<u32, Seq<usize>>,
    t: Seq<u8>,
    c: int,
) -> (OutputSymbol, nat, Map<u32, Seq<usize>>) {
    let rem = t.skip(c);
    let key = window_key(t, c);
    let from_source = longest_match(bucket_of(sidx, key), rem, src, src.len() as int);
    let from_target = longest_match(bucket_of(tidx, key), rem, t, c);
    let spare = (rem.len() - 3) as nat;
    if from_target.0 >= from_source.0 && from_target.0 >= 3 {
        (
            OutputSymbol::Copy(
                ReferenceSource::Target,
                from_target.1 as isize,
                from_target.0 as usize,
            ),
            from_target.0,
            index_windows(tidx, t, c, min_nat(from_target.0, spare)),
        )
    } else if from_source.0 >= 3 {
        (
            OutputSymbol::Copy(
                ReferenceSource::Source,
                from_source.1 as isize,
                from_source.0 as usize,
            ),
            from_source.0,
            index_windows(tidx, t, c, min_nat(from_source.0, spare)),
        )
    } else {
        (OutputSymbol::Literal(t[c]), 1, add_entry(tidx, key, c as usize))
    }
}

/// The instructions that encode `t` from cursor `c` on, with the target
/// index after them.
pub open spec fn encode_from(
    src: Seq<u8>,
    sidx: Map<u32, Seq<usize>>,
    tidx: Map<u32, Seq<usize>>,
    t: Seq<u8>,
    c: int,
) -> (Seq<OutputSymbol>, Map<u32, Seq<usize>>)
    decreases t.len() - c,
{
    if c < 0 || t.len() < c + 3 {
        (literals(t.skip(c)), tidx)
    } else {
        let step = encode_step(src, sidx, tidx, t, c);
        let next = if c + step.1 <= t.len() {
            c + step.1
        } else {
            t.len() as int
        };
        let rest = encode_from(src, sidx, step.2, t, next);
        (seq![step.0] + rest.0, rest.1)
    }
}

/// What a match credits is a real match: it fits in both buffers and the
/// bytes agree.
pub proof fn lemma_match_len(rem: Seq<u8>, buf: Seq<u8>, p: int)
    ensures
        match_len(rem, buf, p) <= rem.len(),
        match_len(rem, buf, p) > 0 ==> 0 <= p && p + match_len(rem, buf, p) <= buf.len(),
        forall|j: int|
            0 <= j < match_len(rem, buf, p) ==> #[trigger] rem[j] == buf.skip(p)[j],
{
    if 0 <= p < buf.len() {
        lemma_prefix_len(rem, buf.skip(p));
    }
}

/// The longest match is one of the candidates, at least as long as each.
pub proof fn lemma_longest_match(cands: Seq<usize>, rem: Seq<u8>, buf: Seq<u8>, limit: int)
    ensures
        cands.len() == 0 ==> longest_match(cands, rem, buf, limit) == (0nat, 0usize),
        cands.len() > 0 ==> {
            let r = longest_match(cands, rem, buf, limit);
            &&& cands.contains(r.1)
            &&& r.0 == candidate_len(rem, buf, limit, r.1 as int)
            &&& forall|j: int|
                0 <= j < cands.len() ==> candidate_len(rem, buf, limit, #[trigger] cands[j] as int)
                    <= r.0
        },
    decreases cands.len(),
{
    if cands.len() > 0 {
        let init = cands.drop_last();
        lemma_longest_match(init, rem, buf, limit);
        let r = longest_match(cands, rem, buf, limit);
        assert forall|j: int|
            0 <= j < cands.len() implies candidate_len(rem, buf, limit, #[trigger] cands[j] as int)
            <= r.0 by {
            if j < cands.len() - 1 {
                assert(cands[j] == init[j]);
            }
        }
        if cands.len() > 1 && r == longest_match(init, rem, buf, limit) && r != (
        candidate_len(rem, buf, limit, cands.last() as int), cands.last()) {
            let i = choose|i: int| 0 <= i < init.len() && init[i] == r.1;
            assert(cands[i] == r.1);
        } else {
            assert(cands[cands.len() - 1] == r.1);
        }
    }
}

proof fn lemma_target_copy(t: Seq<u8>, c: int, o: int, q: nat)
    requires
        0 <= o < c,
        c + q <= t.len(),
        forall|j: int| 0 <= j < q ==> #[trigger] t.skip(c)[j] == t.skip(o)[j],
    ensures
        target_copy(t.take(c), o, q) == t.take(c + q),
    decreases q,
{
    if q > 0 {
        lemma_target_copy(t, c, o, (q - 1) as nat);
        assert(t.skip(c)[q - 1] == t.skip(o)[q - 1]);
        assert(t.take(c + q - 1).push(t[o + q - 1]) == t.take(c + q));
    }
}

/// One step of the encoder moves the cursor forward, and its instruction
/// decodes, after the bytes before the cursor, to the bytes up to the new
/// cursor.
pub proof fn lemma_step_decodes(
    src: Seq<u8>,
    sidx: Map<u32, Seq<usize>>,
    tidx: Map<u32, Seq<usize>>,
    t: Seq<u8>,
    c: int,
)
    requires
        0 <= c,
        c + 3 <= t.len(),
        src.len() <= isize::MAX,
        t.len() <= isize::MAX,
    ensures
        ({
            let step = encode_step(src, sidx, tidx, t, c);
            &&& 1 <= step.1
            &&& c + step.1 <= t.len()
            &&& decode_symbol(src, t.take(c), step.0) == Some(t.take(c + step.1))
        }),
{
    let rem = t.skip(c);
    let key = window_key(t, c);
    let sc = bucket_of(sidx, key);
    let tc = bucket_of(tidx, key);
    let s = longest_match(sc, rem, src, src.len() as int);
    let g = longest_match(tc, rem, t, c);
    lemma_longest_match(sc, rem, src, src.len() as int);
    lemma_longest_match(tc, rem, t, c);
    lemma_match_len(rem, src, s.1 as int);
    lemma_match_len(rem, t, g.1 as int);
    let step = encode_step(src, sidx, tidx, t, c);
    if g.0 >= s.0 && g.0 >= 3 {
        let o = g.1 as int;
        assert(o < c);
        assert forall|j: int| 0 <= j < g.0 implies #[trigger] t.skip(c)[j] == t.skip(o)[j] by {
            assert(rem[j] == t.skip(o)[j]);
        }
        lemma_target_copy(t, c, o, g.0);
    } else if s.0 >= 3 {
        let o = s.1 as int;
        assert forall|j: int| 0 <= j < s.0 implies #[trigger] src.subrange(o, o + s.0)[j] == t.skip(
            c,
        )[j] by {
            assert(rem[j] == src.skip(o)[j]);
        }
        assert(t.take(c) + src.subrange(o, o + s.0) =~= t.take(c + s.0));
    } else {
        assert(t.take(c).push(t[c]) == t.take(c + 1));
    }
}

proof fn lemma_literals_decode(src: Seq<u8>, t: Seq<u8>, c: int)
    requires
        0 <= c <= t.len(),
    ensures
        decode_from(src, t.take(c), literals(t.skip(c))) == Some(t),
    decreases t.len() - c,
{
    let ls = literals(t.skip(c));
    if c == t.len() {
        assert(t.take(c) == t);
    } else {
        assert(ls[0] == OutputSymbol::Literal(t[c]));
        assert(ls.drop_first() == literals(t.skip(c + 1)));
        assert(t.take(c).push(t[c]) == t.take(c + 1));
        lemma_literals_decode(src, t, c + 1);
    }
}

proof fn lemma_encode_from_decodes(
    src: Seq<u8>,
    sidx: Map<u32, Seq<usize>>,
    tidx: Map<u32, Seq<usize>>,
    t: Seq<u8>,
    c: int,
)
    requires
        0 <= c <= t.len(),
        src.len() <= isize::MAX,
        t.len() <= isize::MAX,
    ensures
        decode_from(src, t.take(c), encode_from(src, sidx, tidx, t, c).0) == Some(t),
    decreases t.len() - c,
{
    if t.len() < c + 3 {
        lemma_literals_decode(src, t, c);
    } else {
        let step = encode_step(src, sidx, tidx, t, c);
        lemma_step_decodes(src, sidx, tidx, t, c);
        let next = c + step.1;
        lemma_encode_from_decodes(src, sidx, step.2, t, next);
        let syms = encode_from(src, sidx, tidx, t, c).0;
        let rest = encode_from(src, sidx, step.2, t, next).0;
        assert(syms[0] == step.0);
        assert(syms.drop_first() == rest);
    }
}

/// Whatever the two indices hold, decoding what the encoder produces for `t`
/// against the source gives back `t`.
pub proof fn lemma_encode_round_trip(
    src: Seq<u8>,
    sidx: Map<u32, Seq<usize>>,
    tidx: Map<u32, Seq<usize>>,
    t: Seq<u8>,
)
    requires
        src.len() <= isize::MAX,
        t.len() <= isize::MAX,
    ensures
        decoded(src, encode_from(src, sidx, tidx, t, 0).0) == Some(t),
{
    lemma_encode_from_decodes(src, sidx, tidx, t, 0);
    assert(t.take(0) == Seq::<u8>::empty());
}

/// Length credited to a match of `target[c..]` against `buf` from `p`.
pub fn match_length(target: &[u8], c: usize, buf: &[u8], p: usize) -> (r: usize)
    requires
        c <= target@.len(),
    ensures
        r == match_len(target@.skip(c as int), buf@, p as int),
{
    if p >= buf.len() {
        return 0;
    }
    let tl = target.len();
    let bl = buf.len();
    let rem_len = tl - c;
    let bound = if rem_len < buf.len() - p {
        rem_len
    } else {
        buf.len() - p
    };
    let mut k: usize = 0;
    while k < bound && target[c + k] == buf[p + k]
        invariant
            c <= target@.len(),
            p < buf@.len(),
            tl == target@.len(),
            bl == buf@.len(),
            rem_len == tl - c,
            bound == rem_len || bound == buf@.len() - p,
            bound <= rem_len,
            bound <= buf@.len() - p,
            k <= bound,
            forall|j: int| 0 <= j < k ==> #[trigger] target@.skip(c as int)[j] == buf@.skip(p as int)[j],
        decreases bound - k,
    {
        k += 1;
    }
    proof {
        let a = target@.skip(c as int);
        let b = buf@.skip(p as int);
        if k < bound {
            assert(a[k as int] != b[k as int]);
        }
        crate::prefix::lemma_prefix_len_unique(a, b, k as int);
    }
    if k < bound {
        if k == 0 {
            0
        } else {
            k - 1
        }
    } else {
        bound
    }
}

/// The longest of the candidates `cands` for `target[c..]` in `buf`, with
/// only positions below `limit` allowed.
pub fn find_longest_match(
    cands: &Vec<usize>,
    target: &[u8],
    c: usize,
    buf: &[u8],
    limit: usize,
) -> (r: (usize, usize))
    requires
        c <= target@.len(),
    ensures
        r.0 == longest_match(cands@, target@.skip(c as int), buf@, limit as int).0,
        r.1 == longest_match(cands@, target@.skip(c as int), buf@, limit as int).1,
{
    let ghost rem = target@.skip(c as int);
    let mut best_len: usize = 0;
    let mut best_pos: usize = 0;
    let mut j: usize = 0;
    while j < cands.len()
        invariant
            c <= target@.len(),
            rem == target@.skip(c as int),
            j <= cands@.len(),
            best_len == longest_match(cands@.take(j as int), rem, buf@, limit as int).0,
            best_pos == longest_match(cands@.take(j as int), rem, buf@, limit as int).1,
        decreases cands@.len() - j,
    {
        let p = cands[j];
        let l = if p < limit {
            match_length(target, c, buf, p)
        } else {
            0
        };
        proof {
            assert(cands@.take(j + 1).drop_last() == cands@.take(j as int));
            assert(cands@.take(j + 1).last() == p);
        }
        if j == 0 || l >= best_len {
            best_len = l;
            best_pos = p;
        }
        j += 1;
    }
    proof {
        assert(cands@.take(j as int) == cands@);
    }
    (best_len, best_pos)
}

/// Adds to `index` the windows of `t` at `c .. c + k`, each under its own
/// position.
pub fn add_windows(index: &mut FingerprintIndex, t: &[u8], c: usize, k: usize)
    requires
        c + k + 2 <= t@.len(),
    ensures
        final(index)@ == index_windows(old(index)@, t@, c as int, k as nat),
{
    let n = t.len();
    let mut q: usize = 0;
    while q < k
        invariant
            n == t@.len(),
            c + k + 2 <= n,
            q <= k,
            index@ == index_windows(old(index)@, t@, c as int, q as nat),
        decreases k - q,
    {
        let key = crate::fingerprint::window_key_at(t, c + q);
        index.insert(key, c + q);
        q += 1;
    }
}

/// Encoding a buffer of at least three bytes against itself as the source,
/// with the source indexed and the target index empty, gives a single copy of
/// the whole source.
pub proof fn lemma_identity_single_copy(s: Seq<u8>)
    requires
        3 <= s.len() <= isize::MAX,
    ensures
        encode_from(s, index_of(s), Map::empty(), s, 0).0 == seq![
            OutputSymbol::Copy(ReferenceSource::Source, 0, s.len() as usize),
        ],
{
    let n = s.len() as int;
    let key = window_key(s, 0);
    let cands = bucket_of(index_of(s), key);
    let rem = s.skip(0);
    assert(rem == s);
    lemma_index_prefix_bucket(s, (n - 2) as nat, key);
    assert(cands.contains(0usize));
    let j0 = choose|j: int| 0 <= j < cands.len() && cands[j] == 0usize;
    crate::prefix::lemma_prefix_len_unique(s, s.skip(0), n);
    assert(candidate_len(rem, s, n, 0) == n);
    lemma_longest_match(cands, rem, s, n);
    let best = longest_match(cands, rem, s, n);
    assert(candidate_len(rem, s, n, cands[j0] as int) <= best.0);
    lemma_match_len(rem, s, best.1 as int);
    assert(best.1 < n - 2);
    assert(best.1 == 0usize);
    assert(best.0 == n);
    assert(bucket_of(Map::<u32, Seq<usize>>::empty(), key) == Seq::<usize>::empty());
    let step = encode_step(s, index_of(s), Map::empty(), s, 0);
    assert(step.1 == n);
    let rest = encode_from(s, index_of(s), step.2, s, n);
    assert(literals(s.skip(n)) =~= Seq::<OutputSymbol>::empty());
    assert(rest.0 == Seq::<OutputSymbol>::empty());
    assert(seq![step.0] + rest.0 =~= seq![step.0]);
}

} // verus!
