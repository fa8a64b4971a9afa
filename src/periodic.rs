//! How the greedy matcher encodes a target that repeats a fragment.
use vstd::prelude::*;

use crate::fingerprint::{add_entry, bucket_of, index_of, window_key};
use crate::greedy::{
    candidate_len, encode_from, encode_step, index_windows, lemma_longest_match, lemma_match_len,
    lemma_step_decodes, literals, longest_match, match_len, min_nat,
};
use crate::prefix::{lemma_prefix_len, lemma_prefix_len_unique, prefix_len};
use crate::{OutputSymbol, ReferenceSource};

verus! {

/// Total length of the copies from the output that end `syms`, counted back
/// from the last instruction up to the first one that is not such a copy.
pub open spec fn trailing_target_len(syms: Seq<OutputSymbol>) -> nat
    decreases syms.len(),
{
    if syms.len() == 0 {
        0
    } else {
        match syms.last() {
            OutputSymbol::Copy(ReferenceSource::Target, _, l) => (l + trailing_target_len(
                syms.drop_last(),
            )) as nat,
            _ => 0,
        }
    }
}

/// The fragment `f` repeated `r` times.
pub open spec fn repeat_seq(f: Seq<u8>, r: nat) -> Seq<u8> {
    Seq::new(f.len() * r, |i: int| f[i % (f.len() as int)])
}

/// Each byte of `t` from `f` on equals the byte `f` before it.
pub open spec fn has_period(t: Seq<u8>, f: int) -> bool {
    forall|i: int| f <= i < t.len() ==> #[trigger] t[i] == t[i - f]
}

/// Every window of `t` below `c` is listed in `m` under its key.
pub open spec fn indexed_below(m: Map<u32, Seq<usize>>, t: Seq<u8>, c: int) -> bool {
    forall|i: int| 0 <= i < c ==> #[trigger] bucket_of(m, window_key(t, i)).contains(i as usize)
}

proof fn lemma_trailing_append(a: Seq<OutputSymbol>, b: Seq<OutputSymbol>)
    ensures
        trailing_target_len(a + b) >= trailing_target_len(b),
    decreases b.len(),
{
    if b.len() > 0 {
        assert((a + b).drop_last() == a + b.drop_last());
        assert((a + b).last() == b.last());
        lemma_trailing_append(a, b.drop_last());
    }
}

proof fn lemma_trailing_single(x: OutputSymbol)
    ensures
        trailing_target_len(seq![x]) == match x {
            OutputSymbol::Copy(ReferenceSource::Target, _, l) => l as nat,
            _ => 0,
        },
{
    let e = Seq::<OutputSymbol>::empty();
    assert(trailing_target_len(e) == 0);
    assert(seq![x].drop_last() =~= e);
    assert(seq![x].last() == x);
    assert(seq![x].len() == 1);
}

proof fn lemma_trailing_before_copy(x: OutputSymbol, rest: Seq<OutputSymbol>)
    requires
        rest.len() == 1,
        trailing_target_len(rest) > 0,
    ensures
        trailing_target_len(seq![x] + rest) == trailing_target_len(rest) + trailing_target_len(
            seq![x],
        ),
{
    let z = seq![x] + rest;
    let e = Seq::<OutputSymbol>::empty();
    assert(z.drop_last() =~= seq![x]);
    assert(z.last() == rest.last());
    assert(z.len() == 2);
    assert(rest.drop_last() =~= e);
    assert(trailing_target_len(e) == 0);
    match rest.last() {
        OutputSymbol::Copy(ReferenceSource::Target, _, l) => {
            assert(trailing_target_len(rest) == l);
            assert(trailing_target_len(z) == l + trailing_target_len(seq![x]));
        },
        _ => {
            assert(trailing_target_len(rest) == 0);
        },
    }
}

proof fn lemma_add_entry_indexed(m: Map<u32, Seq<usize>>, t: Seq<u8>, c: int)
    requires
        indexed_below(m, t, c),
        0 <= c <= usize::MAX,
    ensures
        indexed_below(add_entry(m, window_key(t, c), c as usize), t, c + 1),
{
    let m2 = add_entry(m, window_key(t, c), c as usize);
    assert forall|i: int| 0 <= i < c + 1 implies #[trigger] bucket_of(
        m2,
        window_key(t, i),
    ).contains(i as usize) by {
        let b = bucket_of(m, window_key(t, i));
        if window_key(t, i) == window_key(t, c) {
            let b2 = b.push(c as usize);
            assert(bucket_of(m2, window_key(t, i)) == b2);
            if i < c {
                assert(b.contains(i as usize));
                let j = choose|j: int| 0 <= j < b.len() && b[j] == i as usize;
                assert(b2[j] == i as usize);
            } else {
                assert(b2[b.len() as int] == i as usize);
            }
        } else {
            assert(b.contains(i as usize));
            assert(bucket_of(m2, window_key(t, i)) == b);
        }
    }
}

proof fn lemma_index_windows_indexed(m: Map<u32, Seq<usize>>, t: Seq<u8>, c: int, k: nat)
    requires
        indexed_below(m, t, c),
        0 <= c,
        c + k <= usize::MAX,
    ensures
        indexed_below(index_windows(m, t, c, k), t, c + k),
    decreases k,
{
    if k > 0 {
        lemma_index_windows_indexed(m, t, c, (k - 1) as nat);
        lemma_add_entry_indexed(index_windows(m, t, c, (k - 1) as nat), t, c + k - 1);
    }
}

/// From a cursor at or past one period, with every earlier window indexed,
/// the rest of a periodic target is one copy from the output.
proof fn lemma_tail_is_one_copy(t: Seq<u8>, f: int, tidx: Map<u32, Seq<usize>>, c: int)
    requires
        3 <= f <= c,
        c + 3 <= t.len() <= isize::MAX,
        has_period(t, f),
        indexed_below(tidx, t, c),
    ensures
        ({
            let syms = encode_from(Seq::empty(), index_of(Seq::empty()), tidx, t, c).0;
            syms.len() == 1 && trailing_target_len(syms) == t.len() - c
        }),
{
    let n = t.len() as int;
    let src = Seq::<u8>::empty();
    let sidx = index_of(src);
    let rem = t.skip(c);
    let key = window_key(t, c);
    let p = c - f;
    assert(window_key(t, p) == key) by {
        assert(t[c] == t[c - f]);
        assert(t[c + 1] == t[c + 1 - f]);
        assert(t[c + 2] == t[c + 2 - f]);
    }
    let cands = bucket_of(tidx, key);
    assert(cands.contains(p as usize));
    let j0 = choose|j: int| 0 <= j < cands.len() && cands[j] == p as usize;
    assert forall|j: int| 0 <= j < n - c implies rem[j] == t.skip(p)[j] by {
        assert(t[c + j] == t[c + j - f]);
    }
    lemma_prefix_len_unique(rem, t.skip(p), n - c);
    assert(candidate_len(rem, t, c, p) == n - c);
    lemma_longest_match(cands, rem, t, c);
    let best = longest_match(cands, rem, t, c);
    assert(candidate_len(rem, t, c, cands[j0] as int) <= best.0);
    lemma_match_len(rem, t, best.1 as int);
    assert(best.0 == n - c);
    assert(bucket_of(sidx, key) == Seq::<usize>::empty());
    let step = encode_step(src, sidx, tidx, t, c);
    assert(step.0 == OutputSymbol::Copy(ReferenceSource::Target, best.1 as isize, (n - c) as usize));
    assert(step.1 == n - c);
    let rest = encode_from(src, sidx, step.2, t, n);
    assert(literals(t.skip(n)) =~= Seq::<OutputSymbol>::empty());
    let syms = encode_from(src, sidx, tidx, t, c).0;
    assert(syms == seq![step.0] + rest.0);
    assert(syms =~= seq![step.0]);
    lemma_trailing_single(step.0);
}

/// A copy from the output that starts within the first period of a periodic
/// target and stops within its last three bytes runs to its end.
proof fn lemma_copy_reaches_end(t: Seq<u8>, f: int, c: int, q: int)
    requires
        3 <= f,
        0 <= q < c < f,
        2 * f <= t.len(),
        has_period(t, f),
        match_len(t.skip(c), t, q) >= 3,
        t.len() < c + match_len(t.skip(c), t, q) + 3,
    ensures
        c + match_len(t.skip(c), t, q) == t.len(),
{
    let n = t.len() as int;
    let rem = t.skip(c);
    let other = t.skip(q);
    let m = prefix_len(rem, other) as int;
    lemma_prefix_len(rem, other);
    if m < n - c {
        assert(m == n - c - 1);
        let d = c - q;
        let j1 = m - f;
        assert(rem[j1] == other[j1]);
        assert(t[n - 1 - f] == t[n - 1 - f - d]);
        assert(t[n - 1] == t[n - 1 - f]);
        assert(t[n - 1 - d] == t[n - 1 - d - f]);
        assert(rem[m] != other[m]);
        assert(false);
    }
}

/// Within the first period the matcher may emit anything, but it ends with
/// copies from the output that cover all but at most the first period.
proof fn lemma_periodic_tail(t: Seq<u8>, f: int, tidx: Map<u32, Seq<usize>>, c: int)
    requires
        3 <= f,
        0 <= c < f,
        2 * f <= t.len() <= isize::MAX,
        has_period(t, f),
        indexed_below(tidx, t, c),
    ensures
        trailing_target_len(encode_from(Seq::empty(), index_of(Seq::empty()), tidx, t, c).0) >= t.len()
            - f,
    decreases f - c,
{
    let n = t.len() as int;
    let src = Seq::<u8>::empty();
    let sidx = index_of(src);
    let rem = t.skip(c);
    let key = window_key(t, c);
    assert(bucket_of(sidx, key) == Seq::<usize>::empty());
    lemma_step_decodes(src, sidx, tidx, t, c);
    let step = encode_step(src, sidx, tidx, t, c);
    let next = c + step.1;
    let rest = encode_from(src, sidx, step.2, t, next);
    let syms = encode_from(src, sidx, tidx, t, c).0;
    assert(syms == seq![step.0] + rest.0);
    let cands = bucket_of(tidx, key);
    lemma_longest_match(cands, rem, t, c);
    let best = longest_match(cands, rem, t, c);
    let spare = (rem.len() - 3) as nat;
    if best.0 >= 3 {
        assert(step.0 == OutputSymbol::Copy(ReferenceSource::Target, best.1 as isize, best.0 as usize));
        assert(best.1 < c);
        if next + 3 <= n {
            assert(min_nat(best.0, spare) == best.0);
            lemma_index_windows_indexed(tidx, t, c, best.0);
            if next >= f {
                lemma_tail_is_one_copy(t, f, step.2, next);
                lemma_trailing_before_copy(step.0, rest.0);
                lemma_trailing_single(step.0);
            } else {
                lemma_periodic_tail(t, f, step.2, next);
                lemma_trailing_append(seq![step.0], rest.0);
            }
        } else {
            lemma_copy_reaches_end(t, f, c, best.1 as int);
            assert(literals(t.skip(n)) =~= Seq::<OutputSymbol>::empty());
            assert(syms =~= seq![step.0]);
            lemma_trailing_single(step.0);
        }
    } else {
        assert(step.0 == OutputSymbol::Literal(t[c]));
        assert(next == c + 1);
        assert(next + 3 <= n);
        lemma_add_entry_indexed(tidx, t, c);
        if next >= f {
            lemma_tail_is_one_copy(t, f, step.2, next);
            lemma_trailing_before_copy(step.0, rest.0);
        } else {
            lemma_periodic_tail(t, f, step.2, next);
            lemma_trailing_append(seq![step.0], rest.0);
        }
    }
}

/// Encoding, against an empty source and with an empty target index, a
/// target made of a fragment of at least three bytes repeated at least twice
/// ends with copies from the output that together cover at least all
/// repetitions but the first.
pub proof fn lemma_repeated_run_compression(f: Seq<u8>, r: nat)
    requires
        f.len() >= 3,
        r >= 2,
        f.len() * r <= isize::MAX,
    ensures
        trailing_target_len(
            encode_from(
                Seq::empty(),
                index_of(Seq::empty()),
                Map::empty(),
                repeat_seq(f, r),
                0,
            ).0,
        ) >= f.len() * (r - 1),
{
    let l = f.len() as int;
    let t = repeat_seq(f, r);
    assert(l * r >= 2 * l) by (nonlinear_arith)
        requires
            r >= 2,
            l >= 3,
    ;
    assert(l * (r - 1) == l * r - l) by (nonlinear_arith);
    assert forall|i: int| l <= i < t.len() implies #[trigger] t[i] == t[i - l] by {
        vstd::arithmetic::div_mod::lemma_mod_add_multiples_vanish(i - l, l);
    }
    lemma_periodic_tail(t, l, Map::empty(), 0);
}

} // verus!
