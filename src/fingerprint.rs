//! An index from 3-byte windows to the positions at which they occur.
use vstd::prelude::*;

use std::collections::HashMap;

verus! {

broadcast use vstd::std_specs::hash::group_hash_axioms;

/// Number of distinct window keys: one for each value of three bytes.
pub open spec fn key_space() -> nat {
    0x1000000
}

/// The key of the three bytes `a`, `b`, `c`, packed big-endian.
pub open spec fn pack_key(a: u8, b: u8, c: u8) -> u32 {
    (a as int * 0x10000 + b as int * 0x100 + c as int) as u32
}

/// The key of the window of `s` that starts at `i`.
pub open spec fn window_key(s: Seq<u8>, i: int) -> u32 {
    pack_key(s[i], s[i + 1], s[i + 2])
}

/// The positions listed under `k`, empty where `k` has none.
pub open spec fn bucket_of(m: Map<u32, Seq<usize>>, k: u32) -> Seq<usize> {
    if m.contains_key(k) {
        m[k]
    } else {
        Seq::empty()
    }
}

/// `m` with `p` appended to the positions of `k`.
pub open spec fn add_entry(m: Map<u32, Seq<usize>>, k: u32, p: usize) -> Map<u32, Seq<usize>> {
    m.insert(k, bucket_of(m, k).push(p))
}

/// The index of the first `n` windows of `s`, in the order of their positions.
pub open spec fn index_prefix(s: Seq<u8>, n: nat) -> Map<u32, Seq<usize>>
    decreases n,
{
    if n == 0 {
        Map::empty()
    } else {
        add_entry(index_prefix(s, (n - 1) as nat), window_key(s, n - 1), (n - 1) as usize)
    }
}

/// The index of every window of `s`; a buffer shorter than a window has none.
pub open spec fn index_of(s: Seq<u8>) -> Map<u32, Seq<usize>> {
    if s.len() < 3 {
        Map::empty()
    } else {
        index_prefix(s, (s.len() - 2) as nat)
    }
}

/// Number of positions listed under the keys below `k`.
pub open spec fn entries_below(m: Map<u32, Seq<usize>>, k: nat) -> nat
    decreases k,
{
    if k == 0 {
        0
    } else {
        entries_below(m, (k - 1) as nat) + bucket_of(m, (k - 1) as u32).len()
    }
}

/// Number of positions listed under all keys together.
pub open spec fn entry_count(m: Map<u32, Seq<usize>>) -> nat {
    entries_below(m, key_space())
}

pub proof fn lemma_pack_key_bound(a: u8, b: u8, c: u8)
    ensures
        pack_key(a, b, c) < key_space(),
        pack_key(a, b, c) == a as int * 0x10000 + b as int * 0x100 + c as int,
{
}

proof fn lemma_entries_below_add(m: Map<u32, Seq<usize>>, k: u32, p: usize, n: nat)
    requires
        n <= key_space(),
    ensures
        entries_below(add_entry(m, k, p), n) == entries_below(m, n) + (if k < n {
            1nat
        } else {
            0nat
        }),
    decreases n,
{
    if n > 0 {
        lemma_entries_below_add(m, k, p, (n - 1) as nat);
    }
}

/// Adding one position to the index adds one entry to it.
pub proof fn lemma_entry_count_add(m: Map<u32, Seq<usize>>, k: u32, p: usize)
    requires
        k < key_space(),
    ensures
        entry_count(add_entry(m, k, p)) == entry_count(m) + 1,
{
    lemma_entries_below_add(m, k, p, key_space());
}

proof fn lemma_entries_below_empty(n: nat)
    ensures
        entries_below(Map::empty(), n) == 0,
    decreases n,
{
    if n > 0 {
        lemma_entries_below_empty((n - 1) as nat);
    }
}

proof fn lemma_index_prefix_count(s: Seq<u8>, n: nat)
    requires
        n + 2 <= s.len(),
    ensures
        entry_count(index_prefix(s, n)) == n,
    decreases n,
{
    if n == 0 {
        lemma_entries_below_empty(key_space());
    } else {
        lemma_index_prefix_count(s, (n - 1) as nat);
        let i = n - 1;
        lemma_pack_key_bound(s[i], s[i + 1], s[i + 2]);
        lemma_entry_count_add(index_prefix(s, (n - 1) as nat), window_key(s, i), i as usize);
    }
}

/// The index of a buffer of at least three bytes holds one entry per window:
/// its length less two.
pub proof fn lemma_index_entry_count(d: Seq<u8>)
    requires
        d.len() >= 3,
    ensures
        entry_count(index_of(d)) == d.len() - 2,
{
    lemma_index_prefix_count(d, (d.len() - 2) as nat);
}

/// The positions of `index_prefix(s, n)` under `k` are exactly the windows
/// below `n` whose key is `k`, in increasing order.
pub proof fn lemma_index_prefix_bucket(s: Seq<u8>, n: nat, k: u32)
    requires
        n + 2 <= s.len(),
        n <= usize::MAX,
    ensures
        forall|j: int|
            0 <= j < bucket_of(index_prefix(s, n), k).len() ==> {
                let p = #[trigger] bucket_of(index_prefix(s, n), k)[j];
                p < n && window_key(s, p as int) == k
            },
        forall|i: int|
            0 <= i < n && window_key(s, i) == k ==> bucket_of(index_prefix(s, n), k).contains(
                i as usize,
            ),
    decreases n,
{
    if n > 0 {
        lemma_index_prefix_bucket(s, (n - 1) as nat, k);
        let prev = bucket_of(index_prefix(s, (n - 1) as nat), k);
        let cur = bucket_of(index_prefix(s, n), k);
        if window_key(s, n - 1) == k {
            assert(cur == prev.push((n - 1) as usize));
            assert forall|i: int| 0 <= i < n && window_key(s, i) == k implies cur.contains(
                i as usize,
            ) by {
                if i < n - 1 {
                    let j = choose|j: int| 0 <= j < prev.len() && prev[j] == i as usize;
                    assert(cur[j] == i as usize);
                } else {
                    assert(cur[prev.len() as int] == i as usize);
                }
            }
        } else {
            assert(cur == prev);
        }
    }
}

/// An index from 3-byte windows to the ordered list of positions at which
/// each occurs. Positions are only ever appended.
pub struct FingerprintIndex {
    buckets: HashMap<u32, Vec<usize>>,
}

impl View for FingerprintIndex {
    type V = Map<u32, Seq<usize>>;

    closed spec fn view(&self) -> Map<u32, Seq<usize>> {
        self.buckets@.map_values(|v: Vec<usize>| v@)
    }
}

/// The key of the three bytes of `key`.
pub fn key_of(key: [u8; 3]) -> (r: u32)
    ensures
        r == pack_key(key@[0], key@[1], key@[2]),
{
    (key[0] as u32) * 0x10000 + (key[1] as u32) * 0x100 + (key[2] as u32)
}

/// The key of the window of `s` at `i`.
pub fn window_key_at(s: &[u8], i: usize) -> (r: u32)
    requires
        i + 3 <= s@.len(),
    ensures
        r == window_key(s@, i as int),
{
    (s[i] as u32) * 0x10000 + (s[i + 1] as u32) * 0x100 + (s[i + 2] as u32)
}

impl FingerprintIndex {
    /// An index with no entries.
    pub fn new() -> (r: FingerprintIndex)
        ensures
            r@ == Map::<u32, Seq<usize>>::empty(),
    {
        let r = FingerprintIndex { buckets: HashMap::new() };
        assert(r@ =~= Map::<u32, Seq<usize>>::empty());
        r
    }

    /// Appends `position` to the positions of `key`.
    pub fn insert(&mut self, key: u32, position: usize)
        ensures
            final(self)@ == add_entry(old(self)@, key, position),
    {
        let mut positions = match self.buckets.remove(&key) {
            Some(v) => v,
            None => Vec::new(),
        };
        positions.push(position);
        self.buckets.insert(key, positions);
        assert(self@ =~= add_entry(old(self)@, key, position));
    }

    /// The positions of `key`, if it has any.
    pub fn get(&self, key: u32) -> (r: Option<&Vec<usize>>)
        ensures
            r is Some == self@.contains_key(key),
            r is Some ==> r->0@ == self@[key],
    {
        self.buckets.get(&key)
    }

    /// The positions at which the window `key` was recorded, in order.
    pub fn positions(&self, key: [u8; 3]) -> (r: Vec<usize>)
        ensures
            r@ == bucket_of(self@, pack_key(key@[0], key@[1], key@[2])),
    {
        let k = key_of(key);
        let mut r: Vec<usize> = Vec::new();
        match self.buckets.get(&k) {
            Some(v) => {
                let mut j: usize = 0;
                while j < v.len()
                    invariant
                        j <= v@.len(),
                        r@ == v@.take(j as int),
                    decreases v@.len() - j,
                {
                    r.push(v[j]);
                    j += 1;
                    assert(r@ =~= v@.take(j as int));
                }
                assert(r@ =~= v@);
            },
            None => {},
        }
        r
    }
}

} // verus!
