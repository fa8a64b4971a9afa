//! A byte-level delta compressor: a greedy matcher over 3-byte fingerprint
//! indices with its decoder, and a suffix-array Lempel-Ziv factoriser.
pub mod fingerprint;
pub mod greedy;
pub mod lz_factor;
pub mod periodic;
pub mod prefix;
pub mod suffix_order;

pub use fingerprint::FingerprintIndex;
pub use lz_factor::{factorise, lz_expand, Factor};

use vstd::prelude::*;

use fingerprint::{index_of, index_prefix, window_key_at};
use greedy::{
    add_windows, decode_from, decoded, encode_from, encode_step, find_longest_match, literals,
    target_copy,
};

verus! {

/// Where a copy reads from: the source buffer, or the output decoded so far.
#[derive(Debug, PartialEq, Eq, Structural, Copy, Clone)]
pub enum ReferenceSource {
    Source,
    Target,
}

/// One instruction of an encoded stream: a literal byte, or a copy of
/// `length` bytes from `offset` of the source or of the output so far.
#[derive(Debug, PartialEq, Eq, Structural, Copy, Clone)]
pub enum OutputSymbol {
    Literal(u8),
    Copy(ReferenceSource, isize, usize),
}

/// Turns a target buffer into instructions that rebuild it from a source
/// buffer and from what they have rebuilt so far.
pub trait Encoder {
    /// The source buffer that source copies read from.
    spec fn source(&self) -> Seq<u8>;

    /// Makes `data` the source buffer.
    fn process_source(&mut self, data: &[u8])
        requires
            data@.len() <= isize::MAX,
        ensures
            final(self).source() == data@,
    ;

    /// Instructions that decode, against the source, to `target`.
    fn encode(&mut self, target: &[u8]) -> (r: Vec<OutputSymbol>)
        requires
            old(self).source().len() <= isize::MAX,
            target@.len() <= isize::MAX,
        ensures
            final(self).source() == old(self).source(),
            decoded(old(self).source(), r@) == Some(target@),
    ;
}

/// Replays instructions against a source buffer.
pub trait Decoder {
    /// The bytes that `encoded_data` stands for against `source`, or `None`
    /// where an instruction refers to a byte that does not exist.
    fn decode(&self, source: &[u8], encoded_data: &[OutputSymbol]) -> (r: Option<Vec<u8>>)
        ensures
            r is Some == decoded(source@, encoded_data@) is Some,
            r is Some ==> r->0@ == decoded(source@, encoded_data@)->0,
    ;
}

/// The greedy matcher: a source buffer with the index of its windows, and an
/// index of the target windows met so far.
///
/// The target index is kept from one `encode` to the next. Only its
/// positions below the current cursor are ever used as copies, and each is
/// measured against the current target, so what earlier calls left in it
/// can only offer matches that really hold.
pub struct State {
    source_data: Vec<u8>,
    source_indices: FingerprintIndex,
    target_indices: FingerprintIndex,
}

impl State {
    /// The index of the source windows.
    pub closed spec fn source_index(&self) -> Map<u32, Seq<usize>> {
        self.source_indices@
    }

    /// The index of the target windows met so far.
    pub closed spec fn target_index(&self) -> Map<u32, Seq<usize>> {
        self.target_indices@
    }

    /// The index of the source windows.
    pub fn source_indices(&self) -> (r: &FingerprintIndex)
        ensures
            r@ == self.source_index(),
    {
        &self.source_indices
    }

    /// The index of the target windows met so far.
    pub fn target_indices(&self) -> (r: &FingerprintIndex)
        ensures
            r@ == self.target_index(),
    {
        &self.target_indices
    }
}

impl Default for State {
    fn default() -> (r: State)
        ensures
            r.source() == Seq::<u8>::empty(),
            r.source_index() == Map::<u32, Seq<usize>>::empty(),
            r.target_index() == Map::<u32, Seq<usize>>::empty(),
    {
        State {
            source_indices: FingerprintIndex::new(),
            source_data: Vec::new(),
            target_indices: FingerprintIndex::new(),
        }
    }
}

impl Encoder for State {
    closed spec fn source(&self) -> Seq<u8> {
        self.source_data@
    }

    /// Replaces the source buffer and rebuilds its index from scratch, one
    /// entry per window at its position.
    fn process_source(&mut self, data: &[u8])
        ensures
            final(self).source_index() == index_of(data@),
            final(self).target_index() == old(self).target_index(),
    {
        self.source_data = vstd::slice::slice_to_vec(data);
        self.source_indices = FingerprintIndex::new();
        let n = data.len();
        if n >= 3 {
            let mut i: usize = 0;
            while i < n - 2
                invariant
                    n == data@.len(),
                    n >= 3,
                    i <= n - 2,
                    self.source_data@ == data@,
                    self.target_indices@ == old(self).target_indices@,
                    self.source_indices@ == index_prefix(data@, i as nat),
                decreases n - 2 - i,
            {
                let key = window_key_at(data, i);
                self.source_indices.insert(key, i);
                i += 1;
            }
        }
    }

    /// Scans `target` from left to right. Where at least three bytes are
    /// left, the window there is looked up in both indices; the longest
    /// target match is copied if it is at least as long as the longest
    /// source match and at least three bytes, else the longest source match
    /// if it is at least three bytes, else one literal is emitted. The
    /// windows passed over are added to the target index. The last bytes are
    /// literals.
    fn encode(&mut self, target: &[u8]) -> (r: Vec<OutputSymbol>)
        ensures
            r@ == encode_from(
                old(self).source(),
                old(self).source_index(),
                old(self).target_index(),
                target@,
                0,
            ).0,
            final(self).target_index() == encode_from(
                old(self).source(),
                old(self).source_index(),
                old(self).target_index(),
                target@,
                0,
            ).1,
            final(self).source_index() == old(self).source_index(),
    {
        let ghost src = self.source_data@;
        let ghost sidx = self.source_indices@;
        let ghost full = encode_from(src, sidx, self.target_indices@, target@, 0);
        let n = target.len();
        let mut result: Vec<OutputSymbol> = Vec::new();
        let mut c: usize = 0;
        while n - c > 2
            invariant
                n == target@.len(),
                c <= n,
                src.len() <= isize::MAX,
                n <= isize::MAX,
                self.source_data@ == src,
                self.source_indices@ == sidx,
                result@ + encode_from(src, sidx, self.target_indices@, target@, c as int).0
                    == full.0,
                encode_from(src, sidx, self.target_indices@, target@, c as int).1 == full.1,
            decreases n - c,
        {
            let ghost tidx = self.target_indices@;
            let ghost step = encode_step(src, sidx, tidx, target@, c as int);
            let ghost rest = encode_from(src, sidx, step.2, target@, c + step.1);
            proof {
                greedy::lemma_step_decodes(src, sidx, tidx, target@, c as int);
            }
            let key = window_key_at(target, c);
            let (source_len, source_pos) = match self.source_indices.get(key) {
                Some(v) => find_longest_match(
                    v,
                    target,
                    c,
                    self.source_data.as_slice(),
                    self.source_data.len(),
                ),
                None => (0, 0),
            };
            let (target_len, target_pos) = match self.target_indices.get(key) {
                Some(v) => find_longest_match(v, target, c, target, c),
                None => (0, 0),
            };
            let spare = n - c - 3;
            if target_len >= source_len && target_len >= 3 {
                let k = if target_len < spare {
                    target_len
                } else {
                    spare
                };
                add_windows(&mut self.target_indices, target, c, k);
                result.push(OutputSymbol::Copy(ReferenceSource::Target, target_pos as isize, target_len));
                c += target_len;
            } else if source_len >= 3 {
                let k = if source_len < spare {
                    source_len
                } else {
                    spare
                };
                add_windows(&mut self.target_indices, target, c, k);
                result.push(OutputSymbol::Copy(ReferenceSource::Source, source_pos as isize, source_len));
                c += source_len;
            } else {
                self.target_indices.insert(key, c);
                result.push(OutputSymbol::Literal(target[c]));
                c += 1;
            }
            proof {
                assert(self.target_indices@ == step.2);
                assert(result@.last() == step.0);
                assert(result@.drop_last() + (seq![step.0] + rest.0) =~= result@ + rest.0);
            }
        }
        while c < n
            invariant
                n == target@.len(),
                c <= n,
                n - c <= 2,
                result@ + literals(target@.skip(c as int)) == full.0,
                self.target_indices@ == full.1,
                self.source_indices@ == sidx,
            decreases n - c,
        {
            proof {
                assert(literals(target@.skip(c as int)) =~= seq![OutputSymbol::Literal(target@[c as int])]
                    + literals(target@.skip(c + 1)));
                assert(result@.push(OutputSymbol::Literal(target@[c as int])) + literals(
                    target@.skip(c + 1),
                ) =~= result@ + literals(target@.skip(c as int)));
            }
            result.push(OutputSymbol::Literal(target[c]));
            c += 1;
        }
        proof {
            assert(literals(target@.skip(c as int)) =~= Seq::<OutputSymbol>::empty());
            assert(result@ + Seq::<OutputSymbol>::empty() =~= result@);
            greedy::lemma_encode_round_trip(src, sidx, old(self).target_indices@, target@);
        }
        result
    }
}

impl Decoder for State {
    /// Literals are appended; a source copy appends `source[o .. o + l]`; a
    /// target copy appends, `l` times, the byte at `o + i` of the output as
    /// it has grown so far.
    fn decode(&self, source: &[u8], encoded_data: &[OutputSymbol]) -> (r: Option<Vec<u8>>) {
        let ghost whole = decoded(source@, encoded_data@);
        let sl = source.len();
        let mut result: Vec<u8> = Vec::new();
        let mut j: usize = 0;
        assert(encoded_data@.skip(0) =~= encoded_data@);
        while j < encoded_data.len()
            invariant
                sl == source@.len(),
                j <= encoded_data@.len(),
                whole == decoded(source@, encoded_data@),
                decode_from(source@, result@, encoded_data@.skip(j as int)) == whole,
            decreases encoded_data@.len() - j,
        {
            proof {
                assert(encoded_data@.skip(j as int)[0] == encoded_data@[j as int]);
                assert(encoded_data@.skip(j as int).drop_first() == encoded_data@.skip(j + 1));
            }
            match encoded_data[j] {
                OutputSymbol::Literal(a) => result.push(a),
                OutputSymbol::Copy(ReferenceSource::Source, offset, length) => {
                    if offset < 0 || offset as usize > sl || length > sl - offset as usize {
                        assert(greedy::decode_symbol(source@, result@, encoded_data@[j as int]) is None);
                        return None;
                    }
                    let o = offset as usize;
                    let ghost before = result@;
                    let mut i: usize = 0;
                    while i < length
                        invariant
                            sl == source@.len(),
                            o + length <= sl,
                            i <= length,
                            result@ == before + source@.subrange(o as int, o + i),
                        decreases length - i,
                    {
                        result.push(source[o + i]);
                        i += 1;
                        assert(result@ =~= before + source@.subrange(o as int, o + i));
                    }
                },
                OutputSymbol::Copy(ReferenceSource::Target, offset, length) => {
                    if length > 0 && (offset < 0 || offset as usize >= result.len()) {
                        assert(greedy::decode_symbol(source@, result@, encoded_data@[j as int]) is None);
                        return None;
                    }
                    let ghost before = result@;
                    let mut i: usize = 0;
                    while i < length
                        invariant
                            length > 0 ==> 0 <= offset < before.len(),
                            i <= length,
                            result@.len() == before.len() + i,
                            result@ == target_copy(before, offset as int, i as nat),
                        decreases length - i,
                    {
                        let cur = result.len();
                        let b = result[offset as usize + i];
                        result.push(b);
                        i += 1;
                    }
                },
            }
            j += 1;
        }
        proof {
            assert(encoded_data@.skip(j as int) =~= Seq::<OutputSymbol>::empty());
        }
        Some(result)
    }
}

} // verus!
