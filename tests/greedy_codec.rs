use indurs::fingerprint::FingerprintIndex;
use indurs::{Decoder, Encoder, OutputSymbol, ReferenceSource, State};

fn round_trip(source: &[u8], target: &[u8]) {
    let mut state = State::default();
    state.process_source(source);
    let encoded = state.encode(target);
    let decoded = state.decode(source, &encoded);
    assert_eq!(decoded, Some(target.to_vec()));
}

fn entry_total(index: &FingerprintIndex, data: &[u8]) -> usize {
    let mut keys: Vec<[u8; 3]> = Vec::new();
    for w in data.windows(3) {
        let key = [w[0], w[1], w[2]];
        if !keys.contains(&key) {
            keys.push(key);
        }
    }
    keys.iter().map(|k| index.positions(*k).len()).sum()
}

#[test]
fn duplicate_substrings_result_in_multiple_indicies() {
    let mut state = State::default();
    let data = [1u8, 2u8, 3u8, 1u8, 2u8, 3u8];

    state.process_source(&data);
    assert_eq!(state.source_indices().positions([1u8, 2u8, 3u8]), vec![0, 3]);
}

#[test]
fn source_extraction_doesnt_crash() {
    for data in [&b""[..], &b"a"[..], &b"ab"[..], &b"abc"[..], &b"hello world"[..]] {
        let mut state = State::default();
        state.process_source(data);
    }
}

#[test]
fn source_extraction_calculates_one_index_per_window() {
    for data in [&b"abc"[..], &b"aaaaaaa"[..], &b"abcabcabcxyz"[..], &b"the quick brown fox"[..]] {
        let mut state = State::default();
        state.process_source(data);
        assert_eq!(entry_total(state.source_indices(), data), data.len() - 2);
    }
}

#[test]
fn short_source_has_no_windows() {
    let mut state = State::default();
    state.process_source(&[7u8, 8u8]);
    assert_eq!(state.source_indices().positions([7u8, 8u8, 0u8]), Vec::<usize>::new());
    assert_eq!(entry_total(state.source_indices(), &[7u8, 8u8]), 0);
}

#[test]
fn process_source_replaces_previous_index() {
    let mut state = State::default();
    state.process_source(&[1u8, 2, 3, 1, 2, 3]);
    state.process_source(&[9u8, 1, 2, 3]);
    assert_eq!(state.source_indices().positions([1u8, 2u8, 3u8]), vec![1]);
    assert_eq!(state.source_indices().positions([9u8, 1u8, 2u8]), vec![0]);
}

#[test]
fn roundtrip_is_noop() {
    round_trip(b"abc", b"abc");
    round_trip(b"hello world", b"world, hello");
    round_trip(b"xyz", b"aaaaaaaaaaaaaaaaaaaaaaa");
    round_trip(b"0123456789", b"5678901234567890123");
    round_trip(b"abcdefgh", b"hgfedcba");
    round_trip(b"abcabcabd", b"abcabdabcabcabcabd");
}

#[test]
fn roundtrip_of_short_and_empty_buffers() {
    round_trip(b"", b"");
    round_trip(b"abc", b"");
    round_trip(b"abc", b"ab");
    round_trip(b"", b"abcabcabc");
}

#[test]
fn target_identical_to_source_encodes_to_single_copy() {
    for source in [&b"abc"[..], &b"aaaaaa"[..], &b"abcabcabc"[..], &b"the quick brown fox"[..]] {
        let mut state = State::default();
        state.process_source(source);
        let encoded = state.encode(source);
        assert_eq!(encoded, vec![OutputSymbol::Copy(ReferenceSource::Source, 0, source.len())]);
    }
}

#[test]
fn duplicate_runs_in_destination_encode_to_copies() {
    let cases: [(&[u8], usize); 5] =
        [(b"abc", 2), (b"abcd", 3), (b"xyzxy", 5), (b"aaa", 4), (b"hello", 9)];
    for (fragment, repeat) in cases {
        let source = Vec::<u8>::new();
        let mut state = State::default();
        state.process_source(&source);

        let dest = itertools::repeat_n(fragment, repeat)
            .flatten()
            .copied()
            .collect::<Vec<u8>>();

        let encoded = state.encode(&dest);
        let mut final_copy_length = 0;
        for symbol in encoded.iter().rev() {
            match symbol {
                OutputSymbol::Copy(ReferenceSource::Target, _, length) => final_copy_length += length,
                _ => break,
            }
        }
        assert!(final_copy_length >= fragment.len() * (repeat - 1));
        assert_eq!(state.decode(&source, &encoded), Some(dest));
    }
}

#[test]
fn mismatch_within_bound_credits_one_byte_less() {
    // The common prefix "abcde" ends in a mismatch, so four bytes are credited.
    let mut state = State::default();
    state.process_source(b"abcdeX");
    let encoded = state.encode(b"abcdeY");
    assert_eq!(
        encoded,
        vec![
            OutputSymbol::Copy(ReferenceSource::Source, 0, 4),
            OutputSymbol::Literal(b'e'),
            OutputSymbol::Literal(b'Y'),
        ]
    );
}

#[test]
fn match_to_the_end_of_source_is_credited_in_full() {
    let mut state = State::default();
    state.process_source(b"xxabcd");
    let encoded = state.encode(b"abcdzz");
    assert_eq!(
        encoded,
        vec![
            OutputSymbol::Copy(ReferenceSource::Source, 2, 4),
            OutputSymbol::Literal(b'z'),
            OutputSymbol::Literal(b'z'),
        ]
    );
}

#[test]
fn target_copy_preferred_on_equal_length() {
    let mut state = State::default();
    state.process_source(b"abcdQ");
    let encoded = state.encode(b"abcdRabcdS");
    assert_eq!(
        encoded,
        vec![
            OutputSymbol::Copy(ReferenceSource::Source, 0, 3),
            OutputSymbol::Literal(b'd'),
            OutputSymbol::Literal(b'R'),
            OutputSymbol::Copy(ReferenceSource::Target, 0, 3),
            OutputSymbol::Literal(b'd'),
            OutputSymbol::Literal(b'S'),
        ]
    );
}

#[test]
fn below_threshold_everything_is_literal() {
    let mut state = State::default();
    state.process_source(b"ab");
    let encoded = state.encode(b"ab");
    assert_eq!(encoded, vec![OutputSymbol::Literal(b'a'), OutputSymbol::Literal(b'b')]);
}

#[test]
fn self_referential_run_encodes_as_one_target_copy() {
    let mut state = State::default();
    state.process_source(b"");
    let encoded = state.encode(b"aaaaaaaaaa");
    assert_eq!(
        encoded,
        vec![
            OutputSymbol::Literal(b'a'),
            OutputSymbol::Copy(ReferenceSource::Target, 0, 9),
        ]
    );
}

#[test]
fn target_index_is_kept_between_calls() {
    let mut state = State::default();
    state.process_source(b"");
    state.encode(b"abcd");
    assert_eq!(state.target_indices().positions([b'a', b'b', b'c']), vec![0]);
    assert_eq!(state.target_indices().positions([b'b', b'c', b'd']), vec![1]);
    let encoded = state.encode(b"zzabcd");
    assert_eq!(state.target_indices().positions([b'a', b'b', b'c']), vec![0, 2]);
    assert_eq!(state.decode(b"", &encoded), Some(b"zzabcd".to_vec()));
}

#[test]
fn decode_expands_overlapping_target_copy() {
    let state = State::default();
    let symbols = [OutputSymbol::Literal(7), OutputSymbol::Copy(ReferenceSource::Target, 0, 9)];
    assert_eq!(state.decode(b"", &symbols), Some(vec![7u8; 10]));
}

#[test]
fn decode_copies_from_source_and_target() {
    let state = State::default();
    let symbols = [
        OutputSymbol::Copy(ReferenceSource::Source, 1, 3),
        OutputSymbol::Literal(b'-'),
        OutputSymbol::Copy(ReferenceSource::Target, 1, 4),
    ];
    assert_eq!(state.decode(b"abcdef", &symbols), Some(b"bcd-cd-c".to_vec()));
}

#[test]
fn decode_rejects_source_copy_out_of_bounds() {
    let state = State::default();
    assert_eq!(state.decode(b"abc", &[OutputSymbol::Copy(ReferenceSource::Source, 1, 3)]), None);
    assert_eq!(state.decode(b"abc", &[OutputSymbol::Copy(ReferenceSource::Source, -1, 1)]), None);
    assert_eq!(
        state.decode(b"abc", &[OutputSymbol::Copy(ReferenceSource::Source, 0, 3)]),
        Some(b"abc".to_vec())
    );
}

#[test]
fn decode_rejects_target_copy_out_of_bounds() {
    let state = State::default();
    assert_eq!(state.decode(b"", &[OutputSymbol::Copy(ReferenceSource::Target, 0, 1)]), None);
    let symbols = [OutputSymbol::Literal(1), OutputSymbol::Copy(ReferenceSource::Target, 1, 2)];
    assert_eq!(state.decode(b"", &symbols), None);
    let symbols = [OutputSymbol::Literal(1), OutputSymbol::Copy(ReferenceSource::Target, -1, 2)];
    assert_eq!(state.decode(b"", &symbols), None);
}

#[test]
fn decode_of_nothing_is_empty() {
    let state = State::default();
    assert_eq!(state.decode(b"abc", &[]), Some(Vec::new()));
}

#[test]
fn fingerprint_index_appends_in_order() {
    let mut index = FingerprintIndex::new();
    let key = indurs::fingerprint::key_of([1, 2, 3]);
    index.insert(key, 5);
    index.insert(key, 2);
    index.insert(key, 5);
    assert_eq!(index.positions([1, 2, 3]), vec![5, 2, 5]);
    assert_eq!(index.positions([3, 2, 1]), Vec::<usize>::new());
    assert_eq!(key, 0x010203);
}
