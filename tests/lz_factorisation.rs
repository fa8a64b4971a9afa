use indurs::lz_factor::{lcp, next_factor};
use indurs::{factorise, lz_expand, Factor};

fn suffix_array_of(data: &[u8]) -> Vec<u32> {
    let (_, suffix_array) = suffix_array::SuffixArray::new(data).into_parts();
    suffix_array
}

#[test]
fn simple_lcp() {
    let data = [1, 2, 3, 1, 2, 3, 4, 5, 2, 3, 4, 1];

    assert_eq!(lcp(1, 1, &data), data.len() as u32);
    assert_eq!(lcp(1, 4, &data), 3);
    assert_eq!(lcp(1, 2, &data), 0);
    assert_eq!(lcp(5, 9, &data), 3);
    assert_eq!(lcp(0, 1, &data), 0);
}

#[test]
fn check_suffix_array() {
    let data = [1, 2, 3, 1, 2, 3, 4, 5, 2, 3, 4, 1];
    let expected_sufficies = [12, 11, 0, 3, 1, 8, 4, 2, 9, 5, 10, 6, 7];

    let (_, suffix_array) = suffix_array::SuffixArray::new(&data).into_parts();

    assert_eq!(suffix_array.len(), data.len() + 1);
    assert_eq!(suffix_array, expected_sufficies);
}

#[test]
fn simple_lz_factorisation() {
    let data = [1, 2, 3, 1, 2, 3, 4, 5, 2, 3, 4, 1];
    let expected_factorisation = [
        Factor::Special(1),
        Factor::Special(2),
        Factor::Special(3),
        Factor::Normal(0, 3),
        Factor::Special(4),
        Factor::Special(5),
        Factor::Normal(4, 3),
        Factor::Normal(0, 1),
    ];

    let (_, suffix_array) = suffix_array::SuffixArray::new(&data).into_parts();

    assert_eq!(*factorise(&data, 0, suffix_array), expected_factorisation);
}

#[test]
fn lz_factorisation_of_substring() {
    let data = [1, 2, 3, 1, 2, 3, 4, 5, 2, 3, 4, 1];
    let expected_factorisation = [
        Factor::Normal(0, 3),
        Factor::Special(4),
        Factor::Special(5),
        Factor::Normal(4, 3),
        Factor::Normal(0, 1),
    ];

    let (_, suffix_array) = suffix_array::SuffixArray::new(&data).into_parts();

    assert_eq!(*factorise(&data, 3, suffix_array), expected_factorisation);
}

#[test]
fn simple_lz_factorisation_of_substring_roundtrips() {
    let data = [1, 2, 3, 1, 2, 3, 4, 5, 2, 3, 4, 1];

    let (_, suffix_array) = suffix_array::SuffixArray::new(&data).into_parts();

    let factorised = factorise(&data, 3, suffix_array);
    let expanded = lz_expand(&data[..3], &factorised).unwrap();

    assert_eq!(&*expanded, &[1, 2, 3, 4, 5, 2, 3, 4, 1]);
}

#[test]
fn lz_factorisation_roundtrip() {
    let inputs: [&[u8]; 7] = [
        b"",
        b"a",
        b"aaaaaaaaaaaa",
        b"abracadabra",
        b"mississippi",
        b"the quick brown fox jumps over the lazy dog",
        &[0, 255, 0, 255, 0, 255, 1, 0, 255],
    ];
    for data in inputs {
        let factorised = factorise(data, 0, suffix_array_of(data));
        let no_data = [0u8; 0];
        assert_eq!(lz_expand(&no_data, &factorised), Some(data.to_vec()));
    }
}

#[test]
fn lz_substring_factorisation_roundtrips() {
    let inputs: [&[u8]; 4] = [b"ab", b"abracadabra", b"mississippi", b"xyzxyzxyzabcxyz"];
    for data in inputs {
        for idx in 1..data.len() {
            let factorised = factorise(data, idx, suffix_array_of(data));
            let source_data = &data[0..idx];
            assert_eq!(lz_expand(source_data, &factorised), Some(data[idx..].to_vec()));
        }
    }
}

#[test]
fn factorisation_of_a_run_is_one_overlapping_copy() {
    let data = [9u8; 8];
    assert_eq!(factorise(&data, 0, suffix_array_of(&data)), vec![Factor::Special(9), Factor::Normal(0, 7)]);
    assert_eq!(lz_expand(&[], &[Factor::Special(9), Factor::Normal(0, 7)]), Some(data.to_vec()));
}

#[test]
fn factorisation_from_the_end_is_empty() {
    let data = [1u8, 2, 3];
    assert_eq!(factorise(&data, 3, suffix_array_of(&data)), Vec::<Factor>::new());
    assert_eq!(factorise(&data, 7, suffix_array_of(&data)), Vec::<Factor>::new());
    assert_eq!(factorise(&[], 0, vec![0]), Vec::<Factor>::new());
}

#[test]
fn next_factor_prefers_longer_neighbour() {
    let data = [1, 2, 3, 1, 2, 3, 4, 5, 2, 3, 4, 1];
    assert_eq!(next_factor(4, &data, 1, 0), (7, Factor::Normal(0, 3)));
    assert_eq!(next_factor(4, &data, 0, 1), (7, Factor::Normal(0, 3)));
    assert_eq!(next_factor(7, &data, 1, 2), (8, Factor::Special(4)));
    assert_eq!(next_factor(12, &data, 4, 1), (13, Factor::Normal(0, 1)));
}

#[test]
fn lz_expand_rejects_reference_past_output() {
    assert_eq!(lz_expand(&[1, 2], &[Factor::Normal(2, 1)]), None);
    assert_eq!(lz_expand(&[1, 2], &[Factor::Normal(1, 2)]), Some(vec![2, 2]));
    assert_eq!(lz_expand(&[], &[Factor::Special(5), Factor::Normal(3, 1)]), None);
}

fn longest_previous_match(data: &[u8], pos: usize) -> usize {
    (0..pos)
        .map(|q| data[pos..].iter().zip(&data[q..]).take_while(|(a, b)| a == b).count())
        .max()
        .unwrap_or(0)
}

#[test]
fn factor_lengths_are_longest_previous_matches() {
    let inputs: [&[u8]; 5] = [
        b"abracadabra",
        b"mississippi",
        b"aabaabbbaabaaab",
        &[3, 1, 4, 1, 5, 9, 2, 6, 5, 3, 5, 8, 9, 7, 9, 3, 2, 3, 8, 4, 6],
        &[1, 2, 3, 1, 2, 3, 4, 5, 2, 3, 4, 1],
    ];
    for data in inputs {
        for start in 0..data.len() {
            let factorised = factorise(data, start, suffix_array_of(data));
            let mut pos = start;
            for factor in factorised {
                let longest = longest_previous_match(data, pos);
                match factor {
                    Factor::Normal(p, l) => {
                        assert_eq!(l as usize, longest);
                        assert!((p as usize) < pos);
                        pos += l as usize;
                    }
                    Factor::Special(b) => {
                        assert_eq!(longest, 0);
                        assert_eq!(b, data[pos]);
                        pos += 1;
                    }
                }
            }
            assert_eq!(pos, data.len());
        }
    }
}
