use bpe::codec::{decode, encode, rules_are_valid};
use bpe::merge::merge;
use bpe::pairs::{get_pair_frequencies, most_frequent_pair};
use bpe::train::train;
use bpe::BpeError;

fn round_trip(bytes: &[u8], n: usize) {
    let rules = train(bytes, n).unwrap();
    assert_eq!(rules.len(), n);
    let tokens = encode(bytes, &rules);
    assert_eq!(decode(&tokens, &rules), Ok(bytes.to_vec()));
}

#[test]
fn merge_is_non_overlapping() {
    assert_eq!(merge(&[5, 5, 5], (5, 5), 300), vec![300, 5]);
}

#[test]
fn merge_replaces_every_occurrence() {
    assert_eq!(merge(&[1, 2, 3, 1, 2, 1], (1, 2), 256), vec![256, 3, 256, 1]);
    assert_eq!(merge(&[5, 5, 5, 5], (5, 5), 300), vec![300, 300]);
    assert_eq!(merge(&[], (5, 5), 300), Vec::<usize>::new());
    assert_eq!(merge(&[7], (7, 7), 300), vec![7]);
}

#[test]
fn frequencies_count_overlapping_windows() {
    assert_eq!(get_pair_frequencies(&[97, 97, 97]), vec![(97, 97, 2)]);
    assert_eq!(
        get_pair_frequencies(&[1, 2, 1, 2, 3]),
        vec![(1, 2, 2), (2, 1, 1), (2, 3, 1)]
    );
}

#[test]
fn frequencies_of_short_sequences_are_empty() {
    assert!(get_pair_frequencies(&[]).is_empty());
    assert!(get_pair_frequencies(&[42]).is_empty());
}

#[test]
fn most_frequent_pair_prefers_count_then_smallest_pair() {
    // (y, z) occurs twice.
    assert_eq!(most_frequent_pair(&[120, 121, 122, 121, 122]), (121, 122));
    // All pairs occur once: the smallest wins.
    assert_eq!(most_frequent_pair(&[99, 100, 97, 98]), (97, 98));
}

#[test]
fn train_aaab_example() {
    let bytes = b"aaab";
    let rules = train(bytes, 2).unwrap();
    assert_eq!(rules, vec![(256, 97, 97), (257, 97, 98)]);
    let tokens = encode(bytes, &rules);
    assert_eq!(tokens, vec![256, 257]);
    assert_eq!(decode(&tokens, &rules), Ok(b"aaab".to_vec()));
}

#[test]
fn train_ids_are_sequential() {
    let rules = train(b"the cat sat on the mat with the hat", 6).unwrap();
    assert_eq!(rules.len(), 6);
    for (k, rule) in rules.iter().enumerate() {
        assert_eq!(rule.0, 256 + k);
    }
    assert!(rules_are_valid(&rules));
}

#[test]
fn train_is_deterministic() {
    let bytes = b"abracadabra abracadabra";
    assert_eq!(train(bytes, 5), train(bytes, 5));
}

#[test]
fn train_runs_out_of_pairs() {
    assert_eq!(train(b"", 1), Err(BpeError::InsufficientData));
    assert_eq!(train(b"x", 1), Err(BpeError::InsufficientData));
    // "aaaa" -> [256, 256] -> [257], after which no pair is left.
    assert_eq!(train(b"aaaa", 2).unwrap(), vec![(256, 97, 97), (257, 256, 256)]);
    assert_eq!(train(b"aaaa", 3), Err(BpeError::InsufficientData));
}

#[test]
fn train_zero_merges() {
    assert_eq!(train(b"", 0), Ok(vec![]));
    assert_eq!(train(b"hello", 0), Ok(vec![]));
}

#[test]
fn round_trip_edge_cases() {
    round_trip(b"", 0);
    round_trip(b"z", 0);
    round_trip(b"aaaaaaaa", 3);
    round_trip(b"aaab", 2);
    round_trip(&[0, 255, 0, 255, 0, 255, 128], 4);
}

#[test]
fn round_trip_text() {
    let text = b"low lower lowest newer newest wider widest";
    for n in 0..12 {
        round_trip(text, n);
    }
}

#[test]
fn encode_without_rules_is_bytes() {
    assert_eq!(encode(b"AB", &vec![]), vec![65, 66]);
}

#[test]
fn encode_applies_rules_in_order() {
    let rules = vec![(256, 97, 98), (257, 256, 99)];
    assert_eq!(encode(b"abcab", &rules), vec![257, 256]);
}

#[test]
fn decode_byte_token_without_rules() {
    assert_eq!(decode(&[65], &vec![]), Ok(vec![65]));
    assert_eq!(decode(&[65, 65], &vec![]), Ok(vec![65, 65]));
}

#[test]
fn decode_same_token_twice_is_stable() {
    let rules = vec![(256, 104, 105), (257, 256, 33)];
    let first = decode(&[257], &rules);
    let second = decode(&[257], &rules);
    assert_eq!(first, Ok(b"hi!".to_vec()));
    assert_eq!(first, second);
}

#[test]
fn decode_unknown_token() {
    assert_eq!(decode(&[256], &vec![]), Err(BpeError::UnknownToken));
    assert_eq!(decode(&[1, 258], &vec![(256, 1, 2), (257, 256, 3)]), Err(BpeError::UnknownToken));
}

#[test]
fn decode_malformed_rules() {
    // Forward reference.
    assert_eq!(decode(&[1], &vec![(256, 300, 1)]), Err(BpeError::MalformedRules));
    // Self reference.
    assert_eq!(decode(&[1], &vec![(256, 256, 1)]), Err(BpeError::MalformedRules));
    // Id out of sequence.
    assert_eq!(decode(&[1], &vec![(257, 1, 2)]), Err(BpeError::MalformedRules));
    assert!(!rules_are_valid(&vec![(256, 1, 2), (256, 1, 3)]));
    assert!(rules_are_valid(&vec![(256, 1, 2), (257, 256, 256)]));
}

#[test]
fn concat_joins_in_order() {
    assert_eq!(bpe::codec::concat(&[1, 2], &[3]), vec![1, 2, 3]);
    assert_eq!(bpe::codec::concat(&[], &[]), Vec::<u8>::new());
}
