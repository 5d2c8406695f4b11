use fivewords::bits::popcount;
use fivewords::trie::VOWELS;
use fivewords::words::{encodewords, encode_valid, dedup_masks, starting_words};

fn bits_of(indices: &[u32]) -> u32 {
    let mut m: u32 = 0;
    for i in indices {
        m |= 1u32 << *i;
    }
    m
}

#[test]
fn encode_known_word() {
    // a=24, b=9, c=16, d=14, e=25 under the fixed table
    let expected = bits_of(&[24, 9, 16, 14, 25]);
    assert_eq!(encodewords("abcde"), Some(expected));
}

#[test]
fn encode_empty_word() {
    assert_eq!(encodewords(""), Some(0));
}

#[test]
fn encode_rejects_non_lowercase() {
    assert_eq!(encodewords("abCde"), None);
    assert_eq!(encodewords("ab de"), None);
    assert_eq!(encodewords("ab1de"), None);
}

#[test]
fn vowel_mask_matches_encoding() {
    // the six vowel letters together are exactly the vowel constant
    assert_eq!(encodewords("aeiouy"), Some(VOWELS));
}

#[test]
fn five_distinct_letters_give_five_bits() {
    let m = encode_valid("fjord").expect("five distinct letters");
    assert_eq!(popcount(m), 5);
    // a repeated letter drops the count below five
    assert_eq!(encode_valid("abcda"), None);
    assert_eq!(popcount(encodewords("abcda").unwrap()), 4);
    // too few or too many distinct letters
    assert_eq!(encode_valid("abcd"), None);
    assert_eq!(encode_valid("abcdef"), None);
    // anagrams share one mask
    assert_eq!(encodewords("fjord"), encodewords("frodj"));
}

#[test]
fn popcount_values() {
    assert_eq!(popcount(0), 0);
    assert_eq!(popcount(0b1011), 3);
    assert_eq!(popcount(u32::MAX), 32);
}

#[test]
fn dedup_sorts_and_removes_duplicates() {
    let v: Vec<u32> = vec![5, 3, 5, 1, 3];
    let d = dedup_masks(&v);
    assert_eq!(d, vec![1, 3, 5]);
}

#[test]
fn dedup_is_idempotent() {
    let v: Vec<u32> = vec![9, 2, 9, 2, 7, 7, 7];
    let once = dedup_masks(&v);
    let twice = dedup_masks(&once);
    assert_eq!(once, twice);
}

#[test]
fn starting_words_use_the_two_rare_letters() {
    let masks: Vec<u32> = vec![1, 4, 2, 8, 3];
    assert_eq!(starting_words(&masks), vec![1, 2, 3]);
}
