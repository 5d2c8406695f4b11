use fivewords::trie::{Trie, build_trie};
use fivewords::words::{encode_valid, dedup_masks, starting_words};
use fivewords::lexicon::{Lexicon, decodewords};

fn bits_of(indices: &[u32]) -> u32 {
    let mut m: u32 = 0;
    for i in indices {
        m |= 1u32 << *i;
    }
    m
}

fn run_all_starts(trie: &Trie, masks: &[u32]) -> Vec<Vec<u32>> {
    let mut out: Vec<Vec<u32>> = Vec::new();
    for m in masks {
        let mut words = vec![*m];
        trie.search(*m, &mut words, &mut out);
        assert_eq!(words, vec![*m]);
    }
    out
}

#[test]
fn trie_stores_exactly_the_inserted_masks() {
    let w1 = bits_of(&[0, 1, 2, 3, 4]);
    let w2 = bits_of(&[5, 6, 7, 8, 9]);
    let masks = vec![w1, w2];
    let t = build_trie(&masks);
    assert!(t.contains(w1));
    assert!(t.contains(w2));
    assert!(!t.contains(0));
    assert!(!t.contains(bits_of(&[0, 1, 2, 3, 5])));
    assert!(!t.contains(bits_of(&[0, 1, 2, 3])));
    assert!(!t.contains(bits_of(&[0, 1, 2, 3, 4, 5])));
    assert!(!t.contains(1u32 << 30));
}

#[test]
fn addword_by_hand_matches_build() {
    let w = bits_of(&[1, 9, 14, 21, 23]);
    let mut t = Trie::new();
    assert!(!t.contains(w));
    t.addword(w);
    assert!(t.contains(w));
    // inserting again changes nothing
    t.addword(w);
    assert!(t.contains(w));
}

// Scenario: five disjoint five-letter masks covering bits 0..=24, each with
// one vowel bit, plus a sixth mask overlapping two of them.  The search must
// report exactly the covering combination, once, and exclude the overlap.
#[test]
fn search_finds_the_unique_cover() {
    let w1 = bits_of(&[0, 1, 2, 3, 7]);
    let w2 = bits_of(&[4, 5, 6, 8, 15]);
    let w3 = bits_of(&[9, 10, 11, 12, 21]);
    let w4 = bits_of(&[13, 14, 16, 17, 22]);
    let w5 = bits_of(&[18, 19, 20, 23, 24]);
    let overlap = bits_of(&[0, 4, 5, 6, 8]);
    let masks = dedup_masks(&vec![w1, w2, w3, w4, w5, overlap]);
    let t = build_trie(&masks);
    let out = run_all_starts(&t, &masks);
    assert_eq!(out, vec![vec![w1, w2, w3, w4, w5]]);
}

#[test]
fn search_emissions_are_sound() {
    let w1 = bits_of(&[0, 1, 2, 3, 7]);
    let w2 = bits_of(&[4, 5, 6, 8, 15]);
    let w3 = bits_of(&[9, 10, 11, 12, 21]);
    let w4 = bits_of(&[13, 14, 16, 17, 22]);
    let w5 = bits_of(&[18, 19, 20, 23, 24]);
    let overlap = bits_of(&[0, 4, 5, 6, 8]);
    let masks = dedup_masks(&vec![w1, w2, w3, w4, w5, overlap]);
    let t = build_trie(&masks);
    for combo in run_all_starts(&t, &masks) {
        assert_eq!(combo.len(), 5);
        for p in 0..5 {
            assert!(t.contains(combo[p]));
            for q in (p + 1)..5 {
                assert_eq!(combo[p] & combo[q], 0);
            }
        }
        // canonical order: lowest letters strictly increase
        for p in 1..5 {
            assert!(combo[p - 1].trailing_zeros() < combo[p].trailing_zeros());
        }
    }
}

// A single unused letter below every candidate is within budget: the cover
// of bits 1..=25 leaving only bit 0 unused is still found.
#[test]
fn one_unused_low_letter_is_allowed() {
    let w1 = bits_of(&[1, 2, 3, 4, 7]);
    let w2 = bits_of(&[5, 6, 8, 9, 15]);
    let w3 = bits_of(&[10, 11, 12, 13, 21]);
    let w4 = bits_of(&[14, 16, 17, 18, 22]);
    let w5 = bits_of(&[19, 20, 23, 24, 25]);
    let masks = vec![w1, w2, w3, w4, w5];
    let t = build_trie(&masks);
    let out = run_all_starts(&t, &masks);
    assert_eq!(out, vec![vec![w1, w2, w3, w4, w5]]);
}

// Two unused letters below the lowest candidate make the branch hopeless:
// with bits 0 and 1 unused at most 24 letters remain, so the budget prune
// abandons every branch and nothing is emitted.
#[test]
fn two_unused_low_letters_are_pruned() {
    let w1 = bits_of(&[2, 3, 4, 5, 7]);
    let w2 = bits_of(&[6, 8, 9, 10, 15]);
    let w3 = bits_of(&[11, 12, 13, 14, 21]);
    let w4 = bits_of(&[16, 17, 18, 19, 22]);
    let w5 = bits_of(&[20, 23, 24, 25, 2]);
    let masks = dedup_masks(&vec![w1, w2, w3, w4, w5]);
    let t = build_trie(&masks);
    let out = run_all_starts(&t, &masks);
    assert!(out.is_empty());
}

#[test]
fn lexicon_joins_anagrams() {
    let m = encode_valid("fjord").unwrap();
    let mut lex = Lexicon::new();
    lex.add(m, "fjord");
    lex.add(m, "frodj");
    assert_eq!(lex.get(m).unwrap(), "fjord/frodj");
    assert!(lex.get(m + 1).is_none());
}

#[test]
fn decode_renders_each_mask() {
    let m1 = encode_valid("fjord").unwrap();
    let m2 = encode_valid("waltz").unwrap();
    let mut lex = Lexicon::new();
    lex.add(m1, "fjord");
    lex.add(m2, "waltz");
    let rendered = decodewords(&vec![m1, m2], &lex).unwrap();
    assert_eq!(rendered, vec!["fjord".to_string(), "waltz".to_string()]);
    assert!(decodewords(&vec![m1, 12345], &lex).is_none());
}

// End to end on real words: fjord, gucks, nymph, vibex and waltz cover all
// letters but q, and q sits at bit 0, below every word.  The one canonical
// combination comes out, rendered through the lexicon.
#[test]
fn full_pipeline_on_real_words() {
    let surface = ["fjord", "gucks", "nymph", "vibex", "waltz", "fjodr"];
    let mut lex = Lexicon::new();
    let mut cooked: Vec<u32> = Vec::new();
    for w in surface {
        let m = encode_valid(w).unwrap();
        lex.add(m, w);
        cooked.push(m);
    }
    let masks = dedup_masks(&cooked);
    assert_eq!(masks.len(), 5);
    let t = build_trie(&masks);
    let starts = starting_words(&masks);
    // only fjord holds one of the two rarest letters (j, at bit 1)
    assert_eq!(starts, vec![encode_valid("fjord").unwrap()]);
    let mut out: Vec<Vec<u32>> = Vec::new();
    for s in &starts {
        let mut words = vec![*s];
        t.search(*s, &mut words, &mut out);
    }
    assert_eq!(out.len(), 1);
    let mut lines: Vec<String> = Vec::new();
    for combo in &out {
        lines.push(decodewords(combo, &lex).unwrap().join(" "));
    }
    assert_eq!(lines, vec!["fjord/fjodr waltz vibex gucks nymph".to_string()]);
}

// Two covers share the trie: the two middle words swap their vowels, and
// both completions are reported, mixed pairs being excluded as overlapping.
#[test]
fn search_reports_every_cover() {
    let w1 = bits_of(&[0, 1, 2, 3, 7]);
    let w2 = bits_of(&[4, 5, 6, 8, 15]);
    let w3a = bits_of(&[9, 10, 11, 12, 21]);
    let w4a = bits_of(&[13, 14, 16, 17, 22]);
    let w3b = bits_of(&[9, 10, 11, 12, 22]);
    let w4b = bits_of(&[13, 14, 16, 17, 21]);
    let w5 = bits_of(&[18, 19, 20, 23, 24]);
    let masks = dedup_masks(&vec![w1, w2, w3a, w4a, w3b, w4b, w5]);
    let t = build_trie(&masks);
    let out = run_all_starts(&t, &masks);
    assert_eq!(out.len(), 2);
    assert!(out.contains(&vec![w1, w2, w3a, w4a, w5]));
    assert!(out.contains(&vec![w1, w2, w3b, w4b, w5]));
}

#[test]
fn words_sharing_a_prefix_share_the_path() {
    let w1 = bits_of(&[0, 1, 2, 3, 4]);
    let w2 = bits_of(&[0, 1, 2, 3, 5]);
    let t = build_trie(&vec![w1, w2]);
    assert!(t.contains(w1));
    assert!(t.contains(w2));
    assert!(!t.contains(bits_of(&[0, 1, 2, 3, 6])));
}

#[test]
fn empty_dictionary_finds_nothing() {
    let masks = dedup_masks(&Vec::new());
    assert!(masks.is_empty());
    let t = build_trie(&masks);
    let mut words: Vec<u32> = Vec::new();
    let mut out: Vec<Vec<u32>> = Vec::new();
    t.search(0, &mut words, &mut out);
    assert!(out.is_empty());
}

#[test]
fn addword_of_zero_changes_nothing() {
    let w = bits_of(&[0, 3, 11, 19, 25]);
    let mut t = build_trie(&vec![w]);
    t.addword(0);
    assert!(t.contains(w));
    assert!(!t.contains(0));
    assert!(!t.contains(bits_of(&[0, 3, 11, 19, 24])));
}
