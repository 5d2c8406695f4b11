//! Search for sets of five five-letter words whose letters are pairwise
//! disjoint, covering 25 of the 26 alphabet letters.
//!
//! Words are encoded as 26-bit letter masks, deduplicated, and stored in a
//! trie ordered by increasing bit index; a recursive depth-five search with
//! budget and vowel pruning enumerates the disjoint combinations.

pub mod bits;
pub mod words;
pub mod trie;
pub mod lexicon;
pub mod laws;
