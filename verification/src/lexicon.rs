//! The lexicon: each letter mask maps to the "/"-joined list of surface
//! words sharing it, so anagrams collapse onto one search node but all stay
//! reportable.

use vstd::prelude::*;
use vstd::string::StringExecFns;
use std::collections::HashMap;

verus! {

broadcast use vstd::std_specs::hash::group_hash_axioms;

/// Mask-to-words lookup, built once before the search and read-only after.
pub struct Lexicon {
    map: HashMap<u32, String>,
}

impl Lexicon {
    /// The lexicon as a map from letter masks to rendered word lists.
    pub closed spec fn view(self) -> Map<u32, Seq<char>> {
        self.map@.map_values(|s: String| s@)
    }

    /// An empty lexicon.
    pub fn new() -> (l: Lexicon)
        ensures
            l@ == Map::<u32, Seq<char>>::empty(),
    {
        let l = Lexicon { map: HashMap::new() };
        proof {
            assert(l@ =~= Map::<u32, Seq<char>>::empty());
        }
        l
    }

    /// Records one surface word under its mask; a mask already present has
    /// the word appended after a "/" separator.
    pub fn add(&mut self, mask: u32, word: &str)
        ensures
            final(self)@ == old(self)@.insert(
                mask,
                if old(self)@.contains_key(mask) {
                    old(self)@[mask] + seq!['/'] + word@
                } else {
                    word@
                },
            ),
    {
        let prev: Option<String> = match self.map.get(&mask) {
            Some(cur) => Some(cur.clone()),
            None => None,
        };
        match prev {
            Some(cur) => {
                let mut joined = cur;
                joined.append("/");
                joined.append(word);
                proof {
                    reveal_strlit("/");
                    assert("/"@ =~= seq!['/']);
                }
                self.map.insert(mask, joined);
            },
            None => {
                self.map.insert(mask, word.to_owned());
            },
        }
        proof {
            assert(final(self)@ =~= old(self)@.insert(
                mask,
                if old(self)@.contains_key(mask) {
                    old(self)@[mask] + seq!['/'] + word@
                } else {
                    word@
                },
            ));
        }
    }

    /// The rendered word list of a mask, if any word had that mask.
    pub fn get(&self, mask: u32) -> (r: Option<&String>)
        ensures
            match r {
                Some(s) => self@.contains_key(mask) && s@ == self@[mask],
                None => !self@.contains_key(mask),
            },
    {
        self.map.get(&mask)
    }
}

/// Renders a finished combination through the lexicon: one entry per word
/// mask, in combination order.  A mask without a lexicon entry cannot come
/// from an inserted word; the caller treats that as fatal.
pub fn decodewords(words: &Vec<u32>, lexicon: &Lexicon) -> (r: Option<Vec<String>>)
    ensures
        match r {
            Some(v) => {
                &&& v@.len() == words@.len()
                &&& forall|k: int|
                    0 <= k < words@.len() ==> lexicon@.contains_key(#[trigger] words@[k]) && v@[k]@
                        == lexicon@[words@[k]]
            },
            None => exists|k: int|
                0 <= k < words@.len() && !lexicon@.contains_key(#[trigger] words@[k]),
        },
{
    let mut out: Vec<String> = Vec::new();
    let mut k: usize = 0;
    while k < words.len()
        invariant
            0 <= k <= words@.len(),
            out@.len() == k,
            forall|j: int|
                0 <= j < k ==> lexicon@.contains_key(#[trigger] words@[j]) && out@[j]@
                    == lexicon@[words@[j]],
        decreases words@.len() - k,
    {
        match lexicon.get(words[k]) {
            Some(s) => {
                out.push(s.clone());
            },
            None => {
                return None;
            },
        }
        k = k + 1;
    }
    Some(out)
}

} // verus!
