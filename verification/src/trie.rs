//! The letter-set trie and the recursive disjoint-word search.
//!
//! Each stored mask has exactly five set bits; a root-to-depth-five path
//! through the trie, taken in strictly increasing bit order, spells one mask.

use vstd::prelude::*;
use crate::bits::{
    pc, tz, low_mask, union_of, pairwise_disjoint, canonical, popcount, lemma_pc_or_single,
    lemma_pc_disjoint_or, lemma_pc_zero, lemma_tz_facts, lemma_tz_is, lemma_union_push,
    lemma_elem_in_union, lemma_bit_basics, lemma_two_bits, lemma_low_masks, lemma_split_bit,
};

verus! {

/// Vowel letters (a, e, i, o, u, y) under the fixed encoding: the mask of
/// bits 24, 25, 22, 21, 15 and 7.
pub const VOWELS: u32 = 56656000;

/// Candidate masks drawn from a node's presence bits and the unused letters.
proof fn bv_avail_init(avail: u32, sm: u32, used: u32)
    by (bit_vector)
    requires
        avail == sm & !used,
    ensures
        avail & !sm == 0,
        avail & used == 0,
{
}

/// Restricting the candidates to letters at or above `t` keeps them
/// candidates and clears everything below `t`.
proof fn bv_avail_restrict(avail: u32, av0: u32, sm: u32, used: u32, t: u32)
    by (bit_vector)
    requires
        avail == av0 & !(((1u32 << t) - 1) as u32),
        av0 & !sm == 0,
        av0 & used == 0,
        t < 32,
    ensures
        avail & !sm == 0,
        avail & used == 0,
        avail & low_mask(t) == 0,
{
}

/// A candidate bit is one of the 26 letters, present in the node and unused.
proof fn bv_candidate(avail: u32, sm: u32, used: u32, ta: u32)
    by (bit_vector)
    requires
        avail & (1u32 << ta) != 0,
        avail & !sm == 0,
        avail & used == 0,
        sm & !low_mask(26) == 0,
        ta < 32,
    ensures
        ta < 26,
        sm & (1u32 << ta) != 0,
        (1u32 << ta) & used == 0,
{
}

/// A candidate letter lies strictly above the last word's lowest letter,
/// which that word already consumed.
proof fn bv_above_last(last: u32, used: u32, avail: u32, t0: u32, i: u32)
    by (bit_vector)
    requires
        last & !used == 0,
        last & (1u32 << t0) != 0,
        avail & used == 0,
        avail & (1u32 << i) != 0,
        avail & low_mask(t0) == 0,
        t0 < 32,
        i < 26,
    ensures
        t0 < i,
{
}

/// Prefixing a suffix of letters above `i` with the letter `i` itself.
proof fn bv_join_bit(s: u32, i: u32, lo: u32, acc: u32)
    by (bit_vector)
    requires
        i < 26,
        lo <= i,
        s & low_mask((i + 1) as u32) == 0,
    ensures
        ((1u32 << i) | s) & (1u32 << i) != 0,
        ((1u32 << i) | s) & low_mask(i) == 0,
        ((1u32 << i) | s) & !(1u32 << i) == s,
        ((1u32 << i) | s) & low_mask(lo) == 0,
        (acc | ((1u32 << i) | s)) == ((acc | (1u32 << i)) | s),
{
}

/// Dropping the handled candidate shrinks the candidate set and keeps
/// every other candidate bit.
proof fn bv_clear_bit(av1: u32, i: u32, sm: u32, used: u32, lmt: u32, b: u32)
    by (bit_vector)
    requires
        av1 & (1u32 << i) != 0,
        i < 32,
        av1 & !sm == 0,
        av1 & used == 0,
    ensures
        (av1 & !(1u32 << i)) < av1,
        (av1 & !(1u32 << i)) & !sm == 0,
        (av1 & !(1u32 << i)) & used == 0,
        av1 & low_mask(lmt) == 0 ==> (av1 & !(1u32 << i)) & low_mask(lmt) == 0,
        b != i && av1 & (1u32 << b) != 0 ==> (av1 & !(1u32 << i)) & (1u32 << b) != 0,
{
}

/// A letter of an unused stored word, present in a node's mask, survives
/// the candidate restriction.
proof fn bv_bit_in_avail(sm: u32, used: u32, w: u32, t: u32, b: u32)
    by (bit_vector)
    requires
        sm & (1u32 << b) != 0,
        w & (1u32 << b) != 0,
        w & used == 0,
        b < 32,
        t < 32,
    ensures
        (sm & !used) & (1u32 << b) != 0,
        t <= b ==> ((sm & !used) & !(((1u32 << t) - 1) as u32)) & (1u32 << b) != 0,
{
}

/// Splitting the word under construction at its next letter `i`.
proof fn bv_word_decomp(w: u32, acc: u32, lo: u32, i: u32)
    by (bit_vector)
    requires
        lo <= i,
        i < 26,
        lo < 32,
        acc == w & low_mask(lo),
        (w & !low_mask(lo)) & (1u32 << i) != 0,
        (w & !low_mask(lo)) & low_mask(i) == 0,
    ensures
        w & low_mask((i + 1) as u32) == (acc | (1u32 << i)),
        w & !low_mask((i + 1) as u32) == (w & !low_mask(lo)) & !(1u32 << i),
{
}

/// Adding the next letter of a word keeps the accumulated mask's lowest
/// letter, stays among the 26 letters, and leaves the used letters alone.
proof fn bv_acc_step(acc: u32, i: u32, lo: u32, t: u32, used: u32, avail: u32)
    by (bit_vector)
    requires
        i < 26,
        lo <= i,
        t < 32,
        acc & (1u32 << t) != 0,
        acc & low_mask(t) == 0,
        acc & !low_mask(lo) == 0,
        acc & !low_mask(26) == 0,
        acc & used == 0,
        avail & (1u32 << i) != 0,
        avail & used == 0,
    ensures
        acc & (1u32 << i) == 0,
        (acc | (1u32 << i)) & (1u32 << t) != 0,
        (acc | (1u32 << i)) & low_mask(t) == 0,
        (acc | (1u32 << i)) != 0,
        (acc | (1u32 << i)) & !low_mask(26) == 0,
        (acc | (1u32 << i)) & !low_mask((i + 1) as u32) == 0,
        (acc | (1u32 << i)) & used == 0,
{
}

/// One trie node: a child-presence mask and up to 26 owned children,
/// indexed by letter bit.
pub struct Trie {
    pub mask: u32,
    pub children: Vec<Option<Box<Trie>>>,
}

impl Trie {
    /// Structural soundness down to `d` levels: 26 child slots, presence
    /// bits only among the 26 letters, and bit `i` set exactly when child
    /// `i` exists.
    pub open spec fn wf(self, d: nat) -> bool
        decreases d,
    {
        &&& self.children.len() == 26
        &&& self.mask & !low_mask(26) == 0
        &&& (forall|i: int|
            0 <= i < 26 ==> (self.mask & (1u32 << (i as u32)) != 0 <==> (
            #[trigger] self.children[i]).is_some()))
        &&& (d > 0 ==> forall|i: int|
            0 <= i < 26 && (#[trigger] self.children[i]).is_some()
                ==> self.children[i].unwrap().wf((d - 1) as nat))
    }

    /// The node holds suffix mask `m` along a path of exactly `d` strictly
    /// increasing letters below it.
    pub open spec fn node_contains(self, d: nat, m: u32) -> bool
        decreases d,
    {
        if d == 0 {
            m == 0
        } else {
            exists|i: u32|
                i < 26 && m & (1u32 << i) != 0 && m & low_mask(i) == 0 && self.mask & (1u32 << i)
                    != 0 && (#[trigger] self.children[i as int]).is_some() && self.children[
                    i as int].unwrap().node_contains((d - 1) as nat, m & !(1u32 << i))
        }
    }

    /// The trie stores mask `m`: a complete five-letter path spells it.
    pub open spec fn trie_contains(self, m: u32) -> bool {
        self.node_contains(5, m)
    }

    /// A mask on a stored path has bits only among the 26 letters, exactly
    /// `d` of them.
    pub proof fn lemma_contained_bits(self, d: nat, m: u32)
        requires
            self.node_contains(d, m),
        ensures
            m & !low_mask(26) == 0,
            pc(m) == d,
        decreases d,
    {
        if d == 0 {
            lemma_bit_basics(!low_mask(26), 0);
            assert(pc(0u32) == 0);
        } else {
            let i = choose|i: u32|
                i < 26 && m & (1u32 << i) != 0 && m & low_mask(i) == 0 && self.mask & (1u32 << i)
                    != 0 && (#[trigger] self.children[i as int]).is_some() && self.children[
                    i as int].unwrap().node_contains((d - 1) as nat, m & !(1u32 << i));
            let rest = m & !(1u32 << i);
            self.children[i as int].unwrap().lemma_contained_bits((d - 1) as nat, rest);
            lemma_split_bit(m, i);
            lemma_bit_basics(rest, i);
            lemma_pc_disjoint_or(rest, 1u32 << i);
            lemma_bit_basics(1u32 << i, i);
            lemma_pc_or_single(0u32, i);
            assert(pc(0u32) == 0);
        }
    }

    /// A fresh node: no letters, no children, an empty trie.
    pub fn new() -> (t: Trie)
        ensures
            forall|d: nat| t.wf(d),
            forall|d: nat, m: u32| t.node_contains(d, m) <==> (d == 0 && m == 0),
    {
        let mut children: Vec<Option<Box<Trie>>> = Vec::new();
        let mut k: usize = 0;
        while k < 26
            invariant
                0 <= k <= 26,
                children@.len() == k,
                forall|i: int| 0 <= i < k ==> (#[trigger] children@[i]).is_none(),
            decreases 26 - k,
        {
            children.push(None);
            k = k + 1;
        }
        let t = Trie { mask: 0, children };
        proof {
            assert forall|d: nat| t.wf(d) by {
                lemma_bit_basics(!low_mask(26), 0);
                assert forall|i: int|
                    0 <= i < 26 implies 0u32 & (1u32 << (i as u32)) == 0 && !(0u32 & #[trigger] (
                1u32 << (i as u32)) != 0) by {
                    let iu = i as u32;
                    lemma_bit_basics(1u32 << iu, iu);
                }
            }
            assert forall|d: nat, m: u32| #[trigger] t.node_contains(d, m) implies (d == 0 && m
                == 0) by {
                if d > 0 {
                    let i = choose|i: u32|
                        i < 26 && m & (1u32 << i) != 0 && m & low_mask(i) == 0 && t.mask & (1u32
                            << i) != 0 && (#[trigger] t.children[i as int]).is_some()
                            && t.children[i as int].unwrap().node_contains(
                            (d - 1) as nat,
                            m & !(1u32 << i),
                        );
                    assert(t.children[i as int].is_none());
                }
            }
        }
        t
    }

    /// Child of this node for letter bit `index`, created empty if absent;
    /// the presence bit is set either way.
    pub fn addchild(&mut self, index: u32) -> (ret: &mut Box<Trie>)
        requires
            index < 26,
            old(self).children.len() == 26,
            old(self).mask & (1u32 << index) != 0 ==> old(self).children[index as int].is_some(),
        ensures
            final(self).mask == old(self).mask | (1u32 << index),
            final(self).children@ == old(self).children@.update(index as int, Some(*final(ret))),
            old(self).mask & (1u32 << index) != 0 ==> *ret == old(self).children[
                index as int].unwrap(),
            old(self).mask & (1u32 << index) == 0 ==> forall|d: nat, m: u32|
                (*ret).node_contains(d, m) <==> (d == 0 && m == 0),
            forall|d: nat| old(self).wf(d + 1) ==> (*ret).wf(d),
    {
        if self.mask & (1u32 << index) > 0 {
            proof {
                let ghost mm = old(self).mask;
                lemma_bit_basics(mm, index);
                assert(old(self).children@.update(
                    index as int,
                    old(self).children@[index as int],
                ) =~= old(self).children@);
            }
            match &mut self.children[index as usize] {
                Some(b) => b,
                None => vstd::pervasive::unreached(),
            }
        } else {
            let fresh = Trie::new();
            self.mask = self.mask | (1u32 << index);
            self.children[index as usize] = Some(Box::new(fresh));
            proof {
                assert(old(self).children@.update(index as int, Some(Box::new(fresh))).update(
                    index as int,
                    old(self).children@.update(index as int, Some(Box::new(fresh)))[index as int],
                ) =~= old(self).children@.update(index as int, Some(Box::new(fresh))));
            }
            match &mut self.children[index as usize] {
                Some(b) => b,
                None => vstd::pervasive::unreached(),
            }
        }
    }

    /// Inserts a letter mask: walks its set bits in increasing order,
    /// creating the path.  Afterwards the trie holds, at depth `pc(word)`,
    /// exactly what it held before plus `word`.
    pub fn addword(&mut self, word: u32)
        requires
            word & !low_mask(26) == 0,
            forall|d: nat| old(self).wf(d),
        ensures
            forall|d: nat| final(self).wf(d),
            forall|m: u32| #[trigger] final(self).node_contains(pc(word), m) <==> (old(
                self,
            ).node_contains(pc(word), m) || m == word),
            word == 0 ==> *final(self) == *old(self),
            word != 0 ==> final(self).mask == old(self).mask | (1u32 << tz(word)),
            forall|j: int|
                0 <= j < 26 && (word == 0 || j != tz(word) as int) ==> final(self).children[j]
                    == old(self).children[j],
            forall|d: nat, m: u32|
                d > pc(word) ==> (final(self).node_contains(d, m) <==> old(
                self,
                ).node_contains(d, m)),
        decreases word,
    {
        if word == 0 {
            proof {
                assert(pc(0u32) == 0);
            }
            return ;
        }
        proof {
            lemma_tz_facts(word);
            lemma_bit_basics(word, tz(word));
        }
        let i = word.trailing_zeros();
        let rest = word & !(1u32 << i);
        let ghost a = *old(self);
        let ghost dw = pc(word);
        proof {
            lemma_split_bit(word, i);
            lemma_pc_disjoint_or(rest, 1u32 << i);
            lemma_bit_basics(1u32 << i, i);
            lemma_pc_or_single(0u32, i);
            assert(pc(0u32) == 0);
            assert(pc(word) == pc(rest) + 1);
            assert(a.wf(0));
            assert(a.wf(1));
        }
        let child = self.addchild(i);
        proof {
            assert forall|d: nat| (*child).wf(d) by {
                assert(a.wf(d + 1));
            }
        }
        child.addword(rest);
        proof {
            let f = *self;
            let ghost am = a.mask;
            let ghost c2 = f.children[i as int].unwrap();
            assert(f.mask == am | (1u32 << i));
            assert(f.children@ == a.children@.update(i as int, Some(c2)));
            assert(f.children[i as int].is_some());
            let ghost dr = pc(rest);
            assert(forall|m: u32| #[trigger] c2.node_contains(dr, m) <==> (a.mask & (1u32 << i)
                != 0 && a.children[i as int].unwrap().node_contains(dr, m)) || (a.mask & (1u32
                << i) == 0 && dr == 0 && m == 0u32) || m == rest);
            // membership both ways at depth pc(word)
            assert forall|m: u32| #[trigger] f.node_contains(dw, m) implies (a.node_contains(
                dw,
                m,
            ) || m == word) by {
                let j = choose|j: u32|
                    j < 26 && m & (1u32 << j) != 0 && m & low_mask(j) == 0 && f.mask & (1u32 << j)
                        != 0 && (#[trigger] f.children[j as int]).is_some() && f.children[
                        j as int].unwrap().node_contains((dw - 1) as nat, m & !(1u32 << j));
                if j != i {
                    assert(f.children[j as int] == a.children[j as int]);
                    lemma_two_bits(am, i, j);
                    assert(a.node_contains(dw, m));
                } else {
                    let mr = m & !(1u32 << i);
                    assert(c2.node_contains(dr, mr));
                    if mr == rest {
                        lemma_split_bit(m, i);
                        assert(m == word);
                    } else {
                        if a.mask & (1u32 << i) != 0 {
                            assert(a.children[i as int].unwrap().node_contains(dr, mr));
                            assert(a.node_contains(dw, m));
                        } else {
                            assert(dr == 0 && mr == 0);
                            lemma_pc_zero(rest);
                            lemma_split_bit(m, i);
                            assert(m == word);
                        }
                    }
                }
            }
            assert forall|m: u32| (a.node_contains(dw, m) || m == word) implies #[trigger]
                f.node_contains(dw, m) by {
                if m == word {
                    assert(c2.node_contains(dr, rest));
                    lemma_bit_basics(am, i);
                    assert(f.children[i as int].is_some());
                    assert(f.children[i as int].unwrap() == c2);
                    assert(word & !(1u32 << i) == rest);
                    assert(f.node_contains(dw, word));
                } else {
                    let j = choose|j: u32|
                        j < 26 && m & (1u32 << j) != 0 && m & low_mask(j) == 0 && a.mask & (1u32
                            << j) != 0 && (#[trigger] a.children[j as int]).is_some()
                            && a.children[j as int].unwrap().node_contains(
                            (dw - 1) as nat,
                            m & !(1u32 << j),
                        );
                    lemma_two_bits(am, i, j);
                    if j != i {
                        assert(f.children[j as int] == a.children[j as int]);
                        assert(f.node_contains(dw, m));
                    } else {
                        assert(c2.node_contains(dr, m & !(1u32 << i)));
                        assert(f.node_contains(dw, m));
                    }
                }
            }
            // depths beyond the inserted word's letter count are untouched
            assert forall|d: nat, m: u32| d > dw implies (f.node_contains(d, m)
                <==> a.node_contains(d, m)) by {
                lemma_pc_zero(rest);
                if f.node_contains(d, m) {
                    let j = choose|j: u32|
                        j < 26 && m & (1u32 << j) != 0 && m & low_mask(j) == 0 && f.mask & (1u32
                            << j) != 0 && (#[trigger] f.children[j as int]).is_some()
                            && f.children[j as int].unwrap().node_contains(
                            (d - 1) as nat,
                            m & !(1u32 << j),
                        );
                    if j != i {
                        lemma_two_bits(am, i, j);
                        assert(f.children[j as int] == a.children[j as int]);
                        assert(a.node_contains(d, m));
                    } else {
                        assert(c2.node_contains((d - 1) as nat, m & !(1u32 << i)));
                        if a.mask & (1u32 << i) != 0 {
                            assert(a.children[i as int].unwrap().node_contains(
                                (d - 1) as nat,
                                m & !(1u32 << i),
                            ));
                            assert(a.node_contains(d, m));
                        }
                    }
                }
                if a.node_contains(d, m) {
                    let j = choose|j: u32|
                        j < 26 && m & (1u32 << j) != 0 && m & low_mask(j) == 0 && a.mask & (1u32
                            << j) != 0 && (#[trigger] a.children[j as int]).is_some()
                            && a.children[j as int].unwrap().node_contains(
                            (d - 1) as nat,
                            m & !(1u32 << j),
                        );
                    lemma_two_bits(am, i, j);
                    if j != i {
                        assert(f.children[j as int] == a.children[j as int]);
                        assert(f.node_contains(d, m));
                    } else {
                        assert(c2.node_contains((d - 1) as nat, m & !(1u32 << i)));
                        assert(f.node_contains(d, m));
                    }
                }
            }
            // well-formedness at every depth
            assert forall|d: nat| f.wf(d) by {
                assert(a.wf(d));
                assert(a.wf(1));
                lemma_bit_basics(am, i);
                assert forall|p: int|
                    0 <= p < 26 implies (f.mask & (1u32 << (p as u32)) != 0 <==> (
                #[trigger] f.children[p]).is_some()) by {
                    if p != i as int {
                        let pu = p as u32;
                        assert(f.children[p] == a.children[p]);
                        lemma_two_bits(am, i, pu);
                    }
                }
                if d > 0 {
                    assert forall|p: int|
                        0 <= p < 26 && (#[trigger] f.children[p]).is_some() implies f.children[
                        p].unwrap().wf((d - 1) as nat) by {
                        if p == i as int {
                            assert(c2.wf((d - 1) as nat));
                        } else {
                            assert(f.children[p] == a.children[p]);
                        }
                    }
                }
            }
        }
    }

    /// Walks the path of `word`'s bits in increasing order, `d` levels deep.
    fn contains_rec(&self, d: u32, word: u32) -> (r: bool)
        requires
            self.wf(d as nat),
            word & !low_mask(26) == 0,
        ensures
            r == self.node_contains(d as nat, word),
        decreases d,
    {
        if d == 0 {
            word == 0
        } else if word == 0 {
            proof {
                if self.node_contains(d as nat, 0u32) {
                    let i = choose|i: u32|
                        i < 26 && 0u32 & (1u32 << i) != 0 && 0u32 & low_mask(i) == 0 && self.mask
                            & (1u32 << i) != 0 && (#[trigger] self.children[i as int]).is_some()
                            && self.children[i as int].unwrap().node_contains(
                            (d - 1) as nat,
                            0u32 & !(1u32 << i),
                        );
                    lemma_bit_basics(1u32 << i, i);
                }
            }
            false
        } else {
            proof {
                lemma_tz_facts(word);
                lemma_bit_basics(word, tz(word));
            }
            let i = word.trailing_zeros();
            let rest = word & !(1u32 << i);
            proof {
                lemma_split_bit(word, i);
                // any witness of the membership must be the lowest bit
                if self.node_contains(d as nat, word) {
                    let j = choose|j: u32|
                        j < 26 && word & (1u32 << j) != 0 && word & low_mask(j) == 0 && self.mask
                            & (1u32 << j) != 0 && (#[trigger] self.children[j as int]).is_some()
                            && self.children[j as int].unwrap().node_contains(
                            (d - 1) as nat,
                            word & !(1u32 << j),
                        );
                    lemma_tz_is(word, j);
                }
            }
            if self.mask & (1u32 << i) == 0 {
                false
            } else {
                match &self.children[i as usize] {
                    Some(b) => {
                        let r = b.contains_rec(d - 1, rest);
                        proof {
                            if r {
                                assert(self.node_contains(d as nat, word));
                            }
                        }
                        r
                    },
                    None => vstd::pervasive::unreached(),
                }
            }
        }
    }

    /// Does the trie store this letter mask?  Masks with bits outside the
    /// 26 letters are never stored.
    pub fn contains(&self, word: u32) -> (r: bool)
        requires
            forall|d: nat| self.wf(d),
        ensures
            r == self.trie_contains(word),
    {
        proof {
            assert(low_mask(26) == 0x3ffffffu32) by (bit_vector);
        }
        if word & 0x3ffffff != word {
            proof {
                assert(self.wf(5));
                if self.trie_contains(word) {
                    self.lemma_contained_bits(5, word);
                    lemma_bit_basics(word, 0);
                }
            }
            false
        } else {
            proof {
                assert(self.wf(5));
                lemma_bit_basics(word, 0);
                assert(word & low_mask(26) == word ==> word & !low_mask(26) == 0) by (bit_vector);
            }
            self.contains_rec(5, word)
        }
    }
}

/// A complete emitted combination: five masks stored in the trie, pairwise
/// disjoint, in canonical order of strictly increasing lowest letters.
pub open spec fn sound_combo(t: Trie, c: Seq<u32>) -> bool {
    &&& c.len() == 5
    &&& (forall|p: int| 0 <= p < c.len() ==> t.trie_contains(#[trigger] c[p]))
    &&& pairwise_disjoint(c)
    &&& canonical(c)
}

/// An in-progress search state: a partial combination of stored, pairwise
/// disjoint, canonically ordered masks, with `used` their letter union.
pub open spec fn partial_ok(t: Trie, c: Seq<u32>, used: u32) -> bool {
    &&& c.len() <= 5
    &&& (forall|p: int| 0 <= p < c.len() ==> t.trie_contains(#[trigger] c[p]))
    &&& pairwise_disjoint(c)
    &&& canonical(c)
    &&& used == union_of(c)
}

/// Every stored word holds at least one vowel: the assumption under which
/// the vowel prune loses nothing.
pub open spec fn all_vowelled(t: Trie) -> bool {
    forall|m: u32| #[trigger] t.trie_contains(m) ==> m & VOWELS != 0
}

/// The sink holds combination `c`.
pub open spec fn emitted(out: Seq<Vec<u32>>, c: Seq<u32>) -> bool {
    exists|k: int| 0 <= k < out.len() && (#[trigger] out[k])@ == c
}

/// A sound completion of the partial combination `c0` that leaves at most
/// one of the 26 letters uncovered: what the search owes to the sink.
pub open spec fn target_combo(t: Trie, c0: Seq<u32>, c: Seq<u32>) -> bool {
    &&& sound_combo(t, c)
    &&& c.take(c0.len() as int) == c0
    &&& pc(!union_of(c) & low_mask(26)) <= 1
}

/// The result sink only grows, and only by sound completions of the
/// combination the branch started from.
pub open spec fn emits_ok(t: Trie, c0: Seq<u32>, pre: Seq<Vec<u32>>, post: Seq<Vec<u32>>) -> bool {
    &&& post.len() >= pre.len()
    &&& (forall|k: int| 0 <= k < pre.len() ==> post[k] == #[trigger] pre[k])
    &&& (forall|k: int|
        pre.len() <= k < post.len() ==> sound_combo(t, (#[trigger] post[k])@) && post[k]@.take(
            c0.len() as int,
        ) == c0)
}

/// Growing the sink soundly twice in a row grows it soundly.
pub proof fn lemma_emits_trans(
    t: Trie,
    c0: Seq<u32>,
    a: Seq<Vec<u32>>,
    b: Seq<Vec<u32>>,
    c: Seq<Vec<u32>>,
)
    requires
        emits_ok(t, c0, a, b),
        emits_ok(t, c0, b, c),
    ensures
        emits_ok(t, c0, a, c),
{
    assert forall|k: int| 0 <= k < a.len() implies c[k] == #[trigger] a[k] by {
        assert(b[k] == a[k]);
    }
    assert forall|k: int|
        a.len() <= k < c.len() implies sound_combo(t, (#[trigger] c[k])@) && c[k]@.take(
        c0.len() as int,
    ) == c0 by {
        if k < b.len() {
            assert(c[k] == b[k]);
            assert(sound_combo(t, b[k]@) && b[k]@.take(c0.len() as int) == c0);
        }
    }
}

/// What extends the combination with one more word still extends the
/// combination.
proof fn lemma_emits_weaken(
    t: Trie,
    c0: Seq<u32>,
    x: u32,
    pre: Seq<Vec<u32>>,
    post: Seq<Vec<u32>>,
)
    requires
        emits_ok(t, c0.push(x), pre, post),
        c0.len() < 5,
    ensures
        emits_ok(t, c0, pre, post),
{
    assert forall|k: int|
        pre.len() <= k < post.len() implies sound_combo(t, (#[trigger] post[k])@) && post[k]@.take(
        c0.len() as int,
    ) == c0 by {
        let e = post[k]@;
        let n = c0.len() as int;
        assert(e.take(n + 1) == c0.push(x));
        assert(e.take(n) =~= c0) by {
            assert forall|j: int| 0 <= j < n implies e.take(n)[j] == c0[j] by {
                assert(e.take(n + 1)[j] == c0.push(x)[j]);
            }
        }
    }
}

/// Copies a combination for emission.
fn clone_masks(v: &Vec<u32>) -> (r: Vec<u32>)
    ensures
        r@ == v@,
{
    let mut r: Vec<u32> = Vec::new();
    let mut k: usize = 0;
    while k < v.len()
        invariant
            0 <= k <= v@.len(),
            r@ == v@.take(k as int),
        decreases v@.len() - k,
    {
        r.push(v[k]);
        proof {
            assert(v@.take(k as int + 1) =~= v@.take(k as int).push(v@[k as int]));
        }
        k = k + 1;
    }
    proof {
        assert(v@.take(v@.len() as int) =~= v@);
    }
    r
}

/// A completion fills every open slot with a word that consumes an unused
/// vowel of its own, so at least that many vowels are still unused.
proof fn lemma_vowel_budget(t: Trie, c0: Seq<u32>, used: u32, c: Seq<u32>)
    requires
        all_vowelled(t),
        partial_ok(t, c0, used),
        c0.len() < 5,
        target_combo(t, c0, c),
    ensures
        pc(!used & VOWELS) >= 5 - c0.len(),
{
    let len = c0.len() as int;
    let ws = c.subrange(len, 5);
    assert forall|p: int, q: int|
        0 <= p < q < ws.len() implies #[trigger] ws[p] & #[trigger] ws[q] == 0 by {
        assert(ws[p] == c[len + p] && ws[q] == c[len + q]);
    }
    assert forall|q: int| 0 <= q < ws.len() implies #[trigger] ws[q] & (!used & VOWELS) != 0 by {
        let w = c[len + q];
        assert(ws[q] == w);
        assert(t.trie_contains(w));
        assert(w & VOWELS != 0);
        crate::bits::lemma_disjoint_from_taken(c, len, len + q);
        assert(union_of(c.take(len)) == used);
        crate::bits::lemma_mask_facts(w, VOWELS, used);
        crate::bits::lemma_mask_facts(!used, VOWELS, 0);
    }
    crate::bits::lemma_disjoint_meet_count(ws, !used & VOWELS);
}

/// Appending a stored, unused word above the previous word's lowest letter
/// keeps the search state well formed.
proof fn lemma_push_partial(t: Trie, c0: Seq<u32>, used: u32, acc: u32)
    requires
        partial_ok(t, c0, used),
        c0.len() < 5,
        t.trie_contains(acc),
        acc != 0,
        acc & used == 0,
        c0.len() > 0 ==> tz(c0.last()) < tz(acc),
    ensures
        partial_ok(t, c0.push(acc), used | acc),
{
    let c1 = c0.push(acc);
    lemma_union_push(c0, acc);
    assert forall|p: int, q: int|
        0 <= p < q < c1.len() implies #[trigger] c1[p] & #[trigger] c1[q] == 0 by {
        if q == c1.len() - 1 {
            lemma_elem_in_union(c0, p);
            let w = c0[p];
            assert(w & !used == 0 && acc & used == 0 ==> w & acc == 0) by (bit_vector);
            assert(c1[q] == acc);
        } else {
            assert(c1[p] == c0[p] && c1[q] == c0[q]);
        }
    }
    assert forall|p: int| 0 < p < c1.len() implies tz(c1[p - 1]) < tz(#[trigger] c1[p]) by {
        if p < c1.len() - 1 {
            assert(c1[p] == c0[p] && c1[p - 1] == c0[p - 1]);
        } else {
            assert(c1[p] == acc);
            if p > 0 {
                assert(c1[p - 1] == c0[p - 1] && c0[p - 1] == c0.last());
            }
        }
    }
}

/// A completion's next letter above `acc` is still a live candidate of the
/// node the word is being assembled under.
proof fn lemma_extend_live(
    t: Trie,
    node: Trie,
    c0: Seq<u32>,
    used: u32,
    lo: u32,
    acc: u32,
    dleft: u32,
    avail: u32,
)
    requires
        partial_ok(t, c0, used),
        c0.len() < 5,
        1 <= dleft <= 4,
        lo <= 26,
        node.wf(dleft as nat),
        avail == (node.mask & !used) & !(((1u32 << lo) - 1) as u32),
    ensures
        forall|c: Seq<u32>|
            #[trigger] target_combo(t, c0, c) && c[c0.len() as int] & low_mask(lo) == acc
                && node.node_contains(dleft as nat, c[c0.len() as int] & !low_mask(lo)) ==> avail
                & (1u32 << tz(c[c0.len() as int] & !low_mask(lo))) != 0,
{
    let nm = node.mask;
    assert forall|c: Seq<u32>|
        #[trigger] target_combo(t, c0, c) && c[c0.len() as int] & low_mask(lo) == acc
            && node.node_contains(dleft as nat, c[c0.len() as int] & !low_mask(lo)) implies avail
        & (1u32 << tz(c[c0.len() as int] & !low_mask(lo))) != 0 by {
        let len = c0.len() as int;
        let w = c[len];
        let s = w & !low_mask(lo);
        node.lemma_contained_bits(dleft as nat, s);
        lemma_pc_zero(s);
        lemma_tz_facts(s);
        let b = tz(s);
        let j = choose|j: u32|
            j < 26 && s & (1u32 << j) != 0 && s & low_mask(j) == 0 && node.mask & (1u32 << j) != 0
                && (#[trigger] node.children[j as int]).is_some() && node.children[
                j as int].unwrap().node_contains((dleft - 1) as nat, s & !(1u32 << j));
        lemma_tz_is(s, j);
        assert(nm & (1u32 << b) != 0);
        crate::bits::lemma_mask_facts(low_mask(lo), w, 1u32 << b);
        assert(w & (1u32 << b) != 0);
        crate::bits::lemma_disjoint_from_taken(c, len, len);
        assert(union_of(c.take(len)) == used);
        assert(w & used == 0);
        assert(s & low_mask(lo) == 0);
        lemma_low_masks(s, b, lo);
        bv_bit_in_avail(nm, used, w, lo, b);
    }
}

/// Emitting a complete combination serves every target over it: the only
/// completion of a five-word combination is itself.
proof fn lemma_emit_complete(
    t: Trie,
    c0: Seq<u32>,
    pre: Seq<Vec<u32>>,
    post: Seq<Vec<u32>>,
    e: Vec<u32>,
)
    requires
        c0.len() == 5,
        sound_combo(t, c0),
        post == pre.push(e),
        e@ == c0,
    ensures
        emits_ok(t, c0, pre, post),
        forall|c: Seq<u32>| #[trigger] target_combo(t, c0, c) ==> emitted(post, c),
        post.len() == pre.len() + 1,
        post.last()@ == c0,
{
    assert(c0.take(5) =~= c0);
    assert forall|k: int| 0 <= k < pre.len() implies post[k] == #[trigger] pre[k] by {}
    assert(post[post.len() - 1] == e);
    assert forall|c: Seq<u32>| #[trigger] target_combo(t, c0, c) implies emitted(post, c) by {
        assert(c =~= c0) by {
            assert forall|j: int| 0 <= j < 5 implies c[j] == c0[j] by {
                assert(c.take(5)[j] == c0[j]);
            }
        }
        assert((post[post.len() - 1])@ == c);
    }
}

impl Trie {
    /// One step of the search: a combination of five words is emitted to the
    /// sink; a shorter one is abandoned when fewer unused vowels remain than
    /// open slots, and otherwise extended by one more word.
    ///
    /// Every emission is sound: five masks stored in this trie, pairwise
    /// disjoint, canonically ordered.
    #[verifier::rlimit(100)]
    pub fn search(&self, used: u32, words: &mut Vec<u32>, out: &mut Vec<Vec<u32>>)
        requires
            forall|d: nat| self.wf(d),
            partial_ok(*self, old(words)@, used),
        ensures
            final(words)@ == old(words)@,
            emits_ok(*self, old(words)@, old(out)@, final(out)@),
            old(words)@.len() == 5 ==> final(out)@.len() == old(out)@.len() + 1
                && final(out)@.last()@ == old(words)@,
            old(words)@.len() < 5 && pc(!used & VOWELS) < 5 - old(words)@.len() ==> final(out)@
                == old(out)@,
            all_vowelled(*self) ==> forall|c: Seq<u32>|
                #[trigger] target_combo(*self, old(words)@, c) ==> emitted(final(out)@, c),
        decreases 5 - old(words)@.len(), 6int,
    {
        let ghost c0 = old(words)@;
        if words.len() < 5 {
            let slots = 5 - words.len();
            let unused_vowels = popcount(!used & VOWELS);
            if (unused_vowels as usize) < slots {
                proof {
                    if all_vowelled(*self) {
                        assert forall|c: Seq<u32>| #[trigger] target_combo(*self, c0, c)
                            implies emitted(out@, c) by {
                            lemma_vowel_budget(*self, c0, used, c);
                            assert(false);
                        }
                    }
                }
                return ;
            }
            self.findword(used, words, out);
        } else {
            let combo = clone_masks(words);
            let ghost outpre = out@;
            out.push(combo);
            proof {
                lemma_emit_complete(*self, c0, outpre, out@, combo);
            }
        }
    }

    /// Scans candidate first letters, lowest first, at or above the last
    /// word's lowest letter; abandons the scan once two or more unused
    /// letters lie below the candidate (the budget prune); and otherwise
    /// descends to assemble a word from that letter.
    pub fn findword(&self, used: u32, words: &mut Vec<u32>, out: &mut Vec<Vec<u32>>)
        requires
            forall|d: nat| self.wf(d),
            partial_ok(*self, old(words)@, used),
            old(words)@.len() < 5,
        ensures
            final(words)@ == old(words)@,
            emits_ok(*self, old(words)@, old(out)@, final(out)@),
            all_vowelled(*self) ==> forall|c: Seq<u32>|
                #[trigger] target_combo(*self, old(words)@, c) ==> emitted(final(out)@, c),
        decreases 5 - old(words)@.len(), 5int,
    {
        let ghost sm = self.mask;
        proof {
            assert(self.wf(0));
            assert(self.wf(5));
        }
        let mut avail = self.mask & !used;
        proof {
            bv_avail_init(avail, sm, used);
        }
        let ghost c0 = old(words)@;
        let ghost lo0: u32 = if c0.len() > 0 {
            tz(c0.last())
        } else {
            0u32
        };
        if words.len() > 0 {
            let last = words[words.len() - 1];
            proof {
                assert(c0[c0.len() - 1] == last);
                assert(self.trie_contains(last));
                self.lemma_contained_bits(5, last);
                lemma_pc_zero(last);
                lemma_tz_facts(last);
            }
            let t = last.trailing_zeros();
            proof {
                lemma_bit_basics(avail, t);
            }
            let ghost av0 = avail;
            avail = avail & !((1u32 << t) - 1);
            proof {
                bv_avail_restrict(avail, av0, sm, used, t);
            }
        }
        proof {
            // every completion's next word is still a live candidate
            if all_vowelled(*self) {
                assert forall|c: Seq<u32>| #[trigger] target_combo(*self, c0, c) implies (avail & (
                1u32 << tz(c[c0.len() as int])) != 0 || emitted(out@, c)) by {
                    let len = c0.len() as int;
                    let w = c[len];
                    assert(self.trie_contains(w));
                    self.lemma_contained_bits(5, w);
                    lemma_pc_zero(w);
                    lemma_tz_facts(w);
                    let b = tz(w);
                    lemma_bit_basics(w, b);
                    let j = choose|j: u32|
                        j < 26 && w & (1u32 << j) != 0 && w & low_mask(j) == 0 && self.mask & (1u32
                            << j) != 0 && (#[trigger] self.children[j as int]).is_some()
                            && self.children[j as int].unwrap().node_contains(4, w & !(1u32 << j));
                    lemma_tz_is(w, j);
                    assert(sm & (1u32 << b) != 0);
                    crate::bits::lemma_disjoint_from_taken(c, len, len);
                    assert(union_of(c.take(len)) == used);
                    assert(w & used == 0);
                    if c0.len() > 0 {
                        assert(c[len - 1] == c.take(len)[len - 1] && c.take(len)[len - 1] == c0[len
                            - 1]);
                        assert(tz(c[len - 1]) < tz(c[len]));
                        bv_bit_in_avail(sm, used, w, lo0, b);
                    } else {
                        bv_bit_in_avail(sm, used, w, 0, b);
                        assert(avail == sm & !used);
                    }
                }
            }
        }
        while avail != 0
            invariant
                forall|d: nat| self.wf(d),
                partial_ok(*self, c0, used),
                c0.len() < 5,
                words@ == c0,
                c0 == old(words)@,
                emits_ok(*self, c0, old(out)@, out@),
                sm == self.mask,
                avail & !sm == 0,
                avail & used == 0,
                c0.len() > 0 ==> avail & low_mask(tz(c0.last())) == 0,
                all_vowelled(*self) ==> forall|c: Seq<u32>|
                    #[trigger] target_combo(*self, c0, c) ==> (avail & (1u32 << tz(
                        c[c0.len() as int],
                    )) != 0 || emitted(out@, c)),
            decreases avail,
        {
            let ghost av1 = avail;
            let ghost outpre0 = out@;
            proof {
                lemma_tz_facts(avail);
                assert(self.wf(0));
                bv_candidate(avail, sm, used, tz(avail));
            }
            let i = avail.trailing_zeros();
            proof {
                lemma_bit_basics(avail, i);
            }
            let below = ((1u32 << i) - 1) & !used;
            if popcount(below) >= 2 {
                proof {
                    // a completion missing at most one letter cannot leave
                    // two unused letters below its next word's lowest letter
                    if all_vowelled(*self) {
                        assert forall|c: Seq<u32>| #[trigger] target_combo(*self, c0, c)
                            implies emitted(out@, c) by {
                            if !emitted(out@, c) {
                                let len = c0.len() as int;
                                let w = c[len];
                                let b = tz(w);
                                assert(avail & (1u32 << b) != 0);
                                assert forall|q: int|
                                    0 <= q < c.len() implies #[trigger] c[q] != 0 && c[q]
                                    & !low_mask(26) == 0 by {
                                    assert(self.trie_contains(c[q]));
                                    self.lemma_contained_bits(5, c[q]);
                                    lemma_pc_zero(c[q]);
                                }
                                lemma_tz_facts(w);
                                lemma_low_masks(avail, b, i);
                                crate::laws::lemma_unused_low_bound(c, len, i);
                                assert(union_of(c.take(len)) == used);
                                assert(below == low_mask(i) & !used);
                                assert(false);
                            }
                        }
                    }
                }
                return ;
            }
            proof {
                assert(self.children[i as int].is_some());
                // the candidate letter lies strictly above the last word's
                // lowest letter, which is already used
                if c0.len() > 0 {
                    let last = c0.last();
                    lemma_elem_in_union(c0, c0.len() - 1);
                    assert(c0[c0.len() - 1] == last);
                    assert(self.trie_contains(last));
                    self.lemma_contained_bits(5, last);
                    lemma_pc_zero(last);
                    let t0 = tz(last);
                    lemma_tz_facts(last);
                    bv_above_last(last, used, avail, t0, i);
                }
                lemma_bit_basics(1u32 << i, i);
                lemma_tz_is(1u32 << i, i);
                assert(pc(0u32) == 0);
                lemma_pc_or_single(0u32, i);
                assert(pc(1u32 << i) == 1);
            }
            match &self.children[i as usize] {
                Some(b) => {
                    proof {
                        assert(self.wf(5));
                        assert((**b).wf(4)) by {
                            assert(self.children[i as int].unwrap().wf(4));
                        }
                        assert forall|s: u32|
                            #[trigger] (**b).node_contains(4, s) && s & low_mask((i + 1) as u32)
                                == 0 implies self.trie_contains((1u32 << i) | s) by {
                            let m = (1u32 << i) | s;
                            bv_join_bit(s, i, 0, 0);
                            assert(self.children[i as int].is_some());
                            assert(self.children[i as int].unwrap().node_contains(4, s));
                            assert(self.node_contains(5, m));
                        }
                    }
                    let ghost outpre = out@;
                    self.extend(b, 4, i + 1, 1u32 << i, used, words, out);
                    proof {
                        lemma_emits_trans(*self, c0, old(out)@, outpre, out@);
                    }
                },
                None => vstd::pervasive::unreached(),
            }
            avail = avail & !(1u32 << i);
            proof {
                if c0.len() > 0 {
                    bv_clear_bit(av1, i, sm, used, tz(c0.last()), 0);
                } else {
                    bv_clear_bit(av1, i, sm, used, 0, 0);
                }
                if all_vowelled(*self) {
                    assert forall|c: Seq<u32>| #[trigger] target_combo(*self, c0, c) implies (avail
                        & (1u32 << tz(c[c0.len() as int])) != 0 || emitted(out@, c)) by {
                        let len = c0.len() as int;
                        let w = c[len];
                        let b = tz(w);
                        if emitted(outpre0, c) {
                            let k = choose|k: int|
                                0 <= k < outpre0.len() && (#[trigger] outpre0[k])@ == c;
                            assert(out@[k] == outpre0[k]);
                        } else {
                            assert(av1 & (1u32 << b) != 0);
                            if b == i {
                                // the branch just explored covers this completion
                                assert(self.trie_contains(w));
                                self.lemma_contained_bits(5, w);
                                lemma_pc_zero(w);
                                lemma_tz_facts(w);
                                lemma_bit_basics(w, b);
                                let j = choose|j: u32|
                                    j < 26 && w & (1u32 << j) != 0 && w & low_mask(j) == 0
                                        && self.mask & (1u32 << j) != 0 && (#[trigger] self.children[
                                    j as int]).is_some() && self.children[
                                    j as int].unwrap().node_contains(4, w & !(1u32 << j));
                                lemma_tz_is(w, j);
                                assert(w & low_mask(0) == 0 && w & !low_mask(0) == w);
                                bv_word_decomp(w, 0, 0, i);
                                lemma_bit_basics(1u32 << i, i);
                                assert(w & low_mask((i + 1) as u32) == 1u32 << i);
                                assert(self.children[i as int].unwrap().node_contains(
                                    4,
                                    w & !low_mask((i + 1) as u32),
                                ));
                                assert(emitted(out@, c));
                            } else {
                                bv_clear_bit(av1, i, sm, used, 0, b);
                            }
                        }
                    }
                }
            }
        }
        proof {
            if all_vowelled(*self) {
                assert forall|c: Seq<u32>| #[trigger] target_combo(*self, c0, c) implies emitted(
                    out@,
                    c,
                ) by {
                    if !emitted(out@, c) {
                        crate::bits::lemma_mask_facts(1u32 << tz(c[c0.len() as int]), 0, 0);
                    }
                }
            }
        }
    }

    /// Assembles the remaining `dleft` letters of a candidate word, each
    /// strictly above the previous one (`lo` is the next admissible letter);
    /// a completed word is pushed, searched under, and popped again.
    #[verifier::rlimit(100)]
    fn extend(
        &self,
        node: &Trie,
        dleft: u32,
        lo: u32,
        acc: u32,
        used: u32,
        words: &mut Vec<u32>,
        out: &mut Vec<Vec<u32>>,
    )
        requires
            forall|d: nat| self.wf(d),
            node.wf(dleft as nat),
            partial_ok(*self, old(words)@, used),
            old(words)@.len() < 5,
            dleft <= 4,
            lo <= 26,
            pc(acc) + dleft == 5,
            acc != 0,
            acc & used == 0,
            acc & !low_mask(26) == 0,
            acc & !low_mask(lo) == 0,
            old(words)@.len() > 0 ==> tz(old(words)@.last()) < tz(acc),
            forall|s: u32|
                #[trigger] node.node_contains(dleft as nat, s) && s & low_mask(lo) == 0
                    ==> self.trie_contains(acc | s),
        ensures
            final(words)@ == old(words)@,
            emits_ok(*self, old(words)@, old(out)@, final(out)@),
            all_vowelled(*self) ==> forall|c: Seq<u32>|
                #[trigger] target_combo(*self, old(words)@, c) && c[old(words)@.len() as int]
                    & low_mask(lo) == acc && node.node_contains(
                    dleft as nat,
                    c[old(words)@.len() as int] & !low_mask(lo),
                ) ==> emitted(final(out)@, c),
        decreases 5 - old(words)@.len(), dleft,
    {
        let ghost c0 = old(words)@;
        if dleft == 0 {
            proof {
                assert(node.node_contains(0, 0u32));
                lemma_bit_basics(low_mask(lo), 0);
                lemma_bit_basics(acc, 0);
                assert(self.trie_contains(acc));
                lemma_push_partial(*self, c0, used, acc);
            }
            let newused = used | acc;
            words.push(acc);
            let ghost outpre = out@;
            self.search(newused, words, out);
            words.pop();
            proof {
                assert(words@ =~= c0) by {
                    assert(words@ == c0.push(acc).drop_last());
                    assert(c0.push(acc).drop_last() =~= c0);
                }
                lemma_emits_weaken(*self, c0, acc, outpre, out@);
                if all_vowelled(*self) {
                    assert forall|c: Seq<u32>|
                        #[trigger] target_combo(*self, c0, c) && c[c0.len() as int] & low_mask(lo)
                            == acc && node.node_contains(
                            0,
                            c[c0.len() as int] & !low_mask(lo),
                        ) implies emitted(out@, c) by {
                        let len = c0.len() as int;
                        let w = c[len];
                        assert(w & !low_mask(lo) == 0);
                        crate::bits::lemma_mask_facts(low_mask(lo), w, 0);
                        lemma_bit_basics(w & low_mask(lo), 0);
                        assert(w == acc);
                        assert(c.take(len + 1) =~= c0.push(acc)) by {
                            assert forall|j: int|
                                0 <= j <= len implies c.take(len + 1)[j] == c0.push(acc)[j] by {
                                if j < len {
                                    assert(c.take(len)[j] == c0[j]);
                                }
                            }
                        }
                        assert(target_combo(*self, c0.push(acc), c));
                    }
                }
            }
        } else {
            let ghost nm = node.mask;
            proof {
                assert(node.wf(dleft as nat));
            }
            let mut avail = node.mask & !used;
            proof {
                lemma_bit_basics(avail, lo);
                bv_avail_init(avail, nm, used);
            }
            let ghost av0 = avail;
            avail = avail & !((1u32 << lo) - 1);
            proof {
                bv_avail_restrict(avail, av0, nm, used, lo);
                // every completion whose word continues from `acc` keeps its
                // next letter among the candidates
                assert(avail == (nm & !used) & !(((1u32 << lo) - 1) as u32));
                lemma_extend_live(*self, *node, c0, used, lo, acc, dleft, avail);
            }
            while avail != 0
                invariant
                    forall|d: nat| self.wf(d),
                    node.wf(dleft as nat),
                    partial_ok(*self, c0, used),
                    c0.len() < 5,
                    c0 == old(words)@,
                    words@ == c0,
                    emits_ok(*self, c0, old(out)@, out@),
                    all_vowelled(*self) ==> forall|c: Seq<u32>|
                        #[trigger] target_combo(*self, c0, c) && c[c0.len() as int] & low_mask(lo)
                            == acc && node.node_contains(
                            dleft as nat,
                            c[c0.len() as int] & !low_mask(lo),
                        ) ==> (avail & (1u32 << tz(c[c0.len() as int] & !low_mask(lo))) != 0
                        || emitted(out@, c)),
                    1 <= dleft <= 4,
                    lo <= 26,
                    pc(acc) + dleft == 5,
                    acc != 0,
                    acc & used == 0,
                    acc & !low_mask(26) == 0,
                    acc & !low_mask(lo) == 0,
                    c0.len() > 0 ==> tz(c0.last()) < tz(acc),
                    forall|s: u32|
                        #[trigger] node.node_contains(dleft as nat, s) && s & low_mask(lo) == 0
                            ==> self.trie_contains(acc | s),
                    nm == node.mask,
                    avail & !nm == 0,
                    avail & used == 0,
                    avail & low_mask(lo) == 0,
                decreases avail,
            {
                let ghost av1 = avail;
                let ghost outpre0 = out@;
                proof {
                    lemma_tz_facts(avail);
                    bv_candidate(avail, nm, used, tz(avail));
                    lemma_low_masks(avail, tz(avail), lo);
                }
                let i = avail.trailing_zeros();
                proof {
                    assert(node.children[i as int].is_some());
                    // the accumulated letters all lie below `i`, so the word's
                    // lowest letter is unchanged and the count grows by one
                    lemma_tz_facts(acc);
                    let t = tz(acc);
                    bv_acc_step(acc, i, lo, t, used, avail);
                    lemma_tz_is(acc | (1u32 << i), t);
                    lemma_pc_or_single(acc, i);
                }
                match &node.children[i as usize] {
                    Some(b) => {
                        proof {
                            assert((**b).wf((dleft - 1) as nat)) by {
                                assert(node.children[i as int].unwrap().wf((dleft - 1) as nat));
                            }
                            let acc2 = acc | (1u32 << i);
                            assert forall|s: u32|
                                #[trigger] (**b).node_contains((dleft - 1) as nat, s) && s
                                    & low_mask((i + 1) as u32) == 0 implies self.trie_contains(
                                acc2 | s,
                            ) by {
                                let m = (1u32 << i) | s;
                                bv_join_bit(s, i, lo, acc);
                                assert(node.children[i as int].is_some());
                                assert(node.children[i as int].unwrap().node_contains(
                                    (dleft - 1) as nat,
                                    s,
                                ));
                                assert(node.node_contains(dleft as nat, m));
                                assert(self.trie_contains(acc | m));
                            }
                        }
                        let ghost outpre = out@;
                        self.extend(b, dleft - 1, i + 1, acc | (1u32 << i), used, words, out);
                        proof {
                            lemma_emits_trans(*self, c0, old(out)@, outpre, out@);
                        }
                    },
                    None => vstd::pervasive::unreached(),
                }
                avail = avail & !(1u32 << i);
                proof {
                    bv_clear_bit(av1, i, nm, used, lo, 0);
                    if all_vowelled(*self) {
                        assert forall|c: Seq<u32>|
                            #[trigger] target_combo(*self, c0, c) && c[c0.len() as int] & low_mask(
                                lo,
                            ) == acc && node.node_contains(
                                dleft as nat,
                                c[c0.len() as int] & !low_mask(lo),
                            ) implies (avail & (1u32 << tz(c[c0.len() as int] & !low_mask(lo)))
                            != 0 || emitted(out@, c)) by {
                            let len = c0.len() as int;
                            let w = c[len];
                            let s = w & !low_mask(lo);
                            let b = tz(s);
                            if emitted(outpre0, c) {
                                let k = choose|k: int|
                                    0 <= k < outpre0.len() && (#[trigger] outpre0[k])@ == c;
                                assert(out@[k] == outpre0[k]);
                            } else {
                                assert(av1 & (1u32 << b) != 0);
                                if b == i {
                                    node.lemma_contained_bits(dleft as nat, s);
                                    lemma_pc_zero(s);
                                    lemma_tz_facts(s);
                                    let j = choose|j: u32|
                                        j < 26 && s & (1u32 << j) != 0 && s & low_mask(j) == 0
                                            && node.mask & (1u32 << j) != 0 && (
                                        #[trigger] node.children[j as int]).is_some()
                                            && node.children[j as int].unwrap().node_contains(
                                            (dleft - 1) as nat,
                                            s & !(1u32 << j),
                                        );
                                    lemma_tz_is(s, j);
                                    bv_word_decomp(w, acc, lo, i);
                                    assert(w & low_mask((i + 1) as u32) == (acc | (1u32 << i)));
                                    assert(node.children[i as int].unwrap().node_contains(
                                        (dleft - 1) as nat,
                                        w & !low_mask((i + 1) as u32),
                                    ));
                                    assert(emitted(out@, c));
                                } else {
                                    bv_clear_bit(av1, i, nm, used, lo, b);
                                }
                            }
                        }
                    }
                }
            }
            proof {
                if all_vowelled(*self) {
                    assert forall|c: Seq<u32>|
                        #[trigger] target_combo(*self, c0, c) && c[c0.len() as int] & low_mask(lo)
                            == acc && node.node_contains(
                            dleft as nat,
                            c[c0.len() as int] & !low_mask(lo),
                        ) implies emitted(out@, c) by {
                        if !emitted(out@, c) {
                            crate::bits::lemma_mask_facts(
                                1u32 << tz(c[c0.len() as int] & !low_mask(lo)),
                                0,
                                0,
                            );
                        }
                    }
                }
            }
        }
    }
}

/// Builds the trie of a deduplicated set of five-letter masks: afterwards
/// the trie stores exactly the masks of the list.
pub fn build_trie(masks: &Vec<u32>) -> (t: Trie)
    requires
        forall|k: int|
            0 <= k < masks@.len() ==> (#[trigger] masks@[k]) & !low_mask(26) == 0 && pc(masks@[k])
                == 5,
    ensures
        forall|d: nat| t.wf(d),
        forall|m: u32| #[trigger] t.trie_contains(m) <==> masks@.contains(m),
{
    let mut t = Trie::new();
    proof {
        assert forall|m: u32| !(#[trigger] t.trie_contains(m)) by {
            if t.node_contains(5, m) {
            }
        }
    }
    let mut k: usize = 0;
    while k < masks.len()
        invariant
            0 <= k <= masks@.len(),
            forall|k2: int|
                0 <= k2 < masks@.len() ==> (#[trigger] masks@[k2]) & !low_mask(26) == 0 && pc(
                masks@[k2]) == 5,
            forall|d: nat| t.wf(d),
            forall|m: u32| #[trigger] t.trie_contains(m) <==> masks@.take(k as int).contains(m),
        decreases masks@.len() - k,
    {
        let x = masks[k];
        let ghost pre = t;
        t.addword(x);
        proof {
            assert(pc(x) == 5);
            assert forall|m: u32| #[trigger] t.trie_contains(m) implies masks@.take(
                k as int + 1,
            ).contains(m) by {
                assert(t.node_contains(pc(x), m));
                if pre.node_contains(pc(x), m) {
                    assert(pre.trie_contains(m));
                    let j = choose|j: int|
                        0 <= j < k && #[trigger] masks@.take(k as int)[j] == m;
                    assert(masks@.take(k as int + 1)[j] == m);
                } else {
                    assert(m == x);
                    assert(masks@.take(k as int + 1)[k as int] == m);
                }
            }
            assert forall|m: u32| masks@.take(k as int + 1).contains(m) implies #[trigger]
                t.trie_contains(m) by {
                let j = choose|j: int|
                    0 <= j < k + 1 && #[trigger] masks@.take(k as int + 1)[j] == m;
                if j < k {
                    assert(masks@.take(k as int)[j] == m);
                    assert(pre.trie_contains(m));
                    assert(pre.node_contains(pc(x), m));
                    assert(t.node_contains(pc(x), m));
                } else {
                    assert(m == x);
                    assert(t.node_contains(pc(x), m));
                }
            }
        }
        k = k + 1;
    }
    proof {
        assert(masks@.take(masks@.len() as int) =~= masks@);
    }
    t
}

} // verus!
