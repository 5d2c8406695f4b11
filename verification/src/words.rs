//! The letter encoder and the mask-set preparation: words become 26-bit
//! letter masks, words without exactly five distinct letters are discarded,
//! and the mask set is deduplicated into strictly increasing order.

use vstd::prelude::*;
use crate::bits::{pc, low_mask, lemma_pc_or_single, lemma_pc_zero};

verus! {

broadcast use vstd::set::group_set_axioms, vstd::seq_lib::seq_to_set_is_finite;

/// Bit index the fixed encoding table assigns to each lowercase letter;
/// rare letters sit at the low end so the budget prune cuts early.
pub open spec fn letter_shift(c: char) -> u32 {
    match c {
        'a' => 24,
        'b' => 9,
        'c' => 16,
        'd' => 14,
        'e' => 25,
        'f' => 8,
        'g' => 10,
        'h' => 11,
        'i' => 22,
        'j' => 1,
        'k' => 5,
        'l' => 17,
        'm' => 12,
        'n' => 19,
        'o' => 21,
        'p' => 13,
        'q' => 0,
        'r' => 23,
        's' => 18,
        't' => 20,
        'u' => 15,
        'v' => 4,
        'w' => 6,
        'x' => 3,
        'y' => 7,
        'z' => 2,
        _ => 0,
    }
}

/// The letter whose encoding is bit `k`: the inverse of `letter_shift`.
pub open spec fn shift_letter(k: u32) -> char {
    match k {
        24u32 => 'a',
        9u32 => 'b',
        16u32 => 'c',
        14u32 => 'd',
        25u32 => 'e',
        8u32 => 'f',
        10u32 => 'g',
        11u32 => 'h',
        22u32 => 'i',
        1u32 => 'j',
        5u32 => 'k',
        17u32 => 'l',
        12u32 => 'm',
        19u32 => 'n',
        21u32 => 'o',
        13u32 => 'p',
        0u32 => 'q',
        23u32 => 'r',
        18u32 => 's',
        20u32 => 't',
        15u32 => 'u',
        4u32 => 'v',
        6u32 => 'w',
        3u32 => 'x',
        7u32 => 'y',
        2u32 => 'z',
        _ => ' ',
    }
}

/// The single encoding bit of a lowercase letter.
pub open spec fn spec_letter_bit(c: char) -> u32 {
    1u32 << letter_shift(c)
}

pub open spec fn is_lowercase(c: char) -> bool {
    97 <= c as u32 <= 122
}

pub open spec fn all_lowercase(s: Seq<char>) -> bool {
    forall|i: int| 0 <= i < s.len() ==> is_lowercase(#[trigger] s[i])
}

/// Letter mask of a word: the union of its letters' encoding bits.
pub open spec fn spec_encode(s: Seq<char>) -> u32
    decreases s.len(),
{
    if s.len() == 0 {
        0u32
    } else {
        spec_encode(s.drop_last()) | spec_letter_bit(s.last())
    }
}

/// `letter_shift` maps the 26 lowercase letters one-to-one onto bits 0..26.
pub proof fn lemma_letter_shift(c: char)
    requires
        is_lowercase(c),
    ensures
        letter_shift(c) < 26,
        shift_letter(letter_shift(c)) == c,
{
}

/// Distinct lowercase letters get distinct encoding bits.
pub proof fn lemma_letter_bit_injective(c1: char, c2: char)
    requires
        is_lowercase(c1),
        is_lowercase(c2),
        spec_letter_bit(c1) == spec_letter_bit(c2),
    ensures
        c1 == c2,
{
    lemma_letter_shift(c1);
    lemma_letter_shift(c2);
    let k1 = letter_shift(c1);
    let k2 = letter_shift(c2);
    assert(k1 < 26 && k2 < 26 && 1u32 << k1 == 1u32 << k2 ==> k1 == k2) by (bit_vector);
}

/// A letter's bit is set in a word's mask exactly when the word holds the letter.
pub proof fn lemma_encode_bit(s: Seq<char>, c: char)
    requires
        all_lowercase(s),
        is_lowercase(c),
    ensures
        spec_encode(s) & spec_letter_bit(c) != 0 <==> s.contains(c),
    decreases s.len(),
{
    let b = spec_letter_bit(c);
    if s.len() == 0 {
        assert(0u32 & b == 0) by (bit_vector);
    } else {
        let t = s.drop_last();
        let e = spec_encode(t);
        let bl = spec_letter_bit(s.last());
        lemma_encode_bit(t, c);
        assert((e | bl) & b != 0 <==> (e & b != 0 || bl & b != 0)) by (bit_vector);
        lemma_letter_shift(s.last());
        lemma_letter_shift(c);
        let k1 = letter_shift(s.last());
        let k2 = letter_shift(c);
        assert(k1 < 26 && k2 < 26 ==> ((1u32 << k1) & (1u32 << k2) != 0 <==> k1 == k2))
            by (bit_vector);
        if bl & b != 0 {
            lemma_letter_bit_injective(s.last(), c);
            assert(s.contains(s.last())) by {
                assert(s[s.len() - 1] == s.last());
            }
        }
        assert(s.contains(c) <==> (t.contains(c) || s.last() == c)) by {
            if s.contains(c) {
                let i = choose|i: int| 0 <= i < s.len() && s[i] == c;
                if i < s.len() - 1 {
                    assert(t[i] == c);
                }
            }
            if t.contains(c) {
                let i = choose|i: int| 0 <= i < t.len() && t[i] == c;
                assert(s[i] == c);
            }
        }
    }
}

/// The mask of a lowercase word has one set bit for each distinct letter.
pub proof fn lemma_encode_counts_distinct(s: Seq<char>)
    requires
        all_lowercase(s),
    ensures
        pc(spec_encode(s)) == s.to_set().len(),
    decreases s.len(),
{
    if s.len() == 0 {
        assert(pc(0u32) == 0);
        assert(s.to_set() =~= Set::<char>::empty());
    } else {
        let t = s.drop_last();
        let l = s.last();
        let e = spec_encode(t);
        let b = spec_letter_bit(l);
        lemma_encode_counts_distinct(t);
        lemma_encode_bit(t, l);
        lemma_letter_shift(l);
        let k = letter_shift(l);
        assert(s.to_set() =~= t.to_set().insert(l)) by {
            assert forall|x: char| s.to_set().contains(x) implies t.to_set().insert(l).contains(
                x,
            ) by {
                let i = choose|i: int| 0 <= i < s.len() && s[i] == x;
                if i < s.len() - 1 {
                    assert(t[i] == x);
                }
            }
            assert forall|x: char| t.to_set().insert(l).contains(x) implies s.to_set().contains(
                x,
            ) by {
                if t.to_set().contains(x) {
                    let i = choose|i: int| 0 <= i < t.len() && t[i] == x;
                    assert(s[i] == x);
                } else {
                    assert(s[s.len() - 1] == l);
                }
            }
        }
        if t.contains(l) {
            assert(e & b != 0);
            assert(k < 26 && e & (1u32 << k) != 0 ==> (e | (1u32 << k)) == e) by (bit_vector);
        } else {
            assert(e & b == 0);
            lemma_pc_or_single(e, k);
        }
    }
}

/// Encoding bit of one lowercase letter, by the fixed table.
fn letter_bit(c: char) -> (r: u32)
    requires
        is_lowercase(c),
    ensures
        r == spec_letter_bit(c),
{
    match c {
        'a' => 1u32 << 24,
        'b' => 1u32 << 9,
        'c' => 1u32 << 16,
        'd' => 1u32 << 14,
        'e' => 1u32 << 25,
        'f' => 1u32 << 8,
        'g' => 1u32 << 10,
        'h' => 1u32 << 11,
        'i' => 1u32 << 22,
        'j' => 1u32 << 1,
        'k' => 1u32 << 5,
        'l' => 1u32 << 17,
        'm' => 1u32 << 12,
        'n' => 1u32 << 19,
        'o' => 1u32 << 21,
        'p' => 1u32 << 13,
        'q' => 1u32 << 0,
        'r' => 1u32 << 23,
        's' => 1u32 << 18,
        't' => 1u32 << 20,
        'u' => 1u32 << 15,
        'v' => 1u32 << 4,
        'w' => 1u32 << 6,
        'x' => 1u32 << 3,
        'y' => 1u32 << 7,
        'z' => 1u32 << 2,
        _ => 0,
    }
}

/// Encodes a word as its letter mask; a word with a character outside
/// `a..=z` is rejected.
pub fn encodewords(word: &str) -> (r: Option<u32>)
    ensures
        match r {
            Some(m) => all_lowercase(word@) && m == spec_encode(word@),
            None => !all_lowercase(word@),
        },
{
    let n = word.unicode_len();
    let mut mask: u32 = 0;
    let mut i: usize = 0;
    while i < n
        invariant
            0 <= i <= n,
            n == word@.len(),
            all_lowercase(word@.take(i as int)),
            mask == spec_encode(word@.take(i as int)),
        decreases n - i,
    {
        let c = word.get_char(i);
        let u = c as u32;
        if u < 97 || u > 122 {
            proof {
                assert(word@.take(i as int + 1)[i as int] == c);
            }
            return None;
        }
        proof {
            assert(word@.take(i as int + 1).drop_last() =~= word@.take(i as int));
            assert(word@.take(i as int + 1).last() == c);
        }
        mask = mask | letter_bit(c);
        i = i + 1;
    }
    proof {
        assert(word@.take(n as int) =~= word@);
    }
    Some(mask)
}

/// A lowercase word's mask uses only the 26 letter bits.
pub proof fn lemma_encode_in_range(s: Seq<char>)
    requires
        all_lowercase(s),
    ensures
        spec_encode(s) & !low_mask(26) == 0,
    decreases s.len(),
{
    if s.len() == 0 {
        assert(0u32 & !low_mask(26) == 0) by (bit_vector);
    } else {
        lemma_encode_in_range(s.drop_last());
        lemma_letter_shift(s.last());
        let e = spec_encode(s.drop_last());
        let k = letter_shift(s.last());
        assert(e & !low_mask(26) == 0 && k < 26 ==> (e | (1u32 << k)) & !low_mask(26) == 0)
            by (bit_vector);
    }
}

/// Encodes a word and keeps it only when it has exactly five distinct
/// letters: the filter that builds the search set.
pub fn encode_valid(word: &str) -> (r: Option<u32>)
    ensures
        match r {
            Some(m) => all_lowercase(word@) && m == spec_encode(word@) && pc(m) == 5 && m
                & !low_mask(26) == 0,
            None => !all_lowercase(word@) || pc(spec_encode(word@)) != 5,
        },
{
    proof {
        if all_lowercase(word@) {
            lemma_encode_in_range(word@);
        }
    }
    match encodewords(word) {
        None => None,
        Some(m) => {
            if crate::bits::popcount(m) == 5 {
                Some(m)
            } else {
                None
            }
        },
    }
}

/// Strictly ascending order: each mask is larger than the one before it,
/// so no mask occurs twice.
pub open spec fn strictly_sorted(s: Seq<u32>) -> bool {
    forall|p: int, q: int| 0 <= p < q < s.len() ==> s[p] < s[q]
}

/// Inserts `x` into a strictly sorted vector, keeping it strictly sorted;
/// a mask already present is left alone.
fn sorted_insert(v: &mut Vec<u32>, x: u32)
    requires
        strictly_sorted(old(v)@),
    ensures
        strictly_sorted(final(v)@),
        forall|m: u32| final(v)@.contains(m) <==> (old(v)@.contains(m) || m == x),
        old(v)@.contains(x) ==> final(v)@ == old(v)@,
        (forall|j: int| 0 <= j < old(v)@.len() ==> old(v)@[j] < x) ==> final(v)@ == old(v)@.push(
            x,
        ),
{
    let ghost orig = v@;
    let mut i: usize = 0;
    while i < v.len() && v[i] < x
        invariant
            0 <= i <= v@.len(),
            v@ == orig,
            forall|j: int| 0 <= j < i ==> v@[j] < x,
        decreases v@.len() - i,
    {
        i = i + 1;
    }
    if i < v.len() {
        let cur = v[i];
        if cur == x {
            proof {
                assert(orig.contains(x)) by {
                    assert(orig[i as int] == x);
                }
            }
            return ;
        }
    }
    proof {
        if orig.contains(x) {
            let j = choose|j: int| 0 <= j < orig.len() && orig[j] == x;
            if j < i {
                assert(orig[j] < x);
            } else {
                assert(orig[i as int] <= orig[j]);
            }
            assert(false);
        }
    }
    v.insert(i, x);
    proof {
        let newv = v@;
        assert(newv == orig.insert(i as int, x));
        assert forall|p: int, q: int| 0 <= p < q < newv.len() implies newv[p] < newv[q] by {
            assert(newv[p] == if p < i {
                orig[p]
            } else if p == i {
                x
            } else {
                orig[p - 1]
            });
            assert(newv[q] == if q < i {
                orig[q]
            } else if q == i {
                x
            } else {
                orig[q - 1]
            });
            if i < orig.len() {
                assert(x < orig[i as int]);
            }
        }
        assert forall|m: u32| newv.contains(m) implies (orig.contains(m) || m == x) by {
            let p = choose|p: int| 0 <= p < newv.len() && newv[p] == m;
            if p < i {
                assert(orig[p] == m);
            } else if p > i {
                assert(orig[p - 1] == m);
            }
        }
        assert forall|m: u32| orig.contains(m) implies newv.contains(m) by {
            let p = choose|p: int| 0 <= p < orig.len() && orig[p] == m;
            if p < i {
                assert(newv[p] == m);
            } else {
                assert(newv[p + 1] == m);
            }
        }
        assert(newv.contains(x)) by {
            assert(newv[i as int] == x);
        }
        if forall|j: int| 0 <= j < orig.len() ==> orig[j] < x {
            assert(i == orig.len());
            assert(newv =~= orig.push(x));
        }
    }
}

/// Deduplicates a mask list into strictly ascending order: the same mask
/// set, each mask once.  A list already deduplicated comes back unchanged.
pub fn dedup_masks(masks: &Vec<u32>) -> (r: Vec<u32>)
    ensures
        strictly_sorted(r@),
        forall|m: u32| r@.contains(m) <==> masks@.contains(m),
        strictly_sorted(masks@) ==> r@ == masks@,
{
    let mut out: Vec<u32> = Vec::new();
    let mut k: usize = 0;
    while k < masks.len()
        invariant
            0 <= k <= masks@.len(),
            strictly_sorted(out@),
            forall|m: u32| out@.contains(m) <==> masks@.take(k as int).contains(m),
            strictly_sorted(masks@) ==> out@ == masks@.take(k as int),
        decreases masks@.len() - k,
    {
        let x = masks[k];
        let ghost pre = out@;
        sorted_insert(&mut out, x);
        proof {
            assert forall|m: u32| out@.contains(m) implies masks@.take(k as int + 1).contains(
                m,
            ) by {
                if pre.contains(m) {
                    let j = choose|j: int| 0 <= j < k && masks@.take(k as int)[j] == m;
                    assert(masks@.take(k as int + 1)[j] == m);
                } else {
                    assert(masks@.take(k as int + 1)[k as int] == m);
                }
            }
            assert forall|m: u32| masks@.take(k as int + 1).contains(m) implies out@.contains(
                m,
            ) by {
                let j = choose|j: int|
                    0 <= j < k + 1 && #[trigger] masks@.take(k as int + 1)[j] == m;
                if j < k {
                    assert(masks@.take(k as int)[j] == m);
                }
            }
            if strictly_sorted(masks@) {
                assert forall|j: int| 0 <= j < pre.len() implies pre[j] < x by {
                    assert(pre[j] == masks@[j]);
                }
                assert(out@ =~= masks@.take(k as int + 1));
            }
        }
        k = k + 1;
    }
    proof {
        assert(masks@.take(k as int) =~= masks@);
    }
    out
}

/// Two strictly sorted mask lists holding the same masks are the same list:
/// deduplication is idempotent.
pub proof fn lemma_sorted_unique(a: Seq<u32>, b: Seq<u32>)
    requires
        strictly_sorted(a),
        strictly_sorted(b),
        forall|m: u32| a.contains(m) <==> b.contains(m),
    ensures
        a == b,
    decreases a.len(),
{
    if a.len() == 0 {
        if b.len() != 0 {
            assert(b.contains(b[0]));
            assert(a.contains(b[0]));
        }
        assert(a =~= b);
    } else {
        assert(b.contains(a[0])) by {
            assert(a.contains(a[0]));
        }
        let j = choose|j: int| 0 <= j < b.len() && b[j] == a[0];
        if j > 0 {
            assert(a.contains(b[0])) by {
                assert(b.contains(b[0]));
            }
            let i = choose|i: int| 0 <= i < a.len() && a[i] == b[0];
            assert(b[0] < b[j]);
            if i > 0 {
                assert(a[0] < a[i]);
            }
            assert(false);
        }
        let at = a.subrange(1, a.len() as int);
        let bt = b.subrange(1, b.len() as int);
        assert forall|m: u32| at.contains(m) implies bt.contains(m) by {
            let i = choose|i: int| 0 <= i < at.len() && at[i] == m;
            assert(a[i + 1] == m);
            assert(a[0] < m);
            assert(b.contains(m));
            let p = choose|p: int| 0 <= p < b.len() && b[p] == m;
            assert(p > 0);
            assert(bt[p - 1] == m);
        }
        assert forall|m: u32| bt.contains(m) implies at.contains(m) by {
            let i = choose|i: int| 0 <= i < bt.len() && bt[i] == m;
            assert(b[i + 1] == m);
            assert(b[0] < m);
            assert(a.contains(m));
            let p = choose|p: int| 0 <= p < a.len() && a[p] == m;
            assert(p > 0);
            assert(at[p - 1] == m);
        }
        lemma_sorted_unique(at, bt);
        assert forall|i: int| 0 <= i < a.len() implies a[i] == b[i] by {
            if i > 0 {
                assert(at[i - 1] == bt[i - 1]);
            }
        }
        assert(a =~= b);
    }
}

/// Starting words for the parallel fan-out: the masks using at least one of
/// the two rarest-encoded letters, at bits 0 and 1.
pub fn starting_words(masks: &Vec<u32>) -> (r: Vec<u32>)
    ensures
        r@ == masks@.filter(|m: u32| m & 3 != 0),
{
    let mut out: Vec<u32> = Vec::new();
    let mut k: usize = 0;
    while k < masks.len()
        invariant
            0 <= k <= masks@.len(),
            out@ == masks@.take(k as int).filter(|m: u32| m & 3 != 0),
        decreases masks@.len() - k,
    {
        let x = masks[k];
        proof {
            reveal(Seq::filter);
            assert(masks@.take(k as int + 1).drop_last() =~= masks@.take(k as int));
            assert(masks@.take(k as int + 1).last() == x);
        }
        if x & 3 != 0 {
            out.push(x);
        }
        k = k + 1;
    }
    proof {
        assert(masks@.take(masks@.len() as int) =~= masks@);
    }
    out
}

} // verus!
