//! Letter masks: 26-bit sets of alphabet letters, with the counting and
//! ordering facts the trie search rests on.

use vstd::prelude::*;

verus! {

broadcast use vstd::std_specs::bits::axiom_u32_trailing_zeros;

/// Number of set bits in the binary representation of `n`.
pub open spec fn count_bits(n: nat) -> nat
    decreases n,
{
    if n == 0 {
        0
    } else {
        n % 2 + count_bits(n / 2)
    }
}

/// Number of letters in a letter mask: its number of set bits.
pub open spec fn pc(m: u32) -> nat {
    count_bits(m as nat)
}

/// Index of the lowest set bit of `m` (32 when `m == 0`).
pub open spec fn tz(m: u32) -> u32 {
    vstd::std_specs::bits::u32_trailing_zeros(m)
}

/// Mask of all bits strictly below bit `i`.
pub open spec fn low_mask(i: u32) -> u32
    recommends
        i < 32,
{
    ((1u32 << i) - 1) as u32
}

/// `pc` unfolds one binary digit at a time.
pub proof fn lemma_pc_step(m: u32)
    ensures
        pc(m) == (m & 1) + pc(m >> 1),
{
    assert(m & 1 == m % 2) by (bit_vector);
    assert(m >> 1 == m / 2) by (bit_vector);
    if m == 0 {
        assert(pc(0u32) == 0);
    }
}

/// A mask has no more set bits than its value.
pub proof fn lemma_pc_le(m: u32)
    ensures
        pc(m) <= m,
    decreases m,
{
    lemma_pc_step(m);
    if m != 0 {
        assert(m >> 1 < m && (m & 1) + (m >> 1) <= m) by (bit_vector)
            requires
                m != 0,
        ;
        lemma_pc_le(m >> 1);
    }
}

/// Only the empty mask holds no letters.
pub proof fn lemma_pc_zero(m: u32)
    ensures
        pc(m) == 0 <==> m == 0,
    decreases m,
{
    lemma_pc_step(m);
    if m != 0 {
        assert(m >> 1 < m && (m & 1 == 0 ==> m >> 1 != 0)) by (bit_vector)
            requires
                m != 0,
        ;
        if m & 1 == 0 {
            lemma_pc_zero(m >> 1);
        }
    }
}

/// Setting one clear bit raises the letter count by exactly one.
pub proof fn lemma_pc_or_single(m: u32, i: u32)
    requires
        i < 32,
        m & (1u32 << i) == 0,
    ensures
        pc(m | (1u32 << i)) == pc(m) + 1,
    decreases i,
{
    lemma_pc_step(m);
    lemma_pc_step(m | (1u32 << i));
    if i == 0 {
        assert((m | (1u32 << 0)) >> 1 == m >> 1 && (m | (1u32 << 0)) & 1 == 1 && m & 1 == 0)
            by (bit_vector)
            requires
                m & (1u32 << 0) == 0,
        ;
    } else {
        assert((m | (1u32 << i)) >> 1 == (m >> 1) | (1u32 << (i - 1) as u32) && (m | (1u32 << i))
            & 1 == m & 1 && (m >> 1) & (1u32 << (i - 1) as u32) == 0) by (bit_vector)
            requires
                0 < i < 32 && m & (1u32 << i) == 0,
        ;
        lemma_pc_or_single(m >> 1, (i - 1) as u32);
    }
}

/// Disjoint masks hold disjoint letters: counts add.
pub proof fn lemma_pc_disjoint_or(a: u32, b: u32)
    requires
        a & b == 0,
    ensures
        pc(a | b) == pc(a) + pc(b),
    decreases a,
{
    if a == 0 {
        assert(0u32 | b == b) by (bit_vector);
        assert(pc(0u32) == 0);
    } else {
        lemma_pc_step(a);
        lemma_pc_step(b);
        lemma_pc_step(a | b);
        assert(a >> 1 < a) by (bit_vector)
            requires
                a != 0,
        ;
        assert((a >> 1) & (b >> 1) == 0 && (a | b) >> 1 == (a >> 1) | (b >> 1)) by (bit_vector)
            requires
                a & b == 0,
        ;
        assert(((a | b) & 1) == (a & 1) + (b & 1)) by (bit_vector)
            requires
                a & b == 0,
        ;
        lemma_pc_disjoint_or(a >> 1, b >> 1);
    }
}

/// A submask holds no more letters than the mask containing it.
pub proof fn lemma_pc_subset(a: u32, b: u32)
    requires
        a & !b == 0,
    ensures
        pc(a) <= pc(b),
{
    assert(a & (b & !a) == 0 && (a | (b & !a)) == b) by (bit_vector)
        requires
            a & !b == 0,
    ;
    lemma_pc_disjoint_or(a, b & !a);
}

/// Bits strictly below bit `t` of `m` are clear exactly when `m & low_mask(t)` is.
proof fn lemma_clear_below(m: u32, t: u32)
    requires
        t <= 32,
        forall|j: u32| 0 <= j < t ==> #[trigger] (m >> j) & 1u32 == 0u32,
    ensures
        m & low_mask(t) == 0,
    decreases t,
{
    if t == 0 {
        assert(m & ((1u32 << 0) - 1) as u32 == 0) by (bit_vector);
    } else {
        lemma_clear_below(m, (t - 1) as u32);
        assert((m >> (t - 1) as u32) & 1u32 == 0u32);
        assert(m & ((1u32 << (t - 1) as u32) - 1) as u32 == 0 && (m >> (t - 1) as u32) & 1u32 == 0
            ==> m & ((1u32 << t) - 1) as u32 == 0) by (bit_vector)
            requires
                0 < t <= 32,
        ;
    }
}

/// The lowest set bit of a nonempty mask: set at `tz(m)`, clear below it.
pub proof fn lemma_tz_facts(m: u32)
    requires
        m != 0,
    ensures
        tz(m) < 32,
        m & (1u32 << tz(m)) != 0,
        m & low_mask(tz(m)) == 0,
{
    let t = tz(m);
    assert((m >> t) & 1u32 == 1u32 && t < 32 ==> m & (1u32 << t) != 0) by (bit_vector);
    lemma_clear_below(m, t);
}

/// A mask whose bit `i` is set, with all lower bits clear, has `tz(m) == i`.
pub proof fn lemma_tz_is(m: u32, i: u32)
    requires
        i < 32,
        m & (1u32 << i) != 0,
        m & low_mask(i) == 0,
    ensures
        tz(m) == i,
{
    assert(m & (1u32 << i) != 0 ==> m != 0) by (bit_vector);
    lemma_tz_facts(m);
    let t = tz(m);
    if t < i {
        assert(t < i < 32 && m & (1u32 << t) != 0 ==> m & ((1u32 << i) - 1) as u32 != 0)
            by (bit_vector)
            requires
                t < 32,
        ;
    }
    if i < t {
        assert(i < t < 32 && m & (1u32 << i) != 0 ==> m & ((1u32 << t) - 1) as u32 != 0)
            by (bit_vector);
    }
}

/// Counts the set bits of `m`, as the recursive `pc` does.
pub fn popcount(m: u32) -> (r: u32)
    ensures
        r == pc(m),
{
    let mut cur: u32 = m;
    let mut r: u32 = 0;
    proof {
        lemma_pc_le(m);
    }
    while cur != 0
        invariant
            r + pc(cur) == pc(m),
            pc(m) <= m,
        decreases cur,
    {
        proof {
            lemma_pc_step(cur);
            lemma_pc_le(cur >> 1);
            assert(cur >> 1 < cur && cur & 1 <= 1) by (bit_vector)
                requires
                    cur != 0,
            ;
        }
        r = r + (cur & 1);
        cur = cur >> 1;
    }
    proof {
        assert(pc(0u32) == 0);
    }
    r
}

/// Union of a sequence of letter masks.
pub open spec fn union_of(s: Seq<u32>) -> u32
    decreases s.len(),
{
    if s.len() == 0 {
        0u32
    } else {
        union_of(s.drop_last()) | s.last()
    }
}

/// No two masks of the sequence share a letter.
pub open spec fn pairwise_disjoint(s: Seq<u32>) -> bool {
    forall|p: int, q: int| 0 <= p < q < s.len() ==> #[trigger] s[p] & #[trigger] s[q] == 0
}

/// The canonical order of a combination: each word's lowest letter lies
/// strictly above the previous word's lowest letter.
pub open spec fn canonical(s: Seq<u32>) -> bool {
    forall|p: int| 0 < p < s.len() ==> tz(s[p - 1]) < tz(#[trigger] s[p])
}

/// Appending a mask to a combination adds exactly its letters to the union.
pub proof fn lemma_union_push(s: Seq<u32>, x: u32)
    ensures
        union_of(s.push(x)) == union_of(s) | x,
{
    assert(s.push(x).drop_last() =~= s);
    assert(s.push(x).last() == x);
}

/// Every mask of a combination lies inside the combination's union.
pub proof fn lemma_elem_in_union(s: Seq<u32>, p: int)
    requires
        0 <= p < s.len(),
    ensures
        s[p] & !union_of(s) == 0,
    decreases s.len(),
{
    let u = union_of(s.drop_last());
    let l = s.last();
    if p == s.len() - 1 {
        assert(l & !(u | l) == 0) by (bit_vector);
    } else {
        lemma_elem_in_union(s.drop_last(), p);
        let a = s[p];
        assert(a & !u == 0 ==> a & !(u | l) == 0) by (bit_vector);
    }
}

/// Ground facts about a mask and one bit position, used throughout the trie.
pub proof fn lemma_bit_basics(m: u32, i: u32)
    by (bit_vector)
    requires
        i < 32,
    ensures
        0u32 & m == 0,
        0u32 | m == m,
        m | 0u32 == m,
        1u32 << i >= 1,
        1u32 << i != 0,
        (1u32 << i) & (1u32 << i) != 0,
        (1u32 << i) & low_mask(i) == 0,
        i < 26 ==> (1u32 << i) & !low_mask(26) == 0,
        i < 26 ==> (1u32 << i) & !low_mask((i + 1) as u32) == 0,
        m & (1u32 << i) != 0 ==> m | (1u32 << i) == m,
        (m | (1u32 << i)) & (1u32 << i) != 0,
        m & !low_mask(26) == 0 && i < 26 ==> (m | (1u32 << i)) & !low_mask(26) == 0,
        m & (1u32 << i) != 0 && m & !low_mask(26) == 0 ==> i < 26,
        m & !low_mask(26) == 0 ==> m & low_mask(26) == m,
        m & low_mask(0) == 0,
        m & !low_mask(0) == m,
{
}

/// Ground facts about a mask and two bit positions.
pub proof fn lemma_two_bits(m: u32, i: u32, j: u32)
    by (bit_vector)
    requires
        i < 32,
        j < 32,
    ensures
        i != j ==> (1u32 << i) & (1u32 << j) == 0,
        i != j ==> ((m | (1u32 << i)) & (1u32 << j) != 0 <==> m & (1u32 << j) != 0),
        m & (1u32 << j) != 0 ==> (m | (1u32 << i)) & (1u32 << j) != 0,
{
}

/// Order facts between bit positions and the masks below them.
pub proof fn lemma_low_masks(m: u32, i: u32, j: u32)
    by (bit_vector)
    requires
        i < 32,
        j < 32,
    ensures
        m & low_mask(j) == 0 && i <= j ==> m & low_mask(i) == 0,
        m & (1u32 << i) != 0 && m & low_mask(j) == 0 ==> j <= i,
        m & (1u32 << i) != 0 && m & low_mask(i) == 0 && m & !low_mask(26) == 0 ==> i < 26,
{
}

/// Splitting a mask at its lowest set bit `i` and putting it back together.
pub proof fn lemma_split_bit(m: u32, i: u32)
    by (bit_vector)
    requires
        i < 32,
        m & (1u32 << i) != 0,
    ensures
        (m & !(1u32 << i)) & (1u32 << i) == 0,
        ((m & !(1u32 << i)) | (1u32 << i)) == m,
        m & !(1u32 << i) < m,
        m & !low_mask(26) == 0 ==> (m & !(1u32 << i)) & !low_mask(26) == 0,
        m & !(1u32 << i) == 0 ==> m == 1u32 << i,
{
}

/// Assorted ground facts about masks, their unions and differences.
pub proof fn lemma_mask_facts(a: u32, b: u32, c: u32)
    by (bit_vector)
    ensures
        a & 0u32 == 0,
        a & b == b & a,
        a & b == 0 && a & c == 0 ==> a & (b | c) == 0,
        c & !b == 0 ==> ((a & !b) & c) == 0,
        a & b != 0 && a & c == 0 ==> a & (b & !c) != 0,
        (b & !a) & (b & a) == 0,
        ((b & !a) | (b & a)) == b,
        (b & !a) & a == 0,
        (b & !a) & c != 0 ==> b & c != 0,
        a & (b | c) != 0 ==> (a & b != 0 || a & c != 0),
{
}

/// A letter of the union comes from some word of the combination.
pub proof fn lemma_union_bit(s: Seq<u32>, b: u32)
    requires
        union_of(s) & (1u32 << b) != 0,
    ensures
        exists|q: int| 0 <= q < s.len() && #[trigger] s[q] & (1u32 << b) != 0,
    decreases s.len(),
{
    let m = 1u32 << b;
    if s.len() == 0 {
        lemma_mask_facts(m, 0, 0);
    } else {
        let u = union_of(s.drop_last());
        let l = s.last();
        lemma_mask_facts(m, u, l);
        lemma_mask_facts(u | l, m, 0);
        if m & l != 0 {
            lemma_mask_facts(l, m, 0);
            assert(s[s.len() - 1] & (1u32 << b) != 0);
        } else {
            lemma_mask_facts(u, m, 0);
            lemma_union_bit(s.drop_last(), b);
            let q = choose|q: int|
                0 <= q < s.drop_last().len() && #[trigger] s.drop_last()[q] & (1u32 << b) != 0;
            assert(s[q] & (1u32 << b) != 0);
        }
    }
}

/// Along a canonical combination the lowest letters never decrease.
pub proof fn lemma_tz_monotone(c: Seq<u32>, p: int, q: int)
    requires
        canonical(c),
        0 <= p <= q < c.len(),
    ensures
        tz(c[p]) <= tz(c[q]),
    decreases q - p,
{
    if p < q {
        lemma_tz_monotone(c, p, q - 1);
        assert(tz(c[q - 1]) < tz(c[q]));
    }
}

/// A mask disjoint from every word of a combination is disjoint from its union.
pub proof fn lemma_union_disjoint(c: Seq<u32>, b: u32)
    requires
        forall|q: int| 0 <= q < c.len() ==> b & #[trigger] c[q] == 0,
    ensures
        b & union_of(c) == 0,
    decreases c.len(),
{
    if c.len() == 0 {
        lemma_mask_facts(b, 0, 0);
    } else {
        let t = c.drop_last();
        assert forall|q: int| 0 <= q < t.len() implies b & #[trigger] t[q] == 0 by {
            assert(t[q] == c[q]);
        }
        lemma_union_disjoint(t, b);
        let u = union_of(t);
        let l = c.last();
        assert(b & l == 0) by {
            assert(c[c.len() - 1] == l);
        }
        lemma_mask_facts(b, u, l);
    }
}

/// A word of a combination shares no letter with the union of the words
/// before position `p`.
pub proof fn lemma_disjoint_from_taken(c: Seq<u32>, p: int, q: int)
    requires
        pairwise_disjoint(c),
        0 <= p <= q < c.len(),
    ensures
        c[q] & union_of(c.take(p)) == 0,
{
    let t = c.take(p);
    assert forall|j: int| 0 <= j < t.len() implies c[q] & #[trigger] t[j] == 0 by {
        assert(t[j] == c[j]);
        assert(c[j] & c[q] == 0);
        lemma_mask_facts(c[j], c[q], 0);
    }
    lemma_union_disjoint(t, c[q]);
}

/// Pairwise disjoint masks that each meet `v` need as many bits of `v` as
/// there are masks.
pub proof fn lemma_disjoint_meet_count(ws: Seq<u32>, v: u32)
    requires
        pairwise_disjoint(ws),
        forall|q: int| 0 <= q < ws.len() ==> #[trigger] ws[q] & v != 0,
    ensures
        pc(v) >= ws.len(),
    decreases ws.len(),
{
    if ws.len() > 0 {
        let l = ws.last();
        let t = ws.drop_last();
        let v1 = v & !l;
        assert(ws[ws.len() - 1] == l);
        assert forall|q: int| 0 <= q < t.len() implies #[trigger] t[q] & v1 != 0 by {
            assert(t[q] == ws[q]);
            assert(ws[q] & l == 0);
            lemma_mask_facts(ws[q], v, l);
        }
        assert forall|p: int, q: int| 0 <= p < q < t.len() implies #[trigger] t[p] & #[trigger] t[
        q] == 0 by {
            assert(t[p] == ws[p] && t[q] == ws[q]);
        }
        lemma_disjoint_meet_count(t, v1);
        lemma_mask_facts(l, v, 0);
        lemma_pc_zero(v & l);
        lemma_pc_disjoint_or(v & !l, v & l);
    }
}

} // verus!
