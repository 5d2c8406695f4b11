//! Laws of the search: the canonical order reports each word set at most
//! once, and the budget prune only abandons branches that cannot cover
//! enough letters.

use vstd::prelude::*;
use crate::bits::{
    pc, tz, low_mask, union_of, pairwise_disjoint, canonical, lemma_pc_subset, lemma_tz_facts,
    lemma_elem_in_union, lemma_tz_monotone, lemma_union_disjoint, lemma_mask_facts,
    lemma_bit_basics,
};

verus! {

/// Canonical-order dedup: two canonical combinations holding the same set
/// of word masks are the same sequence.  Since every reported combination
/// is canonical, the word-order permutations of a combination are never
/// reported alongside it.
pub proof fn lemma_canonical_unique(a: Seq<u32>, b: Seq<u32>)
    requires
        canonical(a),
        canonical(b),
        forall|m: u32| a.contains(m) <==> b.contains(m),
    ensures
        a == b,
    decreases a.len(),
{
    if a.len() == 0 {
        if b.len() != 0 {
            assert(b.contains(b[0]));
            assert(a.contains(b[0]));
        }
        assert(a =~= b);
    } else {
        assert(b.contains(a[0])) by {
            assert(a.contains(a[0]));
        }
        let j = choose|j: int| 0 <= j < b.len() && b[j] == a[0];
        if j > 0 {
            assert(a.contains(b[0])) by {
                assert(b.contains(b[0]));
            }
            let i = choose|i: int| 0 <= i < a.len() && a[i] == b[0];
            lemma_tz_monotone(b, 0, j);
            assert(tz(b[0]) < tz(b[1]));
            lemma_tz_monotone(b, 1, j);
            if i > 0 {
                lemma_tz_monotone(a, 1, i);
                assert(tz(a[0]) < tz(a[1]));
            }
            assert(false);
        }
        let at = a.subrange(1, a.len() as int);
        let bt = b.subrange(1, b.len() as int);
        assert forall|m: u32| at.contains(m) implies bt.contains(m) by {
            let i = choose|i: int| 0 <= i < at.len() && at[i] == m;
            assert(a[i + 1] == m);
            lemma_tz_monotone(a, 1, i + 1);
            assert(tz(a[0]) < tz(m));
            assert(b.contains(m));
            let p = choose|p: int| 0 <= p < b.len() && b[p] == m;
            assert(p > 0);
            assert(bt[p - 1] == m);
        }
        assert forall|m: u32| bt.contains(m) implies at.contains(m) by {
            let i = choose|i: int| 0 <= i < bt.len() && bt[i] == m;
            assert(b[i + 1] == m);
            lemma_tz_monotone(b, 1, i + 1);
            assert(tz(b[0]) < tz(m));
            assert(a.contains(m));
            let p = choose|p: int| 0 <= p < a.len() && a[p] == m;
            assert(p > 0);
            assert(at[p - 1] == m);
        }
        assert forall|p: int| 0 < p < at.len() implies tz(at[p - 1]) < tz(#[trigger] at[p]) by {
            assert(at[p] == a[p + 1] && at[p - 1] == a[p]);
        }
        assert forall|p: int| 0 < p < bt.len() implies tz(bt[p - 1]) < tz(#[trigger] bt[p]) by {
            assert(bt[p] == b[p + 1] && bt[p - 1] == b[p]);
        }
        lemma_canonical_unique(at, bt);
        assert forall|i: int| 0 <= i < a.len() implies a[i] == b[i] by {
            if i > 0 {
                assert(at[i - 1] == bt[i - 1]);
            }
        }
        assert(a =~= b);
    }
}

/// Letters below position `i`, unused by the words before position `p` of
/// a canonical combination, stay unused by the whole combination whenever
/// `i` lies at or below word `p`'s lowest letter.
pub proof fn lemma_unused_low_bound(c: Seq<u32>, p: int, i: u32)
    requires
        pairwise_disjoint(c),
        canonical(c),
        forall|q: int| 0 <= q < c.len() ==> #[trigger] c[q] != 0 && c[q] & !low_mask(26) == 0,
        0 <= p < c.len(),
        i <= tz(c[p]),
    ensures
        pc(low_mask(i) & !union_of(c.take(p))) <= pc(!union_of(c) & low_mask(26)),
{
    let up = union_of(c.take(p));
    let b = low_mask(i) & !up;
    lemma_tz_facts(c[p]);
    lemma_bit_basics(c[p], tz(c[p]));
    assert(tz(c[p]) < 26);
    assert forall|q: int| 0 <= q < c.len() implies b & #[trigger] c[q] == 0 by {
        if q < p {
            lemma_elem_in_union(c.take(p), q);
            assert(c.take(p)[q] == c[q]);
            lemma_mask_facts(low_mask(i), up, c[q]);
        } else {
            lemma_tz_monotone(c, p, q);
            let w = c[q];
            let tq = tz(w);
            lemma_tz_facts(w);
            assert(w & low_mask(tq) == 0 && i <= tq && tq < 32 ==> (low_mask(i) & !up) & w == 0)
                by (bit_vector);
        }
    }
    lemma_union_disjoint(c, b);
    let u = union_of(c);
    assert(b & u == 0 && i < 26 ==> b & !(!u & low_mask(26)) == 0) by (bit_vector)
        requires
            b == low_mask(i) & !up,
    ;
    lemma_pc_subset(b, !u & low_mask(26));
}

/// Budget prune correctness: when two or more letters below some word's
/// lowest letter are still unused by the earlier words of a canonical
/// combination, those letters stay unused forever, so the finished
/// combination leaves at least two of the 26 letters uncovered.
pub proof fn lemma_budget_prune(c: Seq<u32>, p: int)
    requires
        pairwise_disjoint(c),
        canonical(c),
        forall|q: int| 0 <= q < c.len() ==> #[trigger] c[q] != 0 && c[q] & !low_mask(26) == 0,
        0 <= p < c.len(),
        pc(low_mask(tz(c[p])) & !union_of(c.take(p))) >= 2,
    ensures
        pc(!union_of(c) & low_mask(26)) >= 2,
{
    lemma_unused_low_bound(c, p, tz(c[p]));
}

/// A combination that covers at least 25 of the 26 letters uses one of the
/// two rarest-encoded letters, and its first word carries it: the seed
/// filter of the parallel fan-out excludes no such solution.
pub proof fn lemma_cover_starts_rare(c: Seq<u32>)
    requires
        pairwise_disjoint(c),
        canonical(c),
        c.len() > 0,
        forall|q: int| 0 <= q < c.len() ==> #[trigger] c[q] != 0 && c[q] & !low_mask(26) == 0,
        pc(!union_of(c) & low_mask(26)) <= 1,
    ensures
        c[0] & 3 != 0,
{
    let u = union_of(c);
    if u & 3 == 0 {
        assert(u & 3 == 0 ==> 3u32 & !(!u & low_mask(26)) == 0) by (bit_vector);
        lemma_pc_subset(3u32, !u & low_mask(26));
        crate::bits::lemma_pc_step(3u32);
        crate::bits::lemma_pc_step(1u32);
        assert(3u32 & 1 == 1 && 3u32 >> 1 == 1 && 1u32 & 1 == 1 && 1u32 >> 1 == 0)
            by (bit_vector);
        assert(pc(0u32) == 0);
        assert(false);
    }
    let b: u32 = if u & (1u32 << 0u32) != 0 {
        0u32
    } else {
        1u32
    };
    assert(u & 3 != 0 && u & (1u32 << 0u32) == 0 ==> u & (1u32 << 1u32) != 0) by (bit_vector);
    crate::bits::lemma_union_bit(c, b);
    let q = choose|q: int| 0 <= q < c.len() && #[trigger] c[q] & (1u32 << b) != 0;
    lemma_tz_facts(c[q]);
    crate::bits::lemma_low_masks(c[q], b, tz(c[q]));
    assert(tz(c[q]) <= b);
    if q > 0 {
        lemma_tz_monotone(c, 1, q);
        assert(tz(c[0]) < tz(c[1]));
        assert(tz(c[0]) <= 1);
    }
    lemma_tz_facts(c[0]);
    let w0 = c[0];
    let t0 = tz(c[0]);
    assert(w0 & (1u32 << t0) != 0 && t0 <= 1 ==> w0 & 3 != 0) by (bit_vector);
}

} // verus!
