//! Laws of the binary metrics.
//!
//! These proof functions state, once and for all inputs, the ordering
//! and perfect-ranking facts that the individual metric contracts imply.

use vstd::prelude::*;
use crate::binary::{
    spec_ap_sum, spec_average_precision, spec_dcg_sum, spec_first_hit_from, spec_hits,
    spec_idcg_sum, spec_min, spec_mrr, spec_ndcg_at_k, spec_precision_at_k, spec_recall_at_k,
    lemma_hits_bounds, lemma_hits_monotone,
};
use crate::frac::Q20;
use crate::fixed::{lemma_disc_antitone, lemma_disc_bounds, Q48, P64};

verus! {

/// No identifier occurs twice.
pub open spec fn distinct_ids(v: Seq<Seq<u8>>) -> bool {
    forall|i: int, j: int| 0 <= i < j < v.len() ==> v[i] != v[j]
}

/// The set of relevant ids among the first `m` ranked positions.
pub open spec fn spec_hit_ids(ranked: Seq<Seq<u8>>, rel: Seq<Seq<u8>>, m: int) -> Set<Seq<u8>>
    decreases (if m >= 0 { m } else { 0 })
{
    if m <= 0 {
        Set::empty()
    } else {
        let prev = spec_hit_ids(ranked, rel, m - 1);
        if rel.contains(ranked[m - 1]) {
            prev.insert(ranked[m - 1])
        } else {
            prev
        }
    }
}

/// In a duplicate-free ranking, the hit count is the cardinality of
/// the set of relevant ids seen, each of which is a member of the
/// relevant list and occurs in the prefix.
proof fn lemma_hit_ids_props(ranked: Seq<Seq<u8>>, rel: Seq<Seq<u8>>, m: int)
    requires
        distinct_ids(ranked),
        0 <= m <= ranked.len(),
    ensures
        spec_hit_ids(ranked, rel, m).finite(),
        spec_hit_ids(ranked, rel, m).len() == spec_hits(ranked, rel, m),
        forall|x: Seq<u8>| #[trigger] spec_hit_ids(ranked, rel, m).contains(x) ==> rel.contains(x),
        forall|x: Seq<u8>|
            #[trigger] spec_hit_ids(ranked, rel, m).contains(x) ==> exists|j: int|
                0 <= j < m && ranked[j] == x,
    decreases m
{
    broadcast use vstd::set::group_set_axioms;

    if m > 0 {
        lemma_hit_ids_props(ranked, rel, m - 1);
        let prev = spec_hit_ids(ranked, rel, m - 1);
        if rel.contains(ranked[m - 1]) {
            if prev.contains(ranked[m - 1]) {
                let j = choose|j: int|
                    #![trigger ranked[j]]
                    0 <= j < m - 1 && ranked[j] == ranked[m - 1];
                assert(false);
            }
        }
    }
}

/// With both lists duplicate-free, a prefix cannot hold more hits
/// than there are relevant documents.
pub proof fn lemma_hits_le_relevant(ranked: Seq<Seq<u8>>, rel: Seq<Seq<u8>>, m: int)
    requires
        distinct_ids(ranked),
        distinct_ids(rel),
        0 <= m <= ranked.len(),
    ensures
        spec_hits(ranked, rel, m) <= rel.len(),
{
    broadcast use vstd::set::group_set_axioms;

    lemma_hit_ids_props(ranked, rel, m);
    rel.unique_seq_to_set();
    let hit = spec_hit_ids(ranked, rel, m);
    assert(hit <= rel.to_set()) by {
        assert forall|x: Seq<u8>| hit.contains(x) implies rel.to_set().contains(x) by {
            assert(rel.contains(x));
        }
    }
    vstd::set_lib::lemma_len_subset(hit, rel.to_set());
}

/// The DCG sum is non-negative.
proof fn lemma_dcg_nonneg(ranked: Seq<Seq<u8>>, rel: Seq<Seq<u8>>, m: int)
    requires
        m + 1 < P64,
    ensures
        0 <= spec_dcg_sum(ranked, rel, m),
    decreases (if m >= 0 { m } else { 0 })
{
    if m > 0 {
        lemma_dcg_nonneg(ranked, rel, m - 1);
        lemma_disc_bounds(m - 1);
    }
}

/// The ideal DCG grows with the number of leading positions.
proof fn lemma_idcg_mono(m1: int, m2: int)
    requires
        0 <= m1 <= m2,
        m2 + 1 < P64,
    ensures
        spec_idcg_sum(m1) <= spec_idcg_sum(m2),
    decreases m2 - m1
{
    if m1 < m2 {
        lemma_idcg_mono(m1, m2 - 1);
        lemma_disc_bounds(m2 - 1);
    }
}

/// The ideal DCG of `m` positions is at most `m` (in `Q48`).
proof fn lemma_idcg_upper(m: int)
    requires
        0 <= m,
        m + 1 < P64,
    ensures
        spec_idcg_sum(m) <= m * Q48 as int,
        spec_idcg_sum(m) >= 0,
    decreases m
{
    if m == 0 {
        assert(0 * Q48 as int == 0) by {
            vstd::arithmetic::mul::lemma_mul_basics(Q48 as int);
        }
    } else {
        lemma_idcg_upper(m - 1);
        lemma_disc_bounds(m - 1);
        assert(m * Q48 as int == (m - 1) * Q48 as int + Q48 as int) by {
            vstd::arithmetic::mul::lemma_mul_is_distributive_sub_other_way(
                Q48 as int,
                m,
                1,
            );
        }
    }
}

/// The DCG of any prefix is at most the ideal DCG of its own hit
/// count: the `h`-th hit sits at a position no earlier than `h`, and
/// discounts never grow with the position.
proof fn lemma_dcg_le_idcg_of_hits(ranked: Seq<Seq<u8>>, rel: Seq<Seq<u8>>, m: int)
    requires
        0 <= m,
        m + 1 < P64,
    ensures
        spec_dcg_sum(ranked, rel, m) <= spec_idcg_sum(spec_hits(ranked, rel, m)),
    decreases m
{
    if m > 0 {
        lemma_dcg_le_idcg_of_hits(ranked, rel, m - 1);
        lemma_hits_bounds(ranked, rel, m - 1);
        if rel.contains(ranked[m - 1]) {
            lemma_disc_antitone(m - 1, spec_hits(ranked, rel, m - 1));
        }
    }
}

/// Law: NDCG lies in the unit interval for well-formed inputs (both
/// id lists duplicate-free): the realized DCG cannot exceed the ideal
/// one, which packs every relevant document into the best positions.
pub proof fn lemma_ndcg_in_unit(ranked: Seq<Seq<u8>>, rel: Seq<Seq<u8>>, k: int)
    requires
        distinct_ids(ranked),
        distinct_ids(rel),
        0 <= k,
        ranked.len() + 2 < P64,
        rel.len() + 2 < P64,
    ensures
        spec_ndcg_at_k(ranked, rel, k).in_unit(),
{
    let len = ranked.len() as int;
    let n = rel.len() as int;
    if spec_min(k, n) > 0 {
        let m = spec_min(k, len);
        let h = spec_hits(ranked, rel, m);
        let ideal = spec_idcg_sum(spec_min(k, n));
        lemma_dcg_nonneg(ranked, rel, m);
        lemma_dcg_le_idcg_of_hits(ranked, rel, m);
        lemma_hits_bounds(ranked, rel, m);
        lemma_hits_le_relevant(ranked, rel, m);
        lemma_idcg_mono(h, spec_min(k, n));
        lemma_idcg_upper(spec_min(k, n));
        assert(0 <= spec_dcg_sum(ranked, rel, m) <= ideal);
        assert(ideal <= spec_min(k, n) * Q48 as int);
        assert(spec_min(k, n) * (Q48 as int) < 0x80000000000000000000000000000000int) by (
        nonlinear_arith)
            requires
                0 <= spec_min(k, n) < P64,
        ;
    }
}

/// Law: recall lies in the unit interval for well-formed inputs
/// (both id lists duplicate-free): a prefix cannot hold more distinct
/// relevant documents than the relevant set has.
pub proof fn lemma_recall_in_unit(ranked: Seq<Seq<u8>>, rel: Seq<Seq<u8>>, k: int)
    requires
        distinct_ids(ranked),
        distinct_ids(rel),
        0 <= k,
        ranked.len() <= usize::MAX,
        rel.len() <= usize::MAX,
    ensures
        spec_recall_at_k(ranked, rel, k).in_unit(),
{
    if rel.len() > 0 {
        let m = spec_min(k, ranked.len() as int);
        lemma_hits_bounds(ranked, rel, m);
        lemma_hits_le_relevant(ranked, rel, m);
    }
}

/// Law: recall never decreases as the cutoff grows. For any ranking,
/// any relevant set and cutoffs `k1 <= k2`, the recall value at `k1` is
/// at most the recall value at `k2`.
pub proof fn lemma_recall_non_decreasing(
    ranked: Seq<Seq<u8>>,
    rel: Seq<Seq<u8>>,
    k1: int,
    k2: int,
)
    requires
        0 <= k1 <= k2 <= usize::MAX,
        ranked.len() <= usize::MAX,
        rel.len() <= usize::MAX,
    ensures
        spec_recall_at_k(ranked, rel, k1).spec_value_le(spec_recall_at_k(ranked, rel, k2)),
{
    if rel.len() == 0 {
    } else {
        let len = ranked.len() as int;
        let n = rel.len() as int;
        let m1 = spec_min(k1, len);
        let m2 = spec_min(k2, len);
        lemma_hits_monotone(ranked, rel, m1, m2);
        lemma_hits_bounds(ranked, rel, m1);
        lemma_hits_bounds(ranked, rel, m2);
        vstd::arithmetic::mul::lemma_mul_inequality(
            spec_hits(ranked, rel, m1),
            spec_hits(ranked, rel, m2),
            n,
        );
    }
}

/// In a ranking whose first `n` positions are exactly the `n` relevant
/// documents, a position is a hit precisely when it is among the first
/// `n`.
proof fn lemma_prefix_hit(ranked: Seq<Seq<u8>>, rel: Seq<Seq<u8>>, p: int)
    requires
        forall|i: int, j: int| 0 <= i < j < ranked.len() ==> ranked[i] != ranked[j],
        rel == ranked.take(rel.len() as int),
        rel.len() <= ranked.len(),
        0 <= p < ranked.len(),
    ensures
        rel.contains(ranked[p]) <==> p < rel.len(),
{
    let n = rel.len() as int;
    if p < n {
        assert(rel[p] == ranked[p]);
        assert(rel.contains(ranked[p]));
    } else {
        if rel.contains(ranked[p]) {
            let w = choose|w: int| 0 <= w < n && rel[w] == ranked[p];
            assert(rel[w] == ranked[w]);
            assert(false);
        }
    }
}

/// Under the premise of `lemma_prefix_hit`, the hit count of any prefix
/// of length `m` is exactly `min(m, n)`.
proof fn lemma_prefix_hits_count(ranked: Seq<Seq<u8>>, rel: Seq<Seq<u8>>, m: int)
    requires
        forall|i: int, j: int| 0 <= i < j < ranked.len() ==> ranked[i] != ranked[j],
        rel == ranked.take(rel.len() as int),
        rel.len() <= ranked.len(),
        0 <= m <= ranked.len(),
    ensures
        spec_hits(ranked, rel, m) == spec_min(m, rel.len() as int),
    decreases m
{
    if m > 0 {
        lemma_prefix_hits_count(ranked, rel, m - 1);
        lemma_prefix_hit(ranked, rel, m - 1);
    }
}

/// Under the premise of `lemma_prefix_hit`, the DCG of any prefix of
/// length `m` equals the ideal DCG of `min(m, n)` positions.
proof fn lemma_prefix_dcg(ranked: Seq<Seq<u8>>, rel: Seq<Seq<u8>>, m: int)
    requires
        forall|i: int, j: int| 0 <= i < j < ranked.len() ==> ranked[i] != ranked[j],
        rel == ranked.take(rel.len() as int),
        rel.len() <= ranked.len(),
        0 <= m <= ranked.len(),
    ensures
        spec_dcg_sum(ranked, rel, m) == spec_idcg_sum(spec_min(m, rel.len() as int)),
    decreases m
{
    if m > 0 {
        lemma_prefix_dcg(ranked, rel, m - 1);
        lemma_prefix_hit(ranked, rel, m - 1);
    }
}

/// Under the premise of `lemma_prefix_hit`, the average-precision sum
/// over the whole ranking is exactly `n * Q48`: every relevant position
/// `i < n` contributes precision `(i+1)/(i+1) = 1`.
proof fn lemma_prefix_ap_sum(ranked: Seq<Seq<u8>>, rel: Seq<Seq<u8>>, m: int)
    requires
        forall|i: int, j: int| 0 <= i < j < ranked.len() ==> ranked[i] != ranked[j],
        rel == ranked.take(rel.len() as int),
        rel.len() <= ranked.len(),
        0 <= m <= ranked.len(),
    ensures
        spec_ap_sum(ranked, rel, m) == spec_min(m, rel.len() as int) * Q48,
    decreases m
{
    let n = rel.len() as int;
    if m > 0 {
        lemma_prefix_ap_sum(ranked, rel, m - 1);
        lemma_prefix_hit(ranked, rel, m - 1);
        if m - 1 < n {
            lemma_prefix_hits_count(ranked, rel, m);
            assert(spec_hits(ranked, rel, m) == m);
            assert(m * Q48 as int / m == Q48 as int) by {
                vstd::arithmetic::div_mod::lemma_div_by_multiple(Q48 as int, m);
                vstd::arithmetic::mul::lemma_mul_is_commutative(Q48 as int, m);
            }
            assert((m - 1) * Q48 as int + Q48 as int == m * Q48 as int) by {
                vstd::arithmetic::mul::lemma_mul_is_distributive_sub_other_way(
                    Q48 as int,
                    m,
                    1,
                );
            }
        }
    }
}

/// Law: a ranking that lists all relevant documents first is perfect.
///
/// If the relevant ids are exactly the first `n` ranked ids (in any
/// order, the ranking being duplicate-free and `n >= 1`), then for
/// every cutoff `k >= 1`: NDCG, MRR and average precision are exactly
/// one; precision at `k` is one whenever `k <= n`; and recall at `k` is
/// one whenever `k >= n`. (Precision beyond `n`, and recall below `n`,
/// are genuinely below one: with five documents all relevant, recall at
/// one is 1/5.)
pub proof fn lemma_perfect_ranking(ranked: Seq<Seq<u8>>, rel: Seq<Seq<u8>>, k: int)
    requires
        1 <= k <= usize::MAX,
        ranked.len() <= usize::MAX,
        forall|i: int, j: int| 0 <= i < j < ranked.len() ==> ranked[i] != ranked[j],
        rel == ranked.take(rel.len() as int),
        1 <= rel.len() <= ranked.len(),
    ensures
        spec_ndcg_at_k(ranked, rel, k).is_one(),
        spec_mrr(ranked, rel).is_one(),
        spec_average_precision(ranked, rel).is_one(),
        k <= rel.len() ==> spec_precision_at_k(ranked, rel, k).is_one(),
        k >= rel.len() ==> spec_recall_at_k(ranked, rel, k).is_one(),
    {
    let len = ranked.len() as int;
    let n = rel.len() as int;
    // NDCG: the realized DCG equals the ideal DCG term for term.
    lemma_prefix_dcg(ranked, rel, spec_min(k, len));
    assert(spec_min(spec_min(k, len), n) == spec_min(k, n));
    // MRR: position zero is relevant.
    lemma_prefix_hit(ranked, rel, 0);
    assert(spec_first_hit_from(ranked, rel, 0, len) == 0);
    // Average precision: every relevant position contributes exactly one.
    lemma_prefix_ap_sum(ranked, rel, len);
    assert(spec_ap_sum(ranked, rel, len) == n * Q48 as int);
    // Precision and recall: the hit count of a prefix is min(m, n).
    lemma_prefix_hits_count(ranked, rel, spec_min(k, len));
}

} // verus!
