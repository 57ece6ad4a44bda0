//! Graded relevance evaluation metrics.
//!
//! These metrics read a per-query judgment map (document id to integer
//! grade) rather than a yes/no set: NDCG uses the grade itself as the
//! gain, and MAP collapses "grade above zero" to binary relevance.

use vstd::prelude::*;
use crate::frac::Frac;
use crate::fixed::{disc_q48, spec_disc_q48, Q48};
use crate::score::Score;
use crate::trec::{entry_views, doc_grade_views, spec_key_index};

verus! {

/// The `Q30` rank discount used for graded gains: the `Q48` discount
/// scaled down so that a 32-bit grade times a discount always fits.
pub open spec fn spec_disc_q30(i: int) -> int {
    spec_disc_q48(i) / 0x40000
}

/// The grade a judgment map assigns to a document (0 when unjudged).
pub open spec fn spec_grade(qv: Seq<(Seq<u8>, u32)>, id: Seq<u8>) -> int {
    let ki = spec_key_index(qv, id);
    if ki < qv.len() {
        qv[ki].1 as int
    } else {
        0
    }
}

/// The graded DCG sum (in `Q30`) of the first `m` ranked documents:
/// each position contributes its grade times the rank discount.
pub open spec fn spec_graded_dcg(
    ranked: Seq<(Seq<u8>, Score)>,
    qv: Seq<(Seq<u8>, u32)>,
    m: int,
) -> int
    decreases m
{
    if m <= 0 {
        0
    } else {
        spec_graded_dcg(ranked, qv, m - 1) + spec_grade(qv, ranked[m - 1].0) * spec_disc_q30(
            m - 1,
        )
    }
}

/// Insert a grade into a descending list (after equals, as a stable
/// sort leaves them).
pub open spec fn spec_insert_gain(l: Seq<u32>, x: u32) -> Seq<u32>
    decreases l.len()
{
    if l.len() > 0 && x <= l[0] {
        seq![l[0]] + spec_insert_gain(l.drop_first(), x)
    } else {
        seq![x] + l
    }
}

/// The positive grades of the first `i` judgments, sorted descending.
pub open spec fn spec_ideal_gains(qv: Seq<(Seq<u8>, u32)>, i: int) -> Seq<u32>
    decreases i
{
    if i <= 0 {
        Seq::empty()
    } else {
        let prev = spec_ideal_gains(qv, i - 1);
        if qv[i - 1].1 > 0 {
            spec_insert_gain(prev, qv[i - 1].1)
        } else {
            prev
        }
    }
}

/// The ideal graded DCG (in `Q30`) over the first `m` sorted gains.
pub open spec fn spec_graded_idcg(gains: Seq<u32>, m: int) -> int
    decreases m
{
    if m <= 0 {
        0
    } else {
        spec_graded_idcg(gains, m - 1) + gains[m - 1] * spec_disc_q30(m - 1)
    }
}

/// What `compute_ndcg` returns: the graded DCG over the ideal graded
/// DCG of the sorted positive grades, zero when the ideal is zero.
pub open spec fn spec_compute_ndcg(
    ranked: Seq<(Seq<u8>, Score)>,
    qv: Seq<(Seq<u8>, u32)>,
    k: int,
) -> Frac {
    let gains = spec_ideal_gains(qv, qv.len() as int);
    let m_ideal = if k < gains.len() {
        k
    } else {
        gains.len() as int
    };
    let ideal = spec_graded_idcg(gains, m_ideal);
    if ideal <= 0 {
        Frac { num: 0, den: 1 }
    } else {
        let m = if k < ranked.len() {
            k
        } else {
            ranked.len() as int
        };
        Frac { num: spec_graded_dcg(ranked, qv, m) as i128, den: ideal as i128 }
    }
}

/// Look up a document's grade in a judgment map (0 when unjudged).
fn grade_of(qrels: &Vec<(String, u32)>, id: &String) -> (g: u32)
    ensures
        g == spec_grade(doc_grade_views(qrels@), crate::trec::string_bytes(*id)),
{
    let ghost qv = doc_grade_views(qrels@);
    let mut i: usize = 0;
    let mut found = false;
    let mut g: u32 = 0;
    while i < qrels.len() && !found
        invariant
            i <= qrels@.len(),
            qv == doc_grade_views(qrels@),
            forall|j: int|
                0 <= j < i ==> (#[trigger] qv[j]).0 != crate::trec::string_bytes(*id),
            found ==> i < qrels@.len() && qv[i as int].0 == crate::trec::string_bytes(*id) && g
                == qv[i as int].1,
            !found ==> g == 0,
        decreases qrels@.len() - i + if found { 0int } else { 1int },
    {
        proof {
            assert(qv[i as int] == (crate::trec::string_bytes(qrels@[i as int].0), qrels@[
                i as int
            ].1));
        }
        if crate::trec::string_eq(&qrels[i].0, id) {
            found = true;
            g = qrels[i].1;
        } else {
            i = i + 1;
        }
    }
    proof {
        crate::trec::lemma_key_index_first(qv, crate::trec::string_bytes(*id), i as int);
        assert(spec_key_index(qv, crate::trec::string_bytes(*id)) == i as int);
        if found {
            assert(g == qv[i as int].1);
        } else {
            assert(i == qrels@.len());
            assert(g == 0);
        }
        assert(g == spec_grade(qv, crate::trec::string_bytes(*id)));
    }
    g
}

/// Collect the positive grades of a judgment map, sorted descending.
fn ideal_gains(qrels: &Vec<(String, u32)>) -> (gains: Vec<u32>)
    ensures
        gains@ == spec_ideal_gains(doc_grade_views(qrels@), qrels@.len() as int),
{
    let ghost qv = doc_grade_views(qrels@);
    let mut gains: Vec<u32> = Vec::new();
    let mut i: usize = 0;
    while i < qrels.len()
        invariant
            i <= qrels@.len(),
            qv == doc_grade_views(qrels@),
            gains@ == spec_ideal_gains(qv, i as int),
        decreases qrels@.len() - i,
    {
        proof {
            assert(qv[i as int] == (crate::trec::string_bytes(qrels@[i as int].0), qrels@[
                i as int
            ].1));
        }
        let grade = qrels[i].1;
        if grade > 0 {
            let ghost l = gains@;
            let mut p: usize = 0;
            let mut stop = false;
            while p < gains.len() && !stop
                invariant
                    p <= gains@.len(),
                    gains@ == l,
                    forall|j: int| 0 <= j < p ==> grade <= (#[trigger] l[j]),
                    stop ==> p < l.len() && !(grade <= l[p as int]),
                decreases gains@.len() - p + if stop { 0int } else { 1int },
            {
                if grade <= gains[p] {
                    p = p + 1;
                } else {
                    stop = true;
                }
            }
            proof {
                lemma_insert_gain_at(l, grade, p as int);
            }
            gains.insert(p, grade);
            proof {
                assert(gains@ =~= l.take(p as int) + seq![grade] + l.skip(p as int));
            }
        }
        i = i + 1;
    }
    gains
}

/// Splitting the gain insertion at the first strictly-smaller entry.
proof fn lemma_insert_gain_at(l: Seq<u32>, x: u32, p: int)
    requires
        0 <= p <= l.len(),
        forall|j: int| 0 <= j < p ==> x <= (#[trigger] l[j]),
        p < l.len() ==> !(x <= l[p]),
    ensures
        spec_insert_gain(l, x) == l.take(p) + seq![x] + l.skip(p),
    decreases p
{
    if p == 0 {
        assert(l.take(0) + seq![x] + l.skip(0) =~= seq![x] + l);
    } else {
        let d = l.drop_first();
        assert forall|j: int| 0 <= j < p - 1 implies x <= (#[trigger] d[j]) by {
            assert(d[j] == l[j + 1]);
        }
        assert(p - 1 < d.len() ==> !(x <= d[p - 1])) by {
            if p - 1 < d.len() {
                assert(d[p - 1] == l[p]);
            }
        }
        lemma_insert_gain_at(d, x, p - 1);
        assert(seq![l[0]] + (d.take(p - 1) + seq![x] + d.skip(p - 1)) =~= l.take(p) + seq![x]
            + l.skip(p));
    }
}

/// Normalized discounted cumulative gain at `k` under graded
/// relevance: gains are the integer grades themselves, the ideal
/// ranking sorts all positive grades descending, and a zero ideal
/// yields zero rather than a division by zero.
pub fn compute_ndcg(ranked: &Vec<(String, Score)>, qrels: &Vec<(String, u32)>, k: usize) -> (r:
    Frac)
    ensures
        r == spec_compute_ndcg(entry_views(ranked@), doc_grade_views(qrels@), k as int),
        r.wf(),
        r.num >= 0,
        ranked@.len() == 0 ==> r.is_zero(),
        k == 0 ==> r.is_zero(),
    {
    let ghost rv = entry_views(ranked@);
    let ghost qv = doc_grade_views(qrels@);
    let gains = ideal_gains(qrels);
    let m_ideal = if k < gains.len() {
        k
    } else {
        gains.len()
    };
    let mut ideal: u128 = 0;
    let mut i: usize = 0;
    while i < m_ideal
        invariant
            i <= m_ideal <= gains@.len(),
            ideal == spec_graded_idcg(gains@, i as int),
            ideal <= i as int * 0x4000000000000000,
        decreases m_ideal - i,
    {
        proof {
            assert((i + 1) as int * 0x4000000000000000 == i as int * 0x4000000000000000
                + 0x4000000000000000) by {
                vstd::arithmetic::mul::lemma_mul_is_distributive_add_other_way(
                    0x4000000000000000,
                    i as int,
                    1,
                );
            }
        }
        let d30 = disc_q48(i) / 0x40000;
        proof {
            vstd::arithmetic::div_mod::lemma_div_pos_is_pos(spec_disc_q48(i as int), 0x40000);
            vstd::arithmetic::div_mod::lemma_div_is_ordered(
                spec_disc_q48(i as int),
                Q48 as int,
                0x40000,
            );
            vstd::arithmetic::mul::lemma_mul_upper_bound(
                gains@[i as int] as int,
                0xFFFFFFFFint,
                d30 as int,
                0x40000000int,
            );
            vstd::arithmetic::mul::lemma_mul_nonnegative(gains@[i as int] as int, d30 as int);
        }
        ideal = ideal + (gains[i] as u128) * d30;
        i = i + 1;
    }
    if ideal == 0 {
        return Frac::zero();
    }
    let m = if k < ranked.len() {
        k
    } else {
        ranked.len()
    };
    let mut dcg: u128 = 0;
    let mut j: usize = 0;
    while j < m
        invariant
            j <= m <= ranked@.len(),
            rv == entry_views(ranked@),
            qv == doc_grade_views(qrels@),
            dcg == spec_graded_dcg(rv, qv, j as int),
            dcg <= j as int * 0x4000000000000000,
        decreases m - j,
    {
        proof {
            assert(rv[j as int] == (crate::trec::string_bytes(ranked@[j as int].0), ranked@[
                j as int
            ].1));
            assert((j + 1) as int * 0x4000000000000000 == j as int * 0x4000000000000000
                + 0x4000000000000000) by {
                vstd::arithmetic::mul::lemma_mul_is_distributive_add_other_way(
                    0x4000000000000000,
                    j as int,
                    1,
                );
            }
        }
        let g = grade_of(qrels, &ranked[j].0);
        let d30 = disc_q48(j) / 0x40000;
        proof {
            vstd::arithmetic::div_mod::lemma_div_pos_is_pos(spec_disc_q48(j as int), 0x40000);
            vstd::arithmetic::div_mod::lemma_div_is_ordered(
                spec_disc_q48(j as int),
                Q48 as int,
                0x40000,
            );
            vstd::arithmetic::mul::lemma_mul_upper_bound(
                g as int,
                0xFFFFFFFFint,
                d30 as int,
                0x40000000int,
            );
            vstd::arithmetic::mul::lemma_mul_nonnegative(g as int, d30 as int);
        }
        dcg = dcg + (g as u128) * d30;
        j = j + 1;
    }
    proof {
        vstd::arithmetic::mul::lemma_mul_upper_bound(
            m as int,
            0xFFFFFFFFFFFFFFFFint,
            0x4000000000000000,
            0x4000000000000000,
        );
        vstd::arithmetic::mul::lemma_mul_upper_bound(
            m_ideal as int,
            0xFFFFFFFFFFFFFFFFint,
            0x4000000000000000,
            0x4000000000000000,
        );
    }
    Frac::new(dcg as i128, ideal as i128)
}

/// The binary-collapsed hit count of the first `m` ranked documents:
/// positions whose grade is positive.
pub open spec fn spec_graded_hits(
    ranked: Seq<(Seq<u8>, Score)>,
    qv: Seq<(Seq<u8>, u32)>,
    m: int,
) -> int
    decreases m
{
    if m <= 0 {
        0
    } else {
        spec_graded_hits(ranked, qv, m - 1) + if spec_grade(qv, ranked[m - 1].0) > 0 {
            1int
        } else {
            0int
        }
    }
}

/// The `Q48` precision-at-hits sum over the first `m` positions, with
/// "grade above zero" as the hit test.
pub open spec fn spec_graded_ap_sum(
    ranked: Seq<(Seq<u8>, Score)>,
    qv: Seq<(Seq<u8>, u32)>,
    m: int,
) -> int
    decreases m
{
    if m <= 0 {
        0
    } else {
        spec_graded_ap_sum(ranked, qv, m - 1) + if spec_grade(qv, ranked[m - 1].0) > 0 {
            spec_graded_hits(ranked, qv, m) * Q48 as int / m
        } else {
            0int
        }
    }
}

/// Number of judged documents with a positive grade.
pub open spec fn spec_positive_count(qv: Seq<(Seq<u8>, u32)>, i: int) -> int
    decreases i
{
    if i <= 0 {
        0
    } else {
        spec_positive_count(qv, i - 1) + if qv[i - 1].1 > 0 {
            1int
        } else {
            0int
        }
    }
}

/// What `compute_map` returns: the average, over the positively judged
/// documents, of the precision at each positively judged rank; zero
/// when nothing is judged relevant or nothing relevant is retrieved.
pub open spec fn spec_compute_map(ranked: Seq<(Seq<u8>, Score)>, qv: Seq<(Seq<u8>, u32)>) -> Frac {
    let n_rel = spec_positive_count(qv, qv.len() as int);
    if n_rel == 0 {
        Frac { num: 0, den: 1 }
    } else if spec_graded_hits(ranked, qv, ranked.len() as int) == 0 {
        Frac { num: 0, den: 1 }
    } else {
        Frac {
            num: spec_graded_ap_sum(ranked, qv, ranked.len() as int) as i128,
            den: (n_rel * Q48) as i128,
        }
    }
}

/// Mean average precision under graded judgments: a grade above zero
/// counts as relevant; the denominator is the number of positively
/// judged documents. No relevant judgments, or no relevant document
/// retrieved, yields zero.
pub fn compute_map(ranked: &Vec<(String, Score)>, qrels: &Vec<(String, u32)>) -> (r: Frac)
    ensures
        r == spec_compute_map(entry_views(ranked@), doc_grade_views(qrels@)),
        r.wf(),
        r.num >= 0,
        ranked@.len() == 0 ==> r.is_zero(),
{
    let ghost rv = entry_views(ranked@);
    let ghost qv = doc_grade_views(qrels@);
    // count the positively judged documents
    let mut n_rel: usize = 0;
    let mut i: usize = 0;
    while i < qrels.len()
        invariant
            i <= qrels@.len(),
            qv == doc_grade_views(qrels@),
            n_rel == spec_positive_count(qv, i as int),
            n_rel <= i,
        decreases qrels@.len() - i,
    {
        proof {
            assert(qv[i as int] == (crate::trec::string_bytes(qrels@[i as int].0), qrels@[
                i as int
            ].1));
        }
        if qrels[i].1 > 0 {
            n_rel = n_rel + 1;
        }
        i = i + 1;
    }
    if n_rel == 0 {
        return Frac::zero();
    }
    let n = ranked.len();
    let mut sum: u128 = 0;
    let mut hits: usize = 0;
    let mut j: usize = 0;
    while j < n
        invariant
            j <= n == ranked@.len(),
            rv == entry_views(ranked@),
            qv == doc_grade_views(qrels@),
            hits == spec_graded_hits(rv, qv, j as int),
            hits <= j,
            sum == spec_graded_ap_sum(rv, qv, j as int),
            sum <= j as int * Q48 as int,
        decreases n - j,
    {
        proof {
            assert(rv[j as int] == (crate::trec::string_bytes(ranked@[j as int].0), ranked@[
                j as int
            ].1));
            assert((j + 1) as int * Q48 as int == j as int * Q48 as int + Q48 as int) by {
                vstd::arithmetic::mul::lemma_mul_is_distributive_add_other_way(
                    Q48 as int,
                    j as int,
                    1,
                );
            }
        }
        let g = grade_of(qrels, &ranked[j].0);
        if g > 0 {
            hits = hits + 1;
            proof {
                vstd::arithmetic::mul::lemma_mul_inequality(
                    hits as int,
                    0x10000000000000000int,
                    Q48 as int,
                );
                vstd::arithmetic::mul::lemma_mul_inequality(
                    hits as int,
                    (j + 1) as int,
                    Q48 as int,
                );
                vstd::arithmetic::mul::lemma_mul_is_commutative((j + 1) as int, Q48 as int);
                vstd::arithmetic::div_mod::lemma_multiply_divide_le(
                    hits as int * Q48 as int,
                    (j + 1) as int,
                    Q48 as int,
                );
                vstd::arithmetic::div_mod::lemma_div_pos_is_pos(
                    hits as int * Q48 as int,
                    (j + 1) as int,
                );
            }
            let term: u128 = (hits as u128) * (Q48 as u128) / (j as u128 + 1);
            sum = sum + term;
        }
        j = j + 1;
    }
    if hits == 0 {
        return Frac::zero();
    }
    proof {
        vstd::arithmetic::mul::lemma_mul_inequality(
            n_rel as int,
            0x10000000000000000int,
            Q48 as int,
        );
        vstd::arithmetic::mul::lemma_mul_strictly_positive(n_rel as int, Q48 as int);
    }
    Frac::new(sum as i128, (n_rel as i128) * (Q48 as i128))
}

} // verus!
