//! Binary relevance evaluation metrics.
//!
//! All metrics take a ranked list of document ids (best first) and a
//! [`RelevantSet`] of ground-truth relevant ids, and report an exact
//! [`Frac`]. A document is either relevant (in the set) or not.

use vstd::prelude::*;
use crate::frac::{Frac, Q20};
use crate::fixed::{disc_q48, spec_disc_q48, Q48};
use crate::trec::{string_bytes, string_eq};

verus! {

/// The UTF-8 byte sequences of a sequence of strings. Identifiers are
/// compared at the byte level throughout (UTF-8 encoding is injective,
/// so this is exactly string equality).
pub open spec fn seq_views(v: Seq<String>) -> Seq<Seq<u8>> {
    v.map_values(|s: String| string_bytes(s))
}

/// Membership in a pushed sequence is membership in the base or equality
/// with the pushed element.
pub proof fn lemma_contains_push(s: Seq<Seq<u8>>, x: Seq<u8>, id: Seq<u8>)
    ensures
        s.push(x).contains(id) <==> (s.contains(id) || id == x),
{
    if s.push(x).contains(id) {
        let w = choose|w: int| 0 <= w < s.push(x).len() && s.push(x)[w] == id;
        if w < s.len() {
            assert(s[w] == id);
        }
    }
    if s.contains(id) {
        let w = choose|w: int| 0 <= w < s.len() && s[w] == id;
        assert(s.push(x)[w] == id);
    }
    if id == x {
        assert(s.push(x)[s.len() as int] == id);
    }
}

/// First-occurrence deduplication of an id sequence.
pub open spec fn spec_dedup(v: Seq<Seq<u8>>, i: int) -> Seq<Seq<u8>>
    decreases i
{
    if i <= 0 {
        Seq::empty()
    } else {
        let prev = spec_dedup(v, i - 1);
        if prev.contains(v[i - 1]) {
            prev
        } else {
            prev.push(v[i - 1])
        }
    }
}

/// A set of relevant document ids: a vector whose entries are pairwise
/// distinct, so its length is the cardinality of the set.
pub struct RelevantSet {
    pub docs: Vec<String>,
}

impl RelevantSet {
    /// The member ids, as byte sequences.
    pub open spec fn ids(self) -> Seq<Seq<u8>> {
        seq_views(self.docs@)
    }

    /// Well-formed: no id occurs twice.
    pub open spec fn wf(self) -> bool {
        forall|i: int, j: int| 0 <= i < j < self.ids().len() ==> self.ids()[i] != self.ids()[j]
    }

    /// Set membership.
    pub open spec fn spec_contains(self, id: Seq<u8>) -> bool {
        self.ids().contains(id)
    }

    /// Build a relevant set from a list of ids, keeping the first
    /// occurrence of each duplicate.
    pub fn from_vec(docs: Vec<String>) -> (r: RelevantSet)
        ensures
            r.wf(),
            r.ids() == spec_dedup(seq_views(docs@), docs@.len() as int),
            forall|id: Seq<u8>|
                #[trigger] r.spec_contains(id) <==> seq_views(docs@).contains(id),
    {
        let mut out: Vec<String> = Vec::new();
        let mut i: usize = 0;
        while i < docs.len()
            invariant
                i <= docs.len(),
                forall|a: int, b: int|
                    0 <= a < b < seq_views(out@).len() ==> seq_views(out@)[a] != seq_views(
                        out@,
                    )[b],
                seq_views(out@) == spec_dedup(seq_views(docs@), i as int),
                forall|id: Seq<u8>|
                    #[trigger] seq_views(out@).contains(id) <==> seq_views(
                        docs@.take(i as int),
                    ).contains(id),
            decreases docs.len() - i,
        {
            let ghost prev = out@;
            let ghost pre = seq_views(docs@.take(i as int));
            let ghost x = string_bytes(docs@[i as int]);
            proof {
                assert(seq_views(docs@)[i as int] == x);
            }
            let present = contains_string(&out, &docs[i]);
            if !present {
                out.push(docs[i].clone());
                proof {
                    assert(seq_views(out@) =~= seq_views(prev).push(x));
                    assert forall|a: int, b: int|
                        0 <= a < b < seq_views(out@).len() implies seq_views(out@)[a]
                        != seq_views(out@)[b] by {
                        if b == seq_views(out@).len() - 1 {
                            assert(seq_views(prev).contains(seq_views(prev)[a]));
                        }
                    }
                }
            }
            proof {
                assert(docs@.take(i + 1) =~= docs@.take(i as int).push(docs@[i as int]));
                assert(seq_views(docs@.take(i + 1)) =~= pre.push(x));
                assert forall|id: Seq<u8>|
                    #[trigger] seq_views(out@).contains(id) <==> seq_views(
                        docs@.take(i + 1),
                    ).contains(id) by {
                    lemma_contains_push(pre, x, id);
                    if !present {
                        lemma_contains_push(seq_views(prev), x, id);
                    }
                }
            }
            i = i + 1;
        }
        proof {
            assert(docs@.take(docs@.len() as int) =~= docs@);
            assert((RelevantSet { docs: out }).wf());
        }
        RelevantSet { docs: out }
    }

    /// Number of relevant documents.
    pub fn len(&self) -> (n: usize)
        ensures
            n == self.ids().len(),
    {
        self.docs.len()
    }

    /// Whether the set is empty.
    pub fn is_empty(&self) -> (b: bool)
        ensures
            b == (self.ids().len() == 0),
    {
        self.docs.len() == 0
    }

    /// Membership test.
    pub fn contains(&self, id: &String) -> (b: bool)
        ensures
            b == self.spec_contains(string_bytes(*id)),
    {
        contains_string(&self.docs, id)
    }
}

/// Linear membership scan over a vector of strings.
fn contains_string(v: &Vec<String>, id: &String) -> (b: bool)
    ensures
        b == seq_views(v@).contains(string_bytes(*id)),
{
    let mut i: usize = 0;
    while i < v.len()
        invariant
            i <= v.len(),
            forall|j: int| 0 <= j < i ==> seq_views(v@)[j] != string_bytes(*id),
        decreases v.len() - i,
    {
        proof {
            assert(seq_views(v@)[i as int] == string_bytes(v@[i as int]));
        }
        if string_eq(&v[i], id) {
            return true;
        }
        i = i + 1;
    }
    false
}

/// Number of relevant documents among the first `m` ranked positions.
/// Positions are counted, so a duplicated relevant id counts once per
/// position it occupies, exactly as the metrics define it.
pub open spec fn spec_hits(ranked: Seq<Seq<u8>>, rel: Seq<Seq<u8>>, m: int) -> int
    decreases m
{
    if m <= 0 {
        0
    } else {
        spec_hits(ranked, rel, m - 1) + if rel.contains(ranked[m - 1]) {
            1int
        } else {
            0int
        }
    }
}

/// Hit counts are between 0 and the prefix length.
pub proof fn lemma_hits_bounds(ranked: Seq<Seq<u8>>, rel: Seq<Seq<u8>>, m: int)
    ensures
        0 <= spec_hits(ranked, rel, m),
        m >= 0 ==> spec_hits(ranked, rel, m) <= m,
    decreases if m >= 0 { m } else { 0 }
{
    if m > 0 {
        lemma_hits_bounds(ranked, rel, m - 1);
    }
}

/// Hit counts never decrease as the prefix grows.
pub proof fn lemma_hits_monotone(ranked: Seq<Seq<u8>>, rel: Seq<Seq<u8>>, m1: int, m2: int)
    requires
        0 <= m1 <= m2,
    ensures
        spec_hits(ranked, rel, m1) <= spec_hits(ranked, rel, m2),
    decreases m2 - m1
{
    if m1 < m2 {
        lemma_hits_monotone(ranked, rel, m1, m2 - 1);
    }
}

/// With an empty relevant set nothing ever counts as a hit.
pub proof fn lemma_no_relevant_no_hits(ranked: Seq<Seq<u8>>, rel: Seq<Seq<u8>>, m: int)
    requires
        rel.len() == 0,
    ensures
        spec_hits(ranked, rel, m) == 0,
    decreases if m >= 0 { m } else { 0 }
{
    if m > 0 {
        lemma_no_relevant_no_hits(ranked, rel, m - 1);
    }
}

/// Count the relevant documents among the first `m` ranked positions.
fn count_hits(ranked: &Vec<String>, relevant: &RelevantSet, m: usize) -> (h: usize)
    requires
        m <= ranked@.len(),
    ensures
        h == spec_hits(seq_views(ranked@), relevant.ids(), m as int),
        h <= m,
{
    let mut h: usize = 0;
    let mut i: usize = 0;
    while i < m
        invariant
            i <= m <= ranked@.len(),
            h == spec_hits(seq_views(ranked@), relevant.ids(), i as int),
            h <= i,
        decreases m - i,
    {
        if relevant.contains(&ranked[i]) {
            proof {
                assert(seq_views(ranked@)[i as int] == string_bytes(ranked@[i as int]));
            }
            h = h + 1;
        } else {
            proof {
                assert(seq_views(ranked@)[i as int] == string_bytes(ranked@[i as int]));
            }
        }
        i = i + 1;
    }
    h
}

/// The smaller of two values.
pub open spec fn spec_min(a: int, b: int) -> int {
    if a < b {
        a
    } else {
        b
    }
}

/// What `precision_at_k` returns: hits in the top `k` over `k`, and zero
/// when `k` is zero.
pub open spec fn spec_precision_at_k(ranked: Seq<Seq<u8>>, rel: Seq<Seq<u8>>, k: int) -> Frac {
    if k <= 0 {
        Frac { num: 0, den: 1 }
    } else {
        Frac {
            num: spec_hits(ranked, rel, spec_min(k, ranked.len() as int)) as i128,
            den: k as i128,
        }
    }
}

/// Precision at `k`: the fraction of the top-`k` positions holding a
/// relevant document. `k` = 0 yields zero; a `k` beyond the list length
/// still divides by `k` (the list is simply consumed in full).
pub fn precision_at_k(ranked: &Vec<String>, relevant: &RelevantSet, k: usize) -> (r: Frac)
    ensures
        r == spec_precision_at_k(seq_views(ranked@), relevant.ids(), k as int),
        r.wf(),
        r.in_unit(),
        k == 0 ==> r.is_zero(),
        ranked@.len() == 0 ==> r.is_zero(),
        relevant.ids().len() == 0 ==> r.is_zero(),
{
    if k == 0 {
        return Frac::zero();
    }
    let m = if k < ranked.len() {
        k
    } else {
        ranked.len()
    };
    let h = count_hits(ranked, relevant, m);
    proof {
        lemma_hits_bounds(seq_views(ranked@), relevant.ids(), m as int);
        if relevant.ids().len() == 0 {
            lemma_no_relevant_no_hits(seq_views(ranked@), relevant.ids(), m as int);
        }
    }
    Frac::new(h as i128, k as i128)
}

/// What `recall_at_k` returns: hits in the top `k` over the number of
/// relevant documents, and zero when there are none.
pub open spec fn spec_recall_at_k(ranked: Seq<Seq<u8>>, rel: Seq<Seq<u8>>, k: int) -> Frac {
    if rel.len() == 0 {
        Frac { num: 0, den: 1 }
    } else {
        Frac {
            num: spec_hits(ranked, rel, spec_min(k, ranked.len() as int)) as i128,
            den: rel.len() as i128,
        }
    }
}

/// Recall at `k`: the fraction of the relevant documents found in the
/// top `k`. An empty relevant set yields zero.
pub fn recall_at_k(ranked: &Vec<String>, relevant: &RelevantSet, k: usize) -> (r: Frac)
    ensures
        r == spec_recall_at_k(seq_views(ranked@), relevant.ids(), k as int),
        r.wf(),
        r.num >= 0,
        ranked@.len() == 0 ==> r.is_zero(),
        relevant.ids().len() == 0 ==> r.is_zero(),
{
    if relevant.is_empty() {
        return Frac::zero();
    }
    let m = if k < ranked.len() {
        k
    } else {
        ranked.len()
    };
    let h = count_hits(ranked, relevant, m);
    proof {
        lemma_hits_bounds(seq_views(ranked@), relevant.ids(), m as int);
    }
    Frac::new(h as i128, relevant.len() as i128)
}

/// Index of the first relevant document in positions `i..m` of the
/// ranking, or `m` if there is none.
pub open spec fn spec_first_hit_from(
    ranked: Seq<Seq<u8>>,
    rel: Seq<Seq<u8>>,
    i: int,
    m: int,
) -> int
    decreases m - i
{
    if i >= m {
        m
    } else if rel.contains(ranked[i]) {
        i
    } else {
        spec_first_hit_from(ranked, rel, i + 1, m)
    }
}

/// Scan for the first relevant document among the first `m` positions;
/// returns `m` when none is found.
fn first_hit(ranked: &Vec<String>, relevant: &RelevantSet, m: usize) -> (f: usize)
    requires
        m <= ranked@.len(),
    ensures
        f == spec_first_hit_from(seq_views(ranked@), relevant.ids(), 0, m as int),
        f <= m,
        f < m ==> relevant.ids().contains(seq_views(ranked@)[f as int]),
{
    let mut i: usize = 0;
    while i < m
        invariant
            i <= m <= ranked@.len(),
            spec_first_hit_from(seq_views(ranked@), relevant.ids(), 0, m as int)
                == spec_first_hit_from(seq_views(ranked@), relevant.ids(), i as int, m as int),
        decreases m - i,
    {
        proof {
            assert(seq_views(ranked@)[i as int] == string_bytes(ranked@[i as int]));
        }
        if relevant.contains(&ranked[i]) {
            return i;
        }
        i = i + 1;
    }
    m
}

/// What `mrr` returns: the reciprocal of the 1-based rank of the first
/// relevant document, or zero when none occurs.
pub open spec fn spec_mrr(ranked: Seq<Seq<u8>>, rel: Seq<Seq<u8>>) -> Frac {
    let f = spec_first_hit_from(ranked, rel, 0, ranked.len() as int);
    if f < ranked.len() {
        Frac { num: 1, den: (f + 1) as i128 }
    } else {
        Frac { num: 0, den: 1 }
    }
}

/// Reciprocal rank of the first relevant document (1-based); zero when
/// no relevant document appears. Averaged across queries this is MRR.
pub fn mrr(ranked: &Vec<String>, relevant: &RelevantSet) -> (r: Frac)
    ensures
        r == spec_mrr(seq_views(ranked@), relevant.ids()),
        r.wf(),
        r.in_unit(),
        ranked@.len() == 0 ==> r.is_zero(),
        relevant.ids().len() == 0 ==> r.is_zero(),
{
    let n = ranked.len();
    let f = first_hit(ranked, relevant, n);
    if f < n {
        Frac::new(1, f as i128 + 1)
    } else {
        Frac::zero()
    }
}

/// The fixed-point DCG of the first `m` positions: each relevant
/// position `i` contributes the rank discount `1/log2(i + 2)` in `Q48`.
pub open spec fn spec_dcg_sum(ranked: Seq<Seq<u8>>, rel: Seq<Seq<u8>>, m: int) -> int
    decreases m
{
    if m <= 0 {
        0
    } else {
        spec_dcg_sum(ranked, rel, m - 1) + if rel.contains(ranked[m - 1]) {
            spec_disc_q48(m - 1)
        } else {
            0int
        }
    }
}

/// The fixed-point ideal DCG over `m` leading positions: every position
/// counts, i.e. the sum of the first `m` rank discounts.
pub open spec fn spec_idcg_sum(m: int) -> int
    decreases m
{
    if m <= 0 {
        0
    } else {
        spec_idcg_sum(m - 1) + spec_disc_q48(m - 1)
    }
}

/// What `dcg_at_k` returns: the `Q48` DCG sum over `Q48`.
pub open spec fn spec_dcg_at_k(ranked: Seq<Seq<u8>>, rel: Seq<Seq<u8>>, k: int) -> Frac {
    Frac {
        num: spec_dcg_sum(ranked, rel, spec_min(k, ranked.len() as int)) as i128,
        den: Q48 as i128,
    }
}

/// Discounted cumulative gain over the top `k` positions, with binary
/// gains: relevant positions contribute `1/log2(position + 2)`.
pub fn dcg_at_k(ranked: &Vec<String>, relevant: &RelevantSet, k: usize) -> (r: Frac)
    ensures
        r == spec_dcg_at_k(seq_views(ranked@), relevant.ids(), k as int),
        r.wf(),
        r.num >= 0,
        ranked@.len() == 0 ==> r.is_zero(),
        relevant.ids().len() == 0 ==> r.is_zero(),
{
    let m = if k < ranked.len() {
        k
    } else {
        ranked.len()
    };
    let sum = dcg_loop(ranked, relevant, m);
    proof {
        if relevant.ids().len() == 0 {
            lemma_no_relevant_dcg_zero(seq_views(ranked@), relevant.ids(), m as int);
        }
    }
    Frac::new(sum as i128, Q48 as i128)
}

/// With an empty relevant set the DCG sum is zero.
pub proof fn lemma_no_relevant_dcg_zero(ranked: Seq<Seq<u8>>, rel: Seq<Seq<u8>>, m: int)
    requires
        rel.len() == 0,
    ensures
        spec_dcg_sum(ranked, rel, m) == 0,
    decreases if m >= 0 { m } else { 0 }
{
    if m > 0 {
        lemma_no_relevant_dcg_zero(ranked, rel, m - 1);
    }
}

/// Accumulate the binary DCG sum over the first `m` positions.
fn dcg_loop(ranked: &Vec<String>, relevant: &RelevantSet, m: usize) -> (sum: u128)
    requires
        m <= ranked@.len(),
    ensures
        sum == spec_dcg_sum(seq_views(ranked@), relevant.ids(), m as int),
        sum <= m as int * Q48 as int,
{
    let mut sum: u128 = 0;
    let mut i: usize = 0;
    while i < m
        invariant
            i <= m <= ranked@.len(),
            sum == spec_dcg_sum(seq_views(ranked@), relevant.ids(), i as int),
            sum <= i as int * Q48 as int,
        decreases m - i,
    {
        proof {
            assert(seq_views(ranked@)[i as int] == string_bytes(ranked@[i as int]));
            assert((i + 1) as int * Q48 as int == i as int * Q48 as int + Q48 as int) by {
                vstd::arithmetic::mul::lemma_mul_is_distributive_add_other_way(
                    Q48 as int,
                    i as int,
                    1,
                );
            }
        }
        if relevant.contains(&ranked[i]) {
            let d = disc_q48(i);
            sum = sum + d;
        }
        i = i + 1;
    }
    sum
}

/// Accumulate the ideal DCG sum over `m` leading positions.
fn idcg_loop(m: usize) -> (sum: u128)
    ensures
        sum == spec_idcg_sum(m as int),
        sum <= m as int * Q48 as int,
        sum >= m as int,
{
    let mut sum: u128 = 0;
    let mut i: usize = 0;
    while i < m
        invariant
            i <= m,
            sum == spec_idcg_sum(i as int),
            sum <= i as int * Q48 as int,
            sum >= i as int,
        decreases m - i,
    {
        proof {
            assert((i + 1) as int * Q48 as int == i as int * Q48 as int + Q48 as int) by {
                vstd::arithmetic::mul::lemma_mul_is_distributive_add_other_way(
                    Q48 as int,
                    i as int,
                    1,
                );
            }
        }
        let d = disc_q48(i);
        sum = sum + d;
        i = i + 1;
    }
    sum
}

/// What `idcg_at_k` returns: the sum of the first `min(k, n_relevant)`
/// rank discounts, over `Q48`.
pub open spec fn spec_idcg_at_k(n_relevant: int, k: int) -> Frac {
    Frac { num: spec_idcg_sum(spec_min(k, n_relevant)) as i128, den: Q48 as i128 }
}

/// Ideal DCG at `k`: the DCG of a ranking whose first `min(k,
/// n_relevant)` positions are all relevant. Zero relevant documents
/// yield exactly zero.
pub fn idcg_at_k(n_relevant: usize, k: usize) -> (r: Frac)
    ensures
        r == spec_idcg_at_k(n_relevant as int, k as int),
        r.wf(),
        r.num >= 0,
        n_relevant == 0 ==> r.is_zero(),
        k == 0 ==> r.is_zero(),
        (n_relevant > 0 && k > 0) ==> !r.is_zero(),
{
    let m = if k < n_relevant {
        k
    } else {
        n_relevant
    };
    let sum = idcg_loop(m);
    Frac::new(sum as i128, Q48 as i128)
}

/// What `ndcg_at_k` returns: the DCG sum over the ideal DCG sum, and
/// zero whenever the ideal is zero.
pub open spec fn spec_ndcg_at_k(ranked: Seq<Seq<u8>>, rel: Seq<Seq<u8>>, k: int) -> Frac {
    if spec_min(k, rel.len() as int) <= 0 {
        Frac { num: 0, den: 1 }
    } else {
        Frac {
            num: spec_dcg_sum(ranked, rel, spec_min(k, ranked.len() as int)) as i128,
            den: spec_idcg_sum(spec_min(k, rel.len() as int)) as i128,
        }
    }
}

/// Normalized DCG at `k`: DCG divided by the ideal DCG. A zero ideal
/// (no relevant documents, or `k` = 0) yields zero rather than a
/// division by zero.
pub fn ndcg_at_k(ranked: &Vec<String>, relevant: &RelevantSet, k: usize) -> (r: Frac)
    ensures
        r == spec_ndcg_at_k(seq_views(ranked@), relevant.ids(), k as int),
        r.wf(),
        r.num >= 0,
        ranked@.len() == 0 ==> r.is_zero(),
        relevant.ids().len() == 0 ==> r.is_zero(),
        k == 0 ==> r.is_zero(),
{
    let n = relevant.len();
    let m_ideal = if k < n {
        k
    } else {
        n
    };
    if m_ideal == 0 {
        return Frac::zero();
    }
    let ideal = idcg_loop(m_ideal);
    let m = if k < ranked.len() {
        k
    } else {
        ranked.len()
    };
    let sum = dcg_loop(ranked, relevant, m);
    proof {
        if relevant.ids().len() == 0 {
            lemma_no_relevant_dcg_zero(seq_views(ranked@), relevant.ids(), m as int);
        }
    }
    Frac::new(sum as i128, ideal as i128)
}

/// The fixed-point average-precision sum over the first `m` positions:
/// each relevant position `i` contributes `hits-so-far / (i + 1)` in
/// `Q48` (truncated).
pub open spec fn spec_ap_sum(ranked: Seq<Seq<u8>>, rel: Seq<Seq<u8>>, m: int) -> int
    decreases m
{
    if m <= 0 {
        0
    } else {
        spec_ap_sum(ranked, rel, m - 1) + if rel.contains(ranked[m - 1]) {
            spec_hits(ranked, rel, m) * Q48 as int / m
        } else {
            0int
        }
    }
}

/// What `average_precision` returns: the `Q48` precision-at-hits sum
/// over `n_relevant * Q48`; zero when there are no relevant documents.
pub open spec fn spec_average_precision(ranked: Seq<Seq<u8>>, rel: Seq<Seq<u8>>) -> Frac {
    if rel.len() == 0 {
        Frac { num: 0, den: 1 }
    } else {
        Frac {
            num: spec_ap_sum(ranked, rel, ranked.len() as int) as i128,
            den: (rel.len() * Q48) as i128,
        }
    }
}

/// Average precision: the mean, over the relevant documents, of the
/// precision at each relevant position. An empty relevant set yields
/// zero.
pub fn average_precision(ranked: &Vec<String>, relevant: &RelevantSet) -> (r: Frac)
    ensures
        r == spec_average_precision(seq_views(ranked@), relevant.ids()),
        r.wf(),
        r.num >= 0,
        ranked@.len() == 0 ==> r.is_zero(),
        relevant.ids().len() == 0 ==> r.is_zero(),
{
    if relevant.is_empty() {
        return Frac::zero();
    }
    let n = ranked.len();
    let mut sum: u128 = 0;
    let mut h: usize = 0;
    let mut i: usize = 0;
    while i < n
        invariant
            i <= n == ranked@.len(),
            h == spec_hits(seq_views(ranked@), relevant.ids(), i as int),
            h <= i,
            sum == spec_ap_sum(seq_views(ranked@), relevant.ids(), i as int),
            sum <= i as int * Q48 as int,
        decreases n - i,
    {
        proof {
            assert(seq_views(ranked@)[i as int] == string_bytes(ranked@[i as int]));
            assert((i + 1) as int * Q48 as int == i as int * Q48 as int + Q48 as int) by {
                vstd::arithmetic::mul::lemma_mul_is_distributive_add_other_way(
                    Q48 as int,
                    i as int,
                    1,
                );
            }
        }
        if relevant.contains(&ranked[i]) {
            h = h + 1;
            proof {
                // h * Q48 stays within u128 and the term is at most Q48.
                vstd::arithmetic::mul::lemma_mul_inequality(
                    h as int,
                    0x10000000000000000int,
                    Q48 as int,
                );
                vstd::arithmetic::mul::lemma_mul_inequality(h as int, (i + 1) as int, Q48 as int);
                vstd::arithmetic::mul::lemma_mul_is_commutative((i + 1) as int, Q48 as int);
                vstd::arithmetic::div_mod::lemma_multiply_divide_le(
                    h as int * Q48 as int,
                    (i + 1) as int,
                    Q48 as int,
                );
                vstd::arithmetic::div_mod::lemma_div_pos_is_pos(
                    h as int * Q48 as int,
                    (i + 1) as int,
                );
            }
            let term: u128 = (h as u128) * (Q48 as u128) / (i as u128 + 1);
            sum = sum + term;
        }
        i = i + 1;
    }
    let n_rel = relevant.len();
    proof {
        vstd::arithmetic::mul::lemma_mul_inequality(
            n_rel as int,
            0x10000000000000000int,
            Q48 as int,
        );
        vstd::arithmetic::mul::lemma_mul_strictly_positive(n_rel as int, Q48 as int);
    }
    let den: i128 = (n_rel as i128) * (Q48 as i128);
    Frac::new(sum as i128, den)
}

/// What `err_at_k` returns. Under binary relevance the cascade model
/// stops at the first relevant document, so the expected reciprocal
/// rank is exactly the reciprocal rank of the first hit in the top `k`;
/// an empty relevant set (or no hit) yields zero.
pub open spec fn spec_err_at_k(ranked: Seq<Seq<u8>>, rel: Seq<Seq<u8>>, k: int) -> Frac {
    if rel.len() == 0 {
        Frac { num: 0, den: 1 }
    } else {
        let m = spec_min(k, ranked.len() as int);
        let f = spec_first_hit_from(ranked, rel, 0, m);
        if f < m {
            Frac { num: 1, den: (f + 1) as i128 }
        } else {
            Frac { num: 0, den: 1 }
        }
    }
}

/// Expected reciprocal rank over the top `k` positions (cascade user
/// model). With binary relevance the user stops at the first relevant
/// document, so this equals its reciprocal rank, or zero without one.
pub fn err_at_k(ranked: &Vec<String>, relevant: &RelevantSet, k: usize) -> (r: Frac)
    ensures
        r == spec_err_at_k(seq_views(ranked@), relevant.ids(), k as int),
        r.wf(),
        r.in_unit(),
        ranked@.len() == 0 ==> r.is_zero(),
        relevant.ids().len() == 0 ==> r.is_zero(),
        k == 0 ==> r.is_zero(),
{
    if relevant.is_empty() {
        return Frac::zero();
    }
    let m = if k < ranked.len() {
        k
    } else {
        ranked.len()
    };
    let f = first_hit(ranked, relevant, m);
    if f < m {
        Frac::new(1, f as i128 + 1)
    } else {
        Frac::zero()
    }
}

/// What `success_at_k` returns: one if any of the top `k` positions
/// holds a relevant document, else zero.
pub open spec fn spec_success_at_k(ranked: Seq<Seq<u8>>, rel: Seq<Seq<u8>>, k: int) -> Frac {
    let m = spec_min(k, ranked.len() as int);
    if spec_first_hit_from(ranked, rel, 0, m) < m {
        Frac { num: 1, den: 1 }
    } else {
        Frac { num: 0, den: 1 }
    }
}

/// Success at `k`: exactly one when at least one relevant document is
/// in the top `k`, exactly zero otherwise.
pub fn success_at_k(ranked: &Vec<String>, relevant: &RelevantSet, k: usize) -> (r: Frac)
    ensures
        r == spec_success_at_k(seq_views(ranked@), relevant.ids(), k as int),
        r.wf(),
        r.in_unit(),
        r.is_zero() || r.is_one(),
        ranked@.len() == 0 ==> r.is_zero(),
        relevant.ids().len() == 0 ==> r.is_zero(),
{
    let m = if k < ranked.len() {
        k
    } else {
        ranked.len()
    };
    let f = first_hit(ranked, relevant, m);
    proof {
        if relevant.ids().len() == 0 && f < m {
            assert(relevant.ids().contains(seq_views(ranked@)[f as int]));
            let w = choose|w: int|
                0 <= w < relevant.ids().len() && relevant.ids()[w] == seq_views(
                    ranked@,
                )[f as int];
            assert(false);
        }
    }
    if f < m {
        Frac::one()
    } else {
        Frac::zero()
    }
}

/// What `r_precision` returns: precision at a cutoff equal to the
/// number of relevant documents; zero when there are none.
pub open spec fn spec_r_precision(ranked: Seq<Seq<u8>>, rel: Seq<Seq<u8>>) -> Frac {
    if rel.len() == 0 {
        Frac { num: 0, den: 1 }
    } else {
        spec_precision_at_k(ranked, rel, rel.len() as int)
    }
}

/// R-precision: precision at `R`, where `R` is the size of the relevant
/// set. An empty relevant set yields zero.
pub fn r_precision(ranked: &Vec<String>, relevant: &RelevantSet) -> (r: Frac)
    ensures
        r == spec_r_precision(seq_views(ranked@), relevant.ids()),
        r.wf(),
        r.in_unit(),
        ranked@.len() == 0 ==> r.is_zero(),
        relevant.ids().len() == 0 ==> r.is_zero(),
{
    if relevant.is_empty() {
        return Frac::zero();
    }
    let n = relevant.len();
    precision_at_k(ranked, relevant, n)
}

/// The persistence parameter as a `Q48` fixed-point probability: the
/// `Q20` flattening scaled up by 2^28.
pub open spec fn spec_persistence_q48(p: Frac) -> int {
    p.spec_to_q20() * 0x10000000
}

/// `p^i` in `Q48` fixed point, truncated at every multiplication.
pub open spec fn spec_rbp_power(p48: int, i: nat) -> int
    decreases i
{
    if i == 0 {
        Q48 as int
    } else {
        spec_rbp_power(p48, (i - 1) as nat) * p48 / Q48 as int
    }
}

/// The `Q48` sum of `p^i` over the relevant positions `i` among the
/// first `m`.
pub open spec fn spec_rbp_sum(
    ranked: Seq<Seq<u8>>,
    rel: Seq<Seq<u8>>,
    p48: int,
    m: int,
) -> int
    decreases m
{
    if m <= 0 {
        0
    } else {
        spec_rbp_sum(ranked, rel, p48, m - 1) + if rel.contains(ranked[m - 1]) {
            spec_rbp_power(p48, (m - 1) as nat)
        } else {
            0int
        }
    }
}

/// With an empty relevant set the rank-biased sum is zero.
pub proof fn lemma_no_relevant_rbp_zero(
    ranked: Seq<Seq<u8>>,
    rel: Seq<Seq<u8>>,
    p48: int,
    m: int,
)
    requires
        rel.len() == 0,
    ensures
        spec_rbp_sum(ranked, rel, p48, m) == 0,
    decreases if m >= 0 { m } else { 0 }
{
    if m > 0 {
        lemma_no_relevant_rbp_zero(ranked, rel, p48, m - 1);
    }
}

/// What `rbp_at_k` returns: `(1 - p)` times the geometric sum over the
/// relevant top-`k` positions, all in `Q48`; a persistence outside the
/// open interval `(0, 1)` is silently rejected with zero.
pub open spec fn spec_rbp_at_k(ranked: Seq<Seq<u8>>, rel: Seq<Seq<u8>>, k: int, p: Frac) -> Frac {
    if p.num <= 0 || p.num >= p.den {
        Frac { num: 0, den: 1 }
    } else {
        let p48 = spec_persistence_q48(p);
        let s = spec_rbp_sum(ranked, rel, p48, spec_min(k, ranked.len() as int));
        Frac { num: ((Q48 as int - p48) * s / Q48 as int) as i128, den: Q48 as i128 }
    }
}

/// Rank-biased precision over the top `k` positions with persistence
/// `p`: `(1 - p) * sum of p^i` over relevant positions `i`. A
/// persistence at or outside the bounds 0 and 1 yields zero rather than
/// an error.
pub fn rbp_at_k(ranked: &Vec<String>, relevant: &RelevantSet, k: usize, persistence: Frac) -> (r:
    Frac)
    requires
        persistence.wf(),
    ensures
        r == spec_rbp_at_k(seq_views(ranked@), relevant.ids(), k as int, persistence),
        r.wf(),
        r.num >= 0,
        persistence.num <= 0 ==> r.is_zero(),
        persistence.num >= persistence.den ==> r.is_zero(),
        ranked@.len() == 0 ==> r.is_zero(),
        relevant.ids().len() == 0 ==> r.is_zero(),
        k == 0 ==> r.is_zero(),
{
    if persistence.num <= 0 || persistence.num >= persistence.den {
        return Frac::zero();
    }
    let q20 = persistence.to_q20();
    proof {
        crate::frac::lemma_to_q20_le_unit(persistence);
    }
    let p48: u128 = (q20 as u128) * 0x10000000;
    assert(p48 <= Q48);
    let m = if k < ranked.len() {
        k
    } else {
        ranked.len()
    };
    let mut sum: u128 = 0;
    let mut pw: u128 = Q48;
    let mut i: usize = 0;
    while i < m
        invariant
            i <= m <= ranked@.len(),
            p48 <= Q48,
            pw <= Q48,
            pw == spec_rbp_power(p48 as int, i as nat),
            sum == spec_rbp_sum(seq_views(ranked@), relevant.ids(), p48 as int, i as int),
            sum <= i as int * Q48 as int,
        decreases m - i,
    {
        proof {
            assert(seq_views(ranked@)[i as int] == string_bytes(ranked@[i as int]));
            assert((i + 1) as int * Q48 as int == i as int * Q48 as int + Q48 as int) by {
                vstd::arithmetic::mul::lemma_mul_is_distributive_add_other_way(
                    Q48 as int,
                    i as int,
                    1,
                );
            }
            vstd::arithmetic::mul::lemma_mul_upper_bound(
                pw as int,
                Q48 as int,
                p48 as int,
                Q48 as int,
            );
            vstd::arithmetic::mul::lemma_mul_nonnegative(pw as int, p48 as int);
            vstd::arithmetic::div_mod::lemma_div_pos_is_pos(pw as int * p48 as int, Q48 as int);
            vstd::arithmetic::mul::lemma_mul_is_commutative(Q48 as int, Q48 as int);
            vstd::arithmetic::div_mod::lemma_multiply_divide_le(
                pw as int * p48 as int,
                Q48 as int,
                Q48 as int,
            );
        }
        if relevant.contains(&ranked[i]) {
            sum = sum + pw;
        }
        pw = pw * p48 / Q48;
        i = i + 1;
    }
    // (1 - p) * sum, both in Q48: split the product so it fits in 128 bits.
    let c: u128 = Q48 - p48;
    let hi: u128 = sum / Q48;
    let lo: u128 = sum % Q48;
    proof {
        vstd::arithmetic::div_mod::lemma_mod_division_less_than_divisor(sum as int, Q48 as int);
        vstd::arithmetic::div_mod::lemma_div_pos_is_pos(sum as int, Q48 as int);
        vstd::arithmetic::div_mod::lemma_div_is_ordered_by_denominator(sum as int, 1, Q48 as int);
        vstd::arithmetic::mul::lemma_mul_upper_bound(
            c as int,
            Q48 as int,
            hi as int,
            0x10000000000000000int,
        );
        vstd::arithmetic::mul::lemma_mul_upper_bound(c as int, Q48 as int, lo as int, Q48 as int);
        vstd::arithmetic::mul::lemma_mul_nonnegative(c as int, hi as int);
        vstd::arithmetic::mul::lemma_mul_nonnegative(c as int, lo as int);
        vstd::arithmetic::div_mod::lemma_div_pos_is_pos(c as int * lo as int, Q48 as int);
        vstd::arithmetic::div_mod::lemma_multiply_divide_le(
            c as int * lo as int,
            Q48 as int,
            Q48 as int,
        );
        // c * sum = Q48 * (c * hi) + c * lo, so dividing by Q48 splits exactly.
        vstd::arithmetic::div_mod::lemma_fundamental_div_mod(sum as int, Q48 as int);
        assert(c as int * sum as int == Q48 as int * (c as int * hi as int) + c as int
            * lo as int) by {
            vstd::arithmetic::mul::lemma_mul_is_distributive_add(
                c as int,
                Q48 as int * hi as int,
                lo as int,
            );
            vstd::arithmetic::mul::lemma_mul_is_associative(c as int, Q48 as int, hi as int);
            vstd::arithmetic::mul::lemma_mul_is_commutative(c as int, Q48 as int);
            vstd::arithmetic::mul::lemma_mul_is_associative(Q48 as int, c as int, hi as int);
        }
        vstd::arithmetic::div_mod::lemma_hoist_over_denominator(
            c as int * lo as int,
            c as int * hi as int,
            Q48 as nat,
        );
        vstd::arithmetic::mul::lemma_mul_is_commutative(
            c as int * hi as int,
            Q48 as int,
        );
    }
    proof {
        if relevant.ids().len() == 0 {
            lemma_no_relevant_rbp_zero(
                seq_views(ranked@),
                relevant.ids(),
                p48 as int,
                m as int,
            );
        }
        if sum == 0 {
            assert(c as int * 0 == 0) by {
                vstd::arithmetic::mul::lemma_mul_by_zero_is_zero(c as int);
            }
        }
    }
    let num: u128 = c * hi + c * lo / Q48;
    Frac::new(num as i128, Q48 as i128)
}

/// The F-measure weight as a `Q20` fixed-point value: the magnitude of
/// `beta`, flattened.
pub open spec fn spec_beta_q20(beta: Frac) -> int {
    let a = if beta.num == i128::MIN {
        i128::MAX as int
    } else if beta.num < 0 {
        -(beta.num as int)
    } else {
        beta.num as int
    };
    (Frac { num: a as i128, den: beta.den }).spec_to_q20()
}

/// What `f_measure_at_k` returns. With `h` hits in the top `k`, `n`
/// relevant documents and weight `b = beta^2` (in exact `Q20` squares),
/// the harmonic combination `(1 + b) P R / (b P + R)` reduces to
/// `(Q20^2 + bn^2) h / (bn^2 n + Q20^2 k)`; zero when there are no hits.
pub open spec fn spec_f_measure_at_k(
    ranked: Seq<Seq<u8>>,
    rel: Seq<Seq<u8>>,
    k: int,
    beta: Frac,
) -> Frac {
    let h = spec_hits(ranked, rel, spec_min(k, ranked.len() as int));
    if k <= 0 || h == 0 {
        Frac { num: 0, den: 1 }
    } else {
        let bn = spec_beta_q20(beta);
        Frac {
            num: ((Q20 as int * Q20 as int + bn * bn) * h) as i128,
            den: (bn * bn * rel.len() as int + Q20 as int * Q20 as int * k) as i128,
        }
    }
}

/// F-measure at `k`: the weighted harmonic mean of precision and recall
/// at `k`. `beta` = 1 is the classic F1; larger `beta` leans toward
/// recall. When precision and recall are both zero the result is zero.
pub fn f_measure_at_k(ranked: &Vec<String>, relevant: &RelevantSet, k: usize, beta: Frac) -> (r:
    Frac)
    requires
        beta.wf(),
    ensures
        r == spec_f_measure_at_k(seq_views(ranked@), relevant.ids(), k as int, beta),
        r.wf(),
        r.num >= 0,
        k == 0 ==> r.is_zero(),
        ranked@.len() == 0 ==> r.is_zero(),
        relevant.ids().len() == 0 ==> r.is_zero(),
{
    let m = if k < ranked.len() {
        k
    } else {
        ranked.len()
    };
    let h = count_hits(ranked, relevant, m);
    proof {
        lemma_hits_bounds(seq_views(ranked@), relevant.ids(), m as int);
        if relevant.ids().len() == 0 {
            lemma_no_relevant_no_hits(seq_views(ranked@), relevant.ids(), m as int);
        }
    }
    if k == 0 || h == 0 {
        return Frac::zero();
    }
    let a: i128 = if beta.num == i128::MIN {
        i128::MAX
    } else if beta.num < 0 {
        -beta.num
    } else {
        beta.num
    };
    let bn: i128 = Frac::new(a, beta.den).to_q20();
    let n_rel = relevant.len();
    proof {
        // bn <= 2^28 and the counts are below 2^64, so all products fit.
        vstd::arithmetic::mul::lemma_mul_upper_bound(
            bn as int,
            0x10000000int,
            bn as int,
            0x10000000int,
        );
        vstd::arithmetic::mul::lemma_mul_nonnegative(bn as int, bn as int);
        vstd::arithmetic::mul::lemma_mul_upper_bound(
            (Q20 as int * Q20 as int + bn * bn) as int,
            0x200000000000000int,
            h as int,
            0x10000000000000000int,
        );
        vstd::arithmetic::mul::lemma_mul_nonnegative((Q20 as int * Q20 as int + bn * bn) as int, h as int);
        vstd::arithmetic::mul::lemma_mul_upper_bound(
            (bn * bn) as int,
            0x100000000000000int,
            n_rel as int,
            0x10000000000000000int,
        );
        vstd::arithmetic::mul::lemma_mul_nonnegative((bn * bn) as int, n_rel as int);
        vstd::arithmetic::mul::lemma_mul_upper_bound(
            (Q20 as int * Q20 as int) as int,
            0x10000000000int,
            k as int,
            0x10000000000000000int,
        );
        vstd::arithmetic::mul::lemma_mul_strictly_positive((Q20 as int * Q20 as int) as int, k as int);
    }
    let bb: i128 = bn * bn;
    let dd: i128 = Q20 * Q20;
    let num: i128 = (dd + bb) * (h as i128);
    let den: i128 = bb * (n_rel as i128) + dd * (k as i128);
    Frac::new(num, den)
}

/// All binary metrics for a single ranking, at the conventional
/// cutoffs, with persistence 0.95 for RBP and `beta` = 1 for F1.
#[derive(Clone, Debug, PartialEq, Eq, Structural)]
pub struct Metrics {
    pub precision_at_1: Frac,
    pub precision_at_5: Frac,
    pub precision_at_10: Frac,
    pub recall_at_5: Frac,
    pub recall_at_10: Frac,
    pub mrr: Frac,
    pub ndcg_at_5: Frac,
    pub ndcg_at_10: Frac,
    pub average_precision: Frac,
    pub err_at_10: Frac,
    pub rbp_at_10: Frac,
    pub f1_at_10: Frac,
    pub success_at_10: Frac,
    pub r_precision: Frac,
}

impl Metrics {
    /// Compute all metrics for one ranking.
    pub fn compute(ranked: &Vec<String>, relevant: &RelevantSet) -> (r: Metrics)
        ensures
            r.precision_at_1 == spec_precision_at_k(seq_views(ranked@), relevant.ids(), 1),
            r.precision_at_5 == spec_precision_at_k(seq_views(ranked@), relevant.ids(), 5),
            r.precision_at_10 == spec_precision_at_k(seq_views(ranked@), relevant.ids(), 10),
            r.recall_at_5 == spec_recall_at_k(seq_views(ranked@), relevant.ids(), 5),
            r.recall_at_10 == spec_recall_at_k(seq_views(ranked@), relevant.ids(), 10),
            r.mrr == spec_mrr(seq_views(ranked@), relevant.ids()),
            r.ndcg_at_5 == spec_ndcg_at_k(seq_views(ranked@), relevant.ids(), 5),
            r.ndcg_at_10 == spec_ndcg_at_k(seq_views(ranked@), relevant.ids(), 10),
            r.average_precision == spec_average_precision(seq_views(ranked@), relevant.ids()),
            r.err_at_10 == spec_err_at_k(seq_views(ranked@), relevant.ids(), 10),
            r.rbp_at_10 == spec_rbp_at_k(
                seq_views(ranked@),
                relevant.ids(),
                10,
                Frac { num: 19, den: 20 },
            ),
            r.f1_at_10 == spec_f_measure_at_k(
                seq_views(ranked@),
                relevant.ids(),
                10,
                Frac { num: 1, den: 1 },
            ),
            r.success_at_10 == spec_success_at_k(seq_views(ranked@), relevant.ids(), 10),
            r.r_precision == spec_r_precision(seq_views(ranked@), relevant.ids()),
    {
        Metrics {
            precision_at_1: precision_at_k(ranked, relevant, 1),
            precision_at_5: precision_at_k(ranked, relevant, 5),
            precision_at_10: precision_at_k(ranked, relevant, 10),
            recall_at_5: recall_at_k(ranked, relevant, 5),
            recall_at_10: recall_at_k(ranked, relevant, 10),
            mrr: mrr(ranked, relevant),
            ndcg_at_5: ndcg_at_k(ranked, relevant, 5),
            ndcg_at_10: ndcg_at_k(ranked, relevant, 10),
            average_precision: average_precision(ranked, relevant),
            err_at_10: err_at_k(ranked, relevant, 10),
            rbp_at_10: rbp_at_k(ranked, relevant, 10, Frac::new(19, 20)),
            f1_at_10: f_measure_at_k(ranked, relevant, 10, Frac::new(1, 1)),
            success_at_10: success_at_k(ranked, relevant, 10),
            r_precision: r_precision(ranked, relevant),
        }
    }
}

} // verus!
