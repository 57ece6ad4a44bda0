//! Batch evaluation across many queries.
//!
//! Given many rankings with their relevance judgments and a list of
//! metric names, compute every requested metric per query and the
//! arithmetic mean per metric across queries. An unrecognized metric
//! name is skipped for that call, not an error.

use vstd::prelude::*;
use vstd::string::StringSliceAdditionalSpecFns;
use crate::frac::{Frac, Q20};
use crate::score::Score;
use crate::binary::{
    average_precision, err_at_k, f_measure_at_k, mrr, ndcg_at_k, precision_at_k, r_precision,
    recall_at_k, rbp_at_k, seq_views, success_at_k, spec_average_precision, spec_err_at_k,
    spec_f_measure_at_k, spec_mrr, spec_ndcg_at_k, spec_precision_at_k, spec_r_precision,
    spec_rbp_at_k, spec_recall_at_k, spec_success_at_k, RelevantSet,
};
use crate::trec::{
    doc_grade_views, entry_views, grouped_qrels_views, grouped_runs_views, lemma_key_index_first,
    spec_group_qrels, spec_group_runs, spec_key_index, string_bytes, string_eq, qrel_view,
    run_view, Qrel, TrecRun, group_qrels_by_query, group_runs_by_query,
};

verus! {

/// The metric scores of one query, keyed by metric name.
pub struct QueryResults {
    pub query_id: String,
    pub metrics: Vec<(String, Frac)>,
}

/// Per-query results plus the mean of each metric across queries.
pub struct BatchResults {
    pub query_results: Vec<QueryResults>,
    pub aggregated: Vec<(String, Frac)>,
}

/// The byte-keyed view of a metric list.
pub open spec fn metrics_views(v: Seq<(String, Frac)>) -> Seq<(Seq<u8>, Frac)> {
    v.map_values(|p: (String, Frac)| (string_bytes(p.0), p.1))
}

/// The view of one query's results.
pub open spec fn qr_view(q: QueryResults) -> (Seq<u8>, Seq<(Seq<u8>, Frac)>) {
    (string_bytes(q.query_id), metrics_views(q.metrics@))
}

/// What the dispatch table computes for a metric name, or `None` for
/// an unrecognized name. `ap` and `map` are synonyms; RBP uses the
/// conventional persistence 19/20 and F1 the weight 1.
pub open spec fn spec_dispatch(name: Seq<u8>, ranked: Seq<Seq<u8>>, rel: Seq<Seq<u8>>) -> Option<
    Frac,
> {
    if name == ("ndcg@10").spec_bytes() {
        Option::Some(spec_ndcg_at_k(ranked, rel, 10))
    } else if name == ("ndcg@5").spec_bytes() {
        Option::Some(spec_ndcg_at_k(ranked, rel, 5))
    } else if name == ("precision@10").spec_bytes() {
        Option::Some(spec_precision_at_k(ranked, rel, 10))
    } else if name == ("precision@5").spec_bytes() {
        Option::Some(spec_precision_at_k(ranked, rel, 5))
    } else if name == ("precision@1").spec_bytes() {
        Option::Some(spec_precision_at_k(ranked, rel, 1))
    } else if name == ("recall@10").spec_bytes() {
        Option::Some(spec_recall_at_k(ranked, rel, 10))
    } else if name == ("recall@5").spec_bytes() {
        Option::Some(spec_recall_at_k(ranked, rel, 5))
    } else if name == ("mrr").spec_bytes() {
        Option::Some(spec_mrr(ranked, rel))
    } else if name == ("ap").spec_bytes() || name == ("map").spec_bytes() {
        Option::Some(spec_average_precision(ranked, rel))
    } else if name == ("err@10").spec_bytes() {
        Option::Some(spec_err_at_k(ranked, rel, 10))
    } else if name == ("rbp@10").spec_bytes() {
        Option::Some(spec_rbp_at_k(ranked, rel, 10, Frac { num: 19, den: 20 }))
    } else if name == ("f1@10").spec_bytes() {
        Option::Some(spec_f_measure_at_k(ranked, rel, 10, Frac { num: 1, den: 1 }))
    } else if name == ("success@10").spec_bytes() {
        Option::Some(spec_success_at_k(ranked, rel, 10))
    } else if name == ("r_precision").spec_bytes() {
        Option::Some(spec_r_precision(ranked, rel))
    } else {
        Option::None
    }
}

/// Whether a string holds exactly the named literal's text.
pub(crate) fn str_is(a: &String, lit: &str) -> (r: bool)
    ensures
        r == (string_bytes(*a) == lit.spec_bytes()),
{
    let ab = a.as_str().as_bytes();
    let lb = lit.as_bytes();
    if ab.len() != lb.len() {
        proof {
            assert(string_bytes(*a).len() != lit.spec_bytes().len());
        }
        return false;
    }
    let n = ab.len();
    let mut i: usize = 0;
    while i < n
        invariant
            i <= n,
            ab@ == string_bytes(*a),
            lb@ == lit.spec_bytes(),
            n == ab@.len() == lb@.len(),
            forall|j: int| 0 <= j < i ==> ab@[j] == lb@[j],
        decreases n - i,
    {
        if ab[i] != lb[i] {
            proof {
                assert(string_bytes(*a)[i as int] != lit.spec_bytes()[i as int]);
            }
            return false;
        }
        i = i + 1;
    }
    proof {
        assert(string_bytes(*a) =~= lit.spec_bytes());
    }
    true
}

/// Compute one named metric, or `None` for an unknown name.
pub fn compute_metric(name: &String, ranked: &Vec<String>, relevant: &RelevantSet) -> (r: Option<
    Frac,
>)
    requires
        relevant.wf(),
    ensures
        r == spec_dispatch(string_bytes(*name), seq_views(ranked@), relevant.ids()),
        r matches Option::Some(v) ==> v.wf(),
{
    if str_is(name, "ndcg@10") {
        Option::Some(ndcg_at_k(ranked, relevant, 10))
    } else if str_is(name, "ndcg@5") {
        Option::Some(ndcg_at_k(ranked, relevant, 5))
    } else if str_is(name, "precision@10") {
        Option::Some(precision_at_k(ranked, relevant, 10))
    } else if str_is(name, "precision@5") {
        Option::Some(precision_at_k(ranked, relevant, 5))
    } else if str_is(name, "precision@1") {
        Option::Some(precision_at_k(ranked, relevant, 1))
    } else if str_is(name, "recall@10") {
        Option::Some(recall_at_k(ranked, relevant, 10))
    } else if str_is(name, "recall@5") {
        Option::Some(recall_at_k(ranked, relevant, 5))
    } else if str_is(name, "mrr") {
        Option::Some(mrr(ranked, relevant))
    } else if str_is(name, "ap") || str_is(name, "map") {
        Option::Some(average_precision(ranked, relevant))
    } else if str_is(name, "err@10") {
        Option::Some(err_at_k(ranked, relevant, 10))
    } else if str_is(name, "rbp@10") {
        Option::Some(rbp_at_k(ranked, relevant, 10, Frac::new(19, 20)))
    } else if str_is(name, "f1@10") {
        Option::Some(f_measure_at_k(ranked, relevant, 10, Frac::new(1, 1)))
    } else if str_is(name, "success@10") {
        Option::Some(success_at_k(ranked, relevant, 10))
    } else if str_is(name, "r_precision") {
        Option::Some(r_precision(ranked, relevant))
    } else {
        Option::None
    }
}

/// Record a metric value under a name, overwriting an earlier value
/// for the same name (names act as map keys).
pub open spec fn spec_set_metric(
    ms: Seq<(Seq<u8>, Frac)>,
    name: Seq<u8>,
    v: Frac,
) -> Seq<(Seq<u8>, Frac)> {
    let ki = spec_key_index(ms, name);
    if ki == ms.len() {
        ms.push((name, v))
    } else {
        ms.update(ki, (name, v))
    }
}

/// The metric list of one query: every recognized requested name,
/// mapped to its value.
pub open spec fn spec_query_metrics(
    names: Seq<Seq<u8>>,
    ranked: Seq<Seq<u8>>,
    rel: Seq<Seq<u8>>,
    i: int,
) -> Seq<(Seq<u8>, Frac)>
    decreases i
{
    if i <= 0 {
        Seq::empty()
    } else {
        let prev = spec_query_metrics(names, ranked, rel, i - 1);
        match spec_dispatch(names[i - 1], ranked, rel) {
            Option::Some(v) => spec_set_metric(prev, names[i - 1], v),
            Option::None => prev,
        }
    }
}

/// Compute all requested metrics for one ranking.
fn query_metrics(metrics: &Vec<String>, ranked: &Vec<String>, relevant: &RelevantSet) -> (r: Vec<
    (String, Frac),
>)
    requires
        relevant.wf(),
    ensures
        metrics_views(r@) == spec_query_metrics(
            seq_views(metrics@),
            seq_views(ranked@),
            relevant.ids(),
            metrics@.len() as int,
        ),
        forall|j: int| 0 <= j < r@.len() ==> (#[trigger] r@[j]).1.wf(),
{
    let ghost names = seq_views(metrics@);
    let mut out: Vec<(String, Frac)> = Vec::new();
    let mut i: usize = 0;
    while i < metrics.len()
        invariant
            i <= metrics@.len(),
            names == seq_views(metrics@),
            relevant.wf(),
            metrics_views(out@) == spec_query_metrics(
                names,
                seq_views(ranked@),
                relevant.ids(),
                i as int,
            ),
            forall|j: int| 0 <= j < out@.len() ==> (#[trigger] out@[j]).1.wf(),
        decreases metrics@.len() - i,
    {
        proof {
            assert(names[i as int] == string_bytes(metrics@[i as int]));
        }
        match compute_metric(&metrics[i], ranked, relevant) {
            Option::Some(v) => {
                let ghost mv = metrics_views(out@);
                // find an existing entry for this name
                let mut p: usize = 0;
                let mut found = false;
                while p < out.len() && !found
                    invariant
                        p <= out@.len(),
                        i < metrics@.len(),
                        names == seq_views(metrics@),
                        mv == metrics_views(out@),
                        forall|j: int|
                            0 <= j < p ==> (#[trigger] mv[j]).0 != string_bytes(
                                metrics@[i as int],
                            ),
                        found ==> p < out@.len() && mv[p as int].0 == string_bytes(
                            metrics@[i as int],
                        ),
                    decreases out@.len() - p + if found { 0int } else { 1int },
                {
                    proof {
                        assert(mv[p as int].0 == string_bytes(out@[p as int].0));
                    }
                    if string_eq(&out[p].0, &metrics[i]) {
                        found = true;
                    } else {
                        p = p + 1;
                    }
                }
                proof {
                    lemma_key_index_first(mv, string_bytes(metrics@[i as int]), p as int);
                }
                if p == out.len() {
                    out.push((metrics[i].clone(), v));
                    proof {
                        assert(metrics_views(out@) =~= mv.push(
                            (string_bytes(metrics@[i as int]), v),
                        ));
                    }
                } else {
                    let ghost before = out@;
                    out.remove(p);
                    out.insert(p, (metrics[i].clone(), v));
                    proof {
                        assert(metrics_views(out@) =~= mv.update(
                            p as int,
                            (string_bytes(metrics@[i as int]), v),
                        ));
                    }
                }
            },
            Option::None => {
            },
        }
        i = i + 1;
    }
    out
}

/// The decimal digits of a non-negative number, most significant
/// first.
pub open spec fn spec_dec_bytes(n: int) -> Seq<u8>
    decreases (if n >= 0 { n } else { 0 })
{
    if n < 10 {
        seq![(48 + if n >= 0 { n } else { 0 }) as u8]
    } else {
        spec_dec_bytes(n / 10).push((48 + n % 10) as u8)
    }
}

/// The synthetic label of the `i`-th query in a positional batch.
pub open spec fn spec_query_label(i: int) -> Seq<u8> {
    seq![113u8, 117u8, 101u8, 114u8, 121u8, 95u8] + spec_dec_bytes(i)
}

/// A sequence of ASCII bytes is valid UTF-8.
pub proof fn lemma_ascii_valid(b: Seq<u8>)
    requires
        forall|i: int| 0 <= i < b.len() ==> b[i] < 128,
    ensures
        vstd::utf8::valid_utf8(b),
    decreases b.len()
{
    if b.len() != 0 {
        assert(vstd::utf8::is_leading_byte_width_1(b[0])) by {
            vstd::utf8::utf8_byte_ranges_bitwise(b[0]);
        }
        assert(vstd::utf8::valid_first_scalar(b));
        assert(vstd::utf8::length_of_first_scalar(b) == 1);
        let rest = vstd::utf8::pop_first_scalar(b);
        assert forall|i: int| 0 <= i < rest.len() implies rest[i] < 128 by {
            assert(rest[i] == b[i + 1]);
        }
        lemma_ascii_valid(rest);
    }
}

/// Decimal digits are ASCII.
proof fn lemma_dec_bytes_ascii(n: int)
    ensures
        forall|i: int|
            0 <= i < spec_dec_bytes(n).len() ==> 48 <= #[trigger] spec_dec_bytes(n)[i] < 128,
    decreases (if n >= 0 { n } else { 0 })
{
    if n >= 10 {
        lemma_dec_bytes_ascii(n / 10);
        assert forall|i: int|
            0 <= i < spec_dec_bytes(n).len() implies 48 <= #[trigger] spec_dec_bytes(n)[i]
            < 128 by {
            if i < spec_dec_bytes(n / 10).len() {
                assert(spec_dec_bytes(n)[i] == spec_dec_bytes(n / 10)[i]);
            }
        }
    }
}

/// Build the label `query_<i>`.
fn query_label(i: usize) -> (r: String)
    ensures
        string_bytes(r) == spec_query_label(i as int),
{
    let mut tmp: Vec<u8> = Vec::new();
    let mut v: usize = i;
    while v >= 10
        invariant
            spec_dec_bytes(i as int) == spec_dec_bytes(v as int) + tmp@.reverse(),
            forall|j: int| 0 <= j < tmp@.len() ==> 48 <= #[trigger] tmp@[j] < 128,
        decreases v,
    {
        let d: u8 = 48 + (v % 10) as u8;
        let ghost old_tmp = tmp@;
        tmp.push(d);
        proof {
            assert(tmp@.reverse() =~= seq![d] + old_tmp.reverse());
            assert(spec_dec_bytes(v as int) == spec_dec_bytes(v as int / 10).push(d));
            assert(spec_dec_bytes(v as int / 10).push(d) + old_tmp.reverse() =~= spec_dec_bytes(
                v as int / 10,
            ) + tmp@.reverse());
        }
        v = v / 10;
    }
    let mut out: Vec<u8> = Vec::new();
    out.push(113);
    out.push(117);
    out.push(101);
    out.push(114);
    out.push(121);
    out.push(95);
    out.push(48 + v as u8);
    proof {
        assert(spec_dec_bytes(v as int) =~= seq![(48 + v) as u8]);
        assert(out@ =~= seq![113u8, 117u8, 101u8, 114u8, 121u8, 95u8] + spec_dec_bytes(v as int));
        assert(out@ + tmp@.reverse() =~= seq![113u8, 117u8, 101u8, 114u8, 121u8, 95u8] + (
        spec_dec_bytes(v as int) + tmp@.reverse()));
        assert(out@ + tmp@.reverse() =~= spec_query_label(i as int));
    }
    while tmp.len() > 0
        invariant
            out@ + tmp@.reverse() == spec_query_label(i as int),
            forall|j: int| 0 <= j < tmp@.len() ==> 48 <= #[trigger] tmp@[j] < 128,
            forall|j: int| 0 <= j < out@.len() ==> #[trigger] out@[j] < 128,
        decreases tmp@.len(),
    {
        let ghost before = tmp@;
        let d = tmp.pop().unwrap();
        out.push(d);
        proof {
            assert(before.reverse() =~= seq![d] + tmp@.reverse());
            assert(out@ + tmp@.reverse() =~= spec_query_label(i as int));
        }
    }
    proof {
        assert(out@ + tmp@.reverse() =~= out@);
        lemma_ascii_valid(out@);
    }
    crate::trec::bytes_to_string(&out)
}

/// The views of a list of query results.
pub open spec fn qrs_views(v: Seq<QueryResults>) -> Seq<(Seq<u8>, Seq<(Seq<u8>, Frac)>)> {
    v.map_values(|q: QueryResults| qr_view(q))
}

/// Whether a query's metric list holds the named metric.
pub open spec fn spec_has_metric(ms: Seq<(Seq<u8>, Frac)>, name: Seq<u8>) -> bool {
    spec_key_index(ms, name) < ms.len()
}

/// The named metric's value in a query's list.
pub open spec fn spec_metric_value(ms: Seq<(Seq<u8>, Frac)>, name: Seq<u8>) -> Frac {
    ms[spec_key_index(ms, name)].1
}

/// How many of the first `j` queries produced the named metric.
pub open spec fn spec_count_with(
    qrs: Seq<(Seq<u8>, Seq<(Seq<u8>, Frac)>)>,
    name: Seq<u8>,
    j: int,
) -> int
    decreases j
{
    if j <= 0 {
        0
    } else {
        spec_count_with(qrs, name, j - 1) + if spec_has_metric(qrs[j - 1].1, name) {
            1int
        } else {
            0int
        }
    }
}

/// The `Q20` sum of the named metric over the first `j` queries that
/// produced it.
pub open spec fn spec_sum_q20(
    qrs: Seq<(Seq<u8>, Seq<(Seq<u8>, Frac)>)>,
    name: Seq<u8>,
    j: int,
) -> int
    decreases j
{
    if j <= 0 {
        0
    } else {
        spec_sum_q20(qrs, name, j - 1) + if spec_has_metric(qrs[j - 1].1, name) {
            spec_metric_value(qrs[j - 1].1, name).spec_to_q20()
        } else {
            0int
        }
    }
}

/// The aggregated means: for each requested name (first occurrence
/// only), the mean over the queries that produced it, on the common
/// `Q20` scale; a name no query produced gets no entry.
pub open spec fn spec_aggregate(
    names: Seq<Seq<u8>>,
    qrs: Seq<(Seq<u8>, Seq<(Seq<u8>, Frac)>)>,
    i: int,
) -> Seq<(Seq<u8>, Frac)>
    decreases i
{
    if i <= 0 {
        Seq::empty()
    } else {
        let prev = spec_aggregate(names, qrs, i - 1);
        let nm = names[i - 1];
        if names.take(i - 1).contains(nm) {
            prev
        } else {
            let cnt = spec_count_with(qrs, nm, qrs.len() as int);
            if cnt == 0 {
                prev
            } else {
                prev.push(
                    (
                        nm,
                        Frac {
                            num: spec_sum_q20(qrs, nm, qrs.len() as int) as i128,
                            den: (cnt * Q20) as i128,
                        },
                    ),
                )
            }
        }
    }
}

/// All stored metric values are well-formed fractions.
pub open spec fn results_wf(v: Seq<QueryResults>) -> bool {
    forall|q: int, j: int|
        0 <= q < v.len() && 0 <= j < v[q].metrics@.len() ==> (#[trigger] v[q].metrics@[j]).1.wf()
}

/// Look the named metric up in one query's list.
fn find_metric(ms: &Vec<(String, Frac)>, name: &String) -> (r: Option<Frac>)
    ensures
        spec_has_metric(metrics_views(ms@), string_bytes(*name)) ==> r == Option::Some(
            spec_metric_value(metrics_views(ms@), string_bytes(*name)),
        ),
        !spec_has_metric(metrics_views(ms@), string_bytes(*name)) ==> r is None,
        r matches Option::Some(v) ==> exists|j: int|
            0 <= j < ms@.len() && (#[trigger] ms@[j]).1 == v,
{
    let ghost mv = metrics_views(ms@);
    let mut p: usize = 0;
    let mut found = false;
    let mut val = Frac::zero();
    while p < ms.len() && !found
        invariant
            p <= ms@.len(),
            mv == metrics_views(ms@),
            forall|j: int| 0 <= j < p ==> (#[trigger] mv[j]).0 != string_bytes(*name),
            found ==> p < ms@.len() && mv[p as int].0 == string_bytes(*name) && val == mv[
                p as int
            ].1,
        decreases ms@.len() - p + if found { 0int } else { 1int },
    {
        proof {
            assert(mv[p as int] == (string_bytes(ms@[p as int].0), ms@[p as int].1));
        }
        if string_eq(&ms[p].0, name) {
            found = true;
            val = ms[p].1;
        } else {
            p = p + 1;
        }
    }
    proof {
        lemma_key_index_first(mv, string_bytes(*name), p as int);
    }
    if found {
        proof {
            assert(ms@[p as int].1 == val);
        }
        Option::Some(val)
    } else {
        Option::None
    }
}

/// Compute the per-metric means across queries.
fn aggregate(metrics: &Vec<String>, results: &Vec<QueryResults>) -> (r: Vec<(String, Frac)>)
    requires
        results_wf(results@),
    ensures
        metrics_views(r@) == spec_aggregate(
            seq_views(metrics@),
            qrs_views(results@),
            metrics@.len() as int,
        ),
{
    let ghost names = seq_views(metrics@);
    let ghost qrv = qrs_views(results@);
    let mut out: Vec<(String, Frac)> = Vec::new();
    let mut i: usize = 0;
    while i < metrics.len()
        invariant
            i <= metrics@.len(),
            names == seq_views(metrics@),
            qrv == qrs_views(results@),
            results_wf(results@),
            metrics_views(out@) == spec_aggregate(names, qrv, i as int),
        decreases metrics@.len() - i,
    {
        proof {
            assert(names[i as int] == string_bytes(metrics@[i as int]));
        }
        // skip names already aggregated
        let mut dup = false;
        let mut j: usize = 0;
        while j < i && !dup
            invariant
                j <= i < metrics@.len(),
                names == seq_views(metrics@),
                forall|w: int| 0 <= w < j ==> names[w] != names[i as int],
                dup ==> j < i && names[j as int] == names[i as int],
            decreases i - j + if dup { 0int } else { 1int },
        {
            proof {
                assert(names[j as int] == string_bytes(metrics@[j as int]));
            }
            if string_eq(&metrics[j], &metrics[i]) {
                dup = true;
            } else {
                j = j + 1;
            }
        }
        proof {
            if dup {
                assert(names.take(i as int)[j as int] == names[i as int]);
                assert(names.take(i as int).contains(names[i as int]));
            } else {
                if names.take(i as int).contains(names[i as int]) {
                    let w = choose|w: int|
                        0 <= w < i && names.take(i as int)[w] == names[i as int];
                    assert(names[w] == names[i as int]);
                    assert(false);
                }
            }
        }
        if !dup {
            // sum this metric over the queries that produced it
            let mut cnt: usize = 0;
            let mut sum: i128 = 0;
            let mut q: usize = 0;
            while q < results.len()
                invariant
                    q <= results@.len(),
                    i < metrics@.len(),
                    names == seq_views(metrics@),
                    qrv == qrs_views(results@),
                    results_wf(results@),
                    cnt == spec_count_with(qrv, names[i as int], q as int),
                    cnt <= q,
                    sum == spec_sum_q20(qrv, names[i as int], q as int),
                    0 <= sum <= q as int * crate::frac::Q20_CAP as int,
                decreases results@.len() - q,
            {
                proof {
                    assert(qrv[q as int] == qr_view(results@[q as int]));
                    assert((q + 1) as int * crate::frac::Q20_CAP as int == q as int
                        * crate::frac::Q20_CAP as int + crate::frac::Q20_CAP as int) by {
                        vstd::arithmetic::mul::lemma_mul_is_distributive_add_other_way(
                            crate::frac::Q20_CAP as int,
                            q as int,
                            1,
                        );
                    }
                }
                match find_metric(&results[q].metrics, &metrics[i]) {
                    Option::Some(v) => {
                        proof {
                            let w = choose|j: int|
                                0 <= j < results@[q as int].metrics@.len() && (#[trigger] results@[
                                    q as int
                                ].metrics@[j]).1 == v;
                            assert(v.wf());
                        }
                        cnt = cnt + 1;
                        sum = sum + v.to_q20();
                    },
                    Option::None => {
                    },
                }
                q = q + 1;
            }
            if cnt > 0 {
                proof {
                    vstd::arithmetic::mul::lemma_mul_strictly_positive(cnt as int, Q20 as int);
                    vstd::arithmetic::mul::lemma_mul_inequality(
                        cnt as int,
                        0x10000000000000000int,
                        Q20 as int,
                    );
                }
                let ghost before = metrics_views(out@);
                out.push((metrics[i].clone(), Frac::new(sum, (cnt as i128) * Q20)));
                proof {
                    assert(metrics_views(out@) =~= before.push(
                        (
                            names[i as int],
                            Frac {
                                num: spec_sum_q20(qrv, names[i as int], qrv.len() as int) as i128,
                                den: (spec_count_with(qrv, names[i as int], qrv.len() as int)
                                    * Q20) as i128,
                            },
                        ),
                    ));
                }
            }
        }
        i = i + 1;
    }
    out
}

/// Evaluate a batch of rankings under binary relevance: for each
/// ranking and its relevant set, every recognized requested metric;
/// then the per-metric means. Query `q` is labeled `query_q`.
pub fn evaluate_batch_binary(
    rankings: &Vec<Vec<String>>,
    qrels: &Vec<RelevantSet>,
    metrics: &Vec<String>,
) -> (r: BatchResults)
    requires
        rankings@.len() == qrels@.len(),
        forall|q: int| 0 <= q < qrels@.len() ==> (#[trigger] qrels@[q]).wf(),
    ensures
        r.query_results@.len() == rankings@.len(),
        forall|q: int|
            0 <= q < rankings@.len() ==> #[trigger] qr_view(r.query_results@[q]) == (
                spec_query_label(q),
                spec_query_metrics(
                    seq_views(metrics@),
                    seq_views(rankings@[q]@),
                    qrels@[q].ids(),
                    metrics@.len() as int,
                ),
            ),
        metrics_views(r.aggregated@) == spec_aggregate(
            seq_views(metrics@),
            qrs_views(r.query_results@),
            metrics@.len() as int,
        ),
{
    let mut query_results: Vec<QueryResults> = Vec::new();
    let mut q: usize = 0;
    while q < rankings.len()
        invariant
            q <= rankings@.len() == qrels@.len(),
            forall|w: int| 0 <= w < qrels@.len() ==> (#[trigger] qrels@[w]).wf(),
            query_results@.len() == q,
            results_wf(query_results@),
            forall|w: int|
                0 <= w < q ==> #[trigger] qr_view(query_results@[w]) == (
                    spec_query_label(w),
                    spec_query_metrics(
                        seq_views(metrics@),
                        seq_views(rankings@[w]@),
                        qrels@[w].ids(),
                        metrics@.len() as int,
                    ),
                ),
        decreases rankings@.len() - q,
    {
        let ms = query_metrics(metrics, &rankings[q], &qrels[q]);
        let label = query_label(q);
        let ghost before = query_results@;
        query_results.push(QueryResults { query_id: label, metrics: ms });
        proof {
            assert forall|w: int| 0 <= w < q + 1 implies #[trigger] qr_view(query_results@[w])
                == (
                spec_query_label(w),
                spec_query_metrics(
                    seq_views(metrics@),
                    seq_views(rankings@[w]@),
                    qrels@[w].ids(),
                    metrics@.len() as int,
                ),
            ) by {
                if w < q {
                    assert(query_results@[w] == before[w]);
                }
            }
        }
        q = q + 1;
    }
    let aggregated = aggregate(metrics, &query_results);
    BatchResults { query_results, aggregated }
}

/// The document ids of a scored list, in order.
pub open spec fn spec_entry_ids(es: Seq<(Seq<u8>, Score)>) -> Seq<Seq<u8>> {
    es.map_values(|e: (Seq<u8>, Score)| e.0)
}

/// The positively judged document ids of a judgment map, in order.
pub open spec fn spec_positive_docs(docs: Seq<(Seq<u8>, u32)>, i: int) -> Seq<Seq<u8>>
    decreases i
{
    if i <= 0 {
        Seq::empty()
    } else {
        let prev = spec_positive_docs(docs, i - 1);
        if docs[i - 1].1 > 0 {
            prev.push(docs[i - 1].0)
        } else {
            prev
        }
    }
}

/// The per-query results of a grouped evaluation: for each query with
/// judgments (in grouping order), take its first run tag's ranked
/// list, build the relevant set from the positive grades, and compute
/// the requested metrics; queries without runs are skipped entirely.
pub open spec fn spec_trec_query_results(
    gr: Seq<(Seq<u8>, Seq<(Seq<u8>, Seq<(Seq<u8>, Score)>)>)>,
    gq: Seq<(Seq<u8>, Seq<(Seq<u8>, u32)>)>,
    names: Seq<Seq<u8>>,
    i: int,
) -> Seq<(Seq<u8>, Seq<(Seq<u8>, Frac)>)>
    decreases i
{
    if i <= 0 {
        Seq::empty()
    } else {
        let prev = spec_trec_query_results(gr, gq, names, i - 1);
        let qid = gq[i - 1].0;
        let docs = gq[i - 1].1;
        let qi = spec_key_index(gr, qid);
        if qi == gr.len() {
            prev
        } else {
            let tags = gr[qi].1;
            if tags.len() == 0 {
                prev
            } else {
                let ranked = spec_entry_ids(tags[0].1);
                let pos = spec_positive_docs(docs, docs.len() as int);
                let rel = crate::binary::spec_dedup(pos, pos.len() as int);
                prev.push((qid, spec_query_metrics(names, ranked, rel, names.len() as int)))
            }
        }
    }
}

/// Evaluate grouped TREC data: group the runs by query and tag and
/// the judgments by query and document; evaluate, per judged query,
/// the first run tag's ranking against the positively judged
/// documents; skip queries with no runs; then aggregate the means.
pub fn evaluate_trec_batch(runs: &Vec<TrecRun>, qrels: &Vec<Qrel>, metrics: &Vec<String>) -> (r:
    BatchResults)
    requires
        forall|j: int| 0 <= j < runs@.len() ==> (#[trigger] runs@[j]).score.wf(),
    ensures
        qrs_views(r.query_results@) == spec_trec_query_results(
            spec_group_runs(runs@.map_values(|t: TrecRun| run_view(t)), runs@.len() as int),
            spec_group_qrels(qrels@.map_values(|t: Qrel| qrel_view(t)), qrels@.len() as int),
            seq_views(metrics@),
            spec_group_qrels(
                qrels@.map_values(|t: Qrel| qrel_view(t)),
                qrels@.len() as int,
            ).len() as int,
        ),
        metrics_views(r.aggregated@) == spec_aggregate(
            seq_views(metrics@),
            qrs_views(r.query_results@),
            metrics@.len() as int,
        ),
{
    let grouped_runs = group_runs_by_query(runs);
    let grouped_qrels = group_qrels_by_query(qrels);
    let ghost gr = grouped_runs_views(grouped_runs@);
    let ghost gq = grouped_qrels_views(grouped_qrels@);
    let mut query_results: Vec<QueryResults> = Vec::new();
    let mut i: usize = 0;
    while i < grouped_qrels.len()
        invariant
            i <= grouped_qrels@.len(),
            gr == grouped_runs_views(grouped_runs@),
            gq == grouped_qrels_views(grouped_qrels@),
            results_wf(query_results@),
            qrs_views(query_results@) == spec_trec_query_results(
                gr,
                gq,
                seq_views(metrics@),
                i as int,
            ),
        decreases grouped_qrels@.len() - i,
    {
        let pair = &grouped_qrels[i];
        proof {
            assert(gq[i as int] == (string_bytes(grouped_qrels@[i as int].0), doc_grade_views(
                grouped_qrels@[i as int].1@,
            )));
        }
        // find this query's runs
        let mut qi: usize = 0;
        let mut found = false;
        while qi < grouped_runs.len() && !found
            invariant
                qi <= grouped_runs@.len(),
                i < grouped_qrels@.len(),
                pair == grouped_qrels@[i as int],
                gr == grouped_runs_views(grouped_runs@),
                forall|j: int|
                    0 <= j < qi ==> (#[trigger] gr[j]).0 != string_bytes(
                        grouped_qrels@[i as int].0,
                    ),
                found ==> qi < grouped_runs@.len() && gr[qi as int].0 == string_bytes(
                    grouped_qrels@[i as int].0,
                ),
            decreases grouped_runs@.len() - qi + if found { 0int } else { 1int },
        {
            proof {
                assert(gr[qi as int].0 == string_bytes(grouped_runs@[qi as int].0));
            }
            if string_eq(&grouped_runs[qi].0, &pair.0) {
                found = true;
            } else {
                qi = qi + 1;
            }
        }
        proof {
            lemma_key_index_first(gr, string_bytes(grouped_qrels@[i as int].0), qi as int);
        }
        if found && grouped_runs[qi].1.len() > 0 {
            let entries = &grouped_runs[qi].1[0].1;
            proof {
                assert(gr[qi as int].1 == crate::trec::tag_views(grouped_runs@[qi as int].1@));
                assert(gr[qi as int].1[0] == (string_bytes(grouped_runs@[qi as int].1@[0].0),
                entry_views(grouped_runs@[qi as int].1@[0].1@)));
            }
            // the ranked document ids, in stored (descending score) order
            let mut ranked: Vec<String> = Vec::new();
            proof {
                assert(seq_views(ranked@) =~= spec_entry_ids(entry_views(entries@)).take(0));
            }
            let mut j: usize = 0;
            while j < entries.len()
                invariant
                    j <= entries@.len(),
                    seq_views(ranked@) == spec_entry_ids(entry_views(entries@)).take(j as int),
                decreases entries@.len() - j,
            {
                let ghost before = seq_views(ranked@);
                ranked.push(entries[j].0.clone());
                proof {
                    assert(entry_views(entries@)[j as int] == (string_bytes(entries@[j as int].0),
                    entries@[j as int].1));
                    assert(spec_entry_ids(entry_views(entries@))[j as int] == string_bytes(
                        entries@[j as int].0,
                    ));
                    assert(seq_views(ranked@) =~= before.push(
                        string_bytes(entries@[j as int].0),
                    ));
                    assert(seq_views(ranked@) =~= spec_entry_ids(entry_views(entries@)).take(
                        j + 1,
                    ));
                }
                j = j + 1;
            }
            proof {
                assert(spec_entry_ids(entry_views(entries@)).take(entries@.len() as int)
                    =~= spec_entry_ids(entry_views(entries@)));
            }
            // the positively judged documents form the relevant set
            let docs = &pair.1;
            let mut pos: Vec<String> = Vec::new();
            proof {
                assert(seq_views(pos@) =~= Seq::<Seq<u8>>::empty());
            }
            let mut d: usize = 0;
            while d < docs.len()
                invariant
                    d <= docs@.len(),
                    seq_views(pos@) == spec_positive_docs(doc_grade_views(docs@), d as int),
                decreases docs@.len() - d,
            {
                proof {
                    assert(doc_grade_views(docs@)[d as int] == (string_bytes(docs@[d as int].0),
                    docs@[d as int].1));
                }
                if docs[d].1 > 0 {
                    let ghost before = seq_views(pos@);
                    pos.push(docs[d].0.clone());
                    proof {
                        assert(seq_views(pos@) =~= before.push(string_bytes(docs@[d as int].0)));
                    }
                }
                d = d + 1;
            }
            let ghost posv = seq_views(pos@);
            let relevant = RelevantSet::from_vec(pos);
            let ms = query_metrics(metrics, &ranked, &relevant);
            let ghost before_qr = query_results@;
            query_results.push(QueryResults { query_id: pair.0.clone(), metrics: ms });
            proof {
                assert(qrs_views(query_results@) =~= qrs_views(before_qr).push(
                    (
                        string_bytes(grouped_qrels@[i as int].0),
                        metrics_views(query_results@[query_results@.len() - 1].metrics@),
                    ),
                ));
                assert(qrs_views(query_results@) =~= spec_trec_query_results(
                    gr,
                    gq,
                    seq_views(metrics@),
                    i + 1,
                ));
            }
        }
        i = i + 1;
    }
    let aggregated = aggregate(metrics, &query_results);
    BatchResults { query_results, aggregated }
}

} // verus!
