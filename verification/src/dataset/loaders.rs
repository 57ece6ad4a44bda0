//! Loaders and statistics for the common retrieval benchmarks.
//!
//! The benchmark suites all ship their runs and judgments in the TREC
//! text formats, so each loader parses that format from the file text;
//! what differs per benchmark is only directory convention, which the
//! caller resolves when it reads the files.

use vstd::prelude::*;
use vstd::string::StringSliceAdditionalSpecFns;
use crate::trec::{
    err_matches, load_qrels, load_trec_runs, qrel_matches, run_matches, spec_parse_qrels,
    spec_parse_runs, string_bytes, Qrel, TrecError, TrecErrorKind, TrecRun,
};
use crate::binary::{seq_views, spec_dedup, RelevantSet};

verus! {

/// Description of a dataset, as kept in its configuration file.
pub struct DatasetMetadata {
    pub name: String,
    pub description: String,
    pub url: Option<String>,
    pub queries: usize,
    pub documents: usize,
    pub format: String,
    pub languages: Vec<String>,
}

/// Load MS MARCO judgments (TREC qrels text).
pub fn load_msmarco_qrels(text: &str) -> (r: Result<Vec<Qrel>, TrecError>)
    ensures
        match spec_parse_qrels(text.spec_bytes(), 0, 1) {
            Result::Ok(qs) => r matches Result::Ok(qrels) && qrels@.len() == qs.len() && (forall|
                j: int,
            |
                0 <= j < qs.len() ==> qrel_matches(#[trigger] qrels@[j], qs[j])),
            Result::Err(ev) => r matches Result::Err(e) && err_matches(e, ev),
        },
{
    load_qrels(text)
}

/// Load BEIR judgments (TREC qrels text).
pub fn load_beir_qrels(text: &str) -> (r: Result<Vec<Qrel>, TrecError>)
    ensures
        match spec_parse_qrels(text.spec_bytes(), 0, 1) {
            Result::Ok(qs) => r matches Result::Ok(qrels) && qrels@.len() == qs.len() && (forall|
                j: int,
            |
                0 <= j < qs.len() ==> qrel_matches(#[trigger] qrels@[j], qs[j])),
            Result::Err(ev) => r matches Result::Err(e) && err_matches(e, ev),
        },
{
    load_qrels(text)
}

/// Load MIRACL judgments (TREC qrels text).
pub fn load_miracl_qrels(text: &str) -> (r: Result<Vec<Qrel>, TrecError>)
    ensures
        match spec_parse_qrels(text.spec_bytes(), 0, 1) {
            Result::Ok(qs) => r matches Result::Ok(qrels) && qrels@.len() == qs.len() && (forall|
                j: int,
            |
                0 <= j < qs.len() ==> qrel_matches(#[trigger] qrels@[j], qs[j])),
            Result::Err(ev) => r matches Result::Err(e) && err_matches(e, ev),
        },
{
    load_qrels(text)
}

/// Load MTEB judgments (TREC qrels text).
pub fn load_mteb_qrels(text: &str) -> (r: Result<Vec<Qrel>, TrecError>)
    ensures
        match spec_parse_qrels(text.spec_bytes(), 0, 1) {
            Result::Ok(qs) => r matches Result::Ok(qrels) && qrels@.len() == qs.len() && (forall|
                j: int,
            |
                0 <= j < qs.len() ==> qrel_matches(#[trigger] qrels@[j], qs[j])),
            Result::Err(ev) => r matches Result::Err(e) && err_matches(e, ev),
        },
{
    load_qrels(text)
}

/// Load HotpotQA judgments (TREC qrels text).
pub fn load_hotpotqa_qrels(text: &str) -> (r: Result<Vec<Qrel>, TrecError>)
    ensures
        match spec_parse_qrels(text.spec_bytes(), 0, 1) {
            Result::Ok(qs) => r matches Result::Ok(qrels) && qrels@.len() == qs.len() && (forall|
                j: int,
            |
                0 <= j < qs.len() ==> qrel_matches(#[trigger] qrels@[j], qs[j])),
            Result::Err(ev) => r matches Result::Err(e) && err_matches(e, ev),
        },
{
    load_qrels(text)
}

/// Load Natural Questions judgments (TREC qrels text).
pub fn load_natural_questions_qrels(text: &str) -> (r: Result<Vec<Qrel>, TrecError>)
    ensures
        match spec_parse_qrels(text.spec_bytes(), 0, 1) {
            Result::Ok(qs) => r matches Result::Ok(qrels) && qrels@.len() == qs.len() && (forall|
                j: int,
            |
                0 <= j < qs.len() ==> qrel_matches(#[trigger] qrels@[j], qs[j])),
            Result::Err(ev) => r matches Result::Err(e) && err_matches(e, ev),
        },
{
    load_qrels(text)
}

/// Load a BEIR run file (TREC run text).
pub fn load_beir_runs(text: &str) -> (r: Result<Vec<TrecRun>, TrecError>)
    ensures
        match spec_parse_runs(text.spec_bytes(), 0, 1) {
            Result::Ok(rs) => r matches Result::Ok(runs) && runs@.len() == rs.len() && (forall|
                j: int,
            |
                0 <= j < rs.len() ==> run_matches(#[trigger] runs@[j], rs[j])),
            Result::Err(ev) => r matches Result::Err(e) && err_matches(e, ev),
        },
{
    load_trec_runs(text)
}

/// Load a MIRACL run file (TREC run text).
pub fn load_miracl_runs(text: &str) -> (r: Result<Vec<TrecRun>, TrecError>)
    ensures
        match spec_parse_runs(text.spec_bytes(), 0, 1) {
            Result::Ok(rs) => r matches Result::Ok(runs) && runs@.len() == rs.len() && (forall|
                j: int,
            |
                0 <= j < rs.len() ==> run_matches(#[trigger] runs@[j], rs[j])),
            Result::Err(ev) => r matches Result::Err(e) && err_matches(e, ev),
        },
{
    load_trec_runs(text)
}

/// Load an MTEB run file (TREC run text).
pub fn load_mteb_runs(text: &str) -> (r: Result<Vec<TrecRun>, TrecError>)
    ensures
        match spec_parse_runs(text.spec_bytes(), 0, 1) {
            Result::Ok(rs) => r matches Result::Ok(runs) && runs@.len() == rs.len() && (forall|
                j: int,
            |
                0 <= j < rs.len() ==> run_matches(#[trigger] runs@[j], rs[j])),
            Result::Err(ev) => r matches Result::Err(e) && err_matches(e, ev),
        },
{
    load_trec_runs(text)
}

/// Load a HotpotQA run file (TREC run text).
pub fn load_hotpotqa_runs(text: &str) -> (r: Result<Vec<TrecRun>, TrecError>)
    ensures
        match spec_parse_runs(text.spec_bytes(), 0, 1) {
            Result::Ok(rs) => r matches Result::Ok(runs) && runs@.len() == rs.len() && (forall|
                j: int,
            |
                0 <= j < rs.len() ==> run_matches(#[trigger] runs@[j], rs[j])),
            Result::Err(ev) => r matches Result::Err(e) && err_matches(e, ev),
        },
{
    load_trec_runs(text)
}

/// Load a Natural Questions run file (TREC run text).
pub fn load_natural_questions_runs(text: &str) -> (r: Result<Vec<TrecRun>, TrecError>)
    ensures
        match spec_parse_runs(text.spec_bytes(), 0, 1) {
            Result::Ok(rs) => r matches Result::Ok(runs) && runs@.len() == rs.len() && (forall|
                j: int,
            |
                0 <= j < rs.len() ==> run_matches(#[trigger] runs@[j], rs[j])),
            Result::Err(ev) => r matches Result::Err(e) && err_matches(e, ev),
        },
{
    load_trec_runs(text)
}

/// The conventional names a qrels file may carry inside a dataset
/// directory, in lookup order.
pub open spec fn spec_qrels_file_names() -> Seq<Seq<u8>> {
    seq![
        ("qrels.txt").spec_bytes(),
        ("qrels").spec_bytes(),
        ("qrels.dev.txt").spec_bytes(),
        ("qrels.test.txt").spec_bytes(),
    ]
}

/// The byte-named view of a directory listing.
pub open spec fn files_view(files: Seq<(String, String)>) -> Seq<(Seq<u8>, String)> {
    files.map_values(|p: (String, String)| (string_bytes(p.0), p.1))
}

/// The file chosen for the judgments of a directory: the first file
/// (in directory order) carrying the most preferred qrels name that
/// occurs at all, or -1 when none does.
pub open spec fn spec_qrels_choice(files: Seq<(String, String)>) -> int {
    let fv = files_view(files);
    let names = spec_qrels_file_names();
    let f0 = crate::trec::spec_key_index(fv, names[0]);
    let f1 = crate::trec::spec_key_index(fv, names[1]);
    let f2 = crate::trec::spec_key_index(fv, names[2]);
    let f3 = crate::trec::spec_key_index(fv, names[3]);
    if f0 < fv.len() {
        f0
    } else if f1 < fv.len() {
        f1
    } else if f2 < fv.len() {
        f2
    } else if f3 < fv.len() {
        f3
    } else {
        -1
    }
}

/// Load the judgments of a dataset directory, given its files as
/// (name, content) pairs: the first file carrying one of the
/// conventional qrels names (in that order of preference) is parsed;
/// a directory without one is an error.
pub fn load_trec_qrels_from_dir(files: &Vec<(String, String)>) -> (r: Result<
    Vec<Qrel>,
    TrecError,
>)
    ensures
        spec_qrels_choice(files@) == -1 ==> (r matches Result::Err(e) && e.kind
            == TrecErrorKind::NoQrelsFile),
        spec_qrels_choice(files@) >= 0 ==> match spec_parse_qrels(
            string_bytes(files@[spec_qrels_choice(files@)].1),
            0,
            1,
        ) {
            Result::Ok(qs) => r matches Result::Ok(qrels) && qrels@.len() == qs.len() && (forall|
                j: int,
            |
                0 <= j < qs.len() ==> qrel_matches(#[trigger] qrels@[j], qs[j])),
            Result::Err(ev) => r matches Result::Err(e) && err_matches(e, ev),
        },
{
    let ghost fv = files_view(files@);
    let mut c: usize = 0;
    while c < 4
        invariant
            c <= 4,
            fv == files_view(files@),
            forall|ci: int|
                0 <= ci < c ==> crate::trec::spec_key_index(
                    fv,
                    spec_qrels_file_names()[ci],
                ) == fv.len(),
        decreases 4 - c,
    {
        let name: &str = if c == 0 {
            "qrels.txt"
        } else if c == 1 {
            "qrels"
        } else if c == 2 {
            "qrels.dev.txt"
        } else {
            "qrels.test.txt"
        };
        proof {
            assert(name.spec_bytes() == spec_qrels_file_names()[c as int]);
        }
        let mut f: usize = 0;
        let mut found = false;
        while f < files.len() && !found
            invariant
                f <= files@.len(),
                c < 4,
                fv == files_view(files@),
                name.spec_bytes() == spec_qrels_file_names()[c as int],
                forall|w: int|
                    0 <= w < f ==> (#[trigger] fv[w]).0 != spec_qrels_file_names()[c as int],
                found ==> f < files@.len() && fv[f as int].0 == spec_qrels_file_names()[
                    c as int
                ],
            decreases files@.len() - f + if found { 0int } else { 1int },
        {
            proof {
                assert(fv[f as int].0 == string_bytes(files@[f as int].0));
            }
            if crate::batch::str_is(&files[f].0, name) {
                found = true;
            } else {
                f = f + 1;
            }
        }
        proof {
            crate::trec::lemma_key_index_first(fv, spec_qrels_file_names()[c as int], f as int);
        }
        if found {
            proof {
                assert(spec_qrels_choice(files@) == f as int);
                assert(fv[f as int].1 == files@[f as int].1);
            }
            return load_qrels(files[f].1.as_str());
        }
        c = c + 1;
    }
    Result::Err(TrecError { line: 0, content: String::new(), kind: TrecErrorKind::NoQrelsFile })
}

/// The benchmark families with a dedicated loader convention.
#[derive(Clone, Copy, Debug, PartialEq, Eq, Structural)]
pub enum DatasetType {
    MsMarco,
    Beir,
    Trec,
    Miracl,
    Mteb,
    HotpotQA,
    NaturalQuestions,
    Squad,
    Custom,
}

/// Whether a directory listing carries an entry with the given name.
fn has_entry(entries: &Vec<String>, lit: &str) -> (r: bool)
    ensures
        r == seq_views(entries@).contains(lit.spec_bytes()),
{
    let ghost ev = seq_views(entries@);
    let mut i: usize = 0;
    while i < entries.len()
        invariant
            i <= entries@.len(),
            ev == seq_views(entries@),
            forall|j: int| 0 <= j < i ==> (#[trigger] ev[j]) != lit.spec_bytes(),
        decreases entries@.len() - i,
    {
        proof {
            assert(ev[i as int] == string_bytes(entries@[i as int]));
        }
        if crate::batch::str_is(&entries[i], lit) {
            proof {
                assert(ev.contains(lit.spec_bytes()));
            }
            return true;
        }
        i = i + 1;
    }
    proof {
        if ev.contains(lit.spec_bytes()) {
            let w = choose|w: int| 0 <= w < ev.len() && ev[w] == lit.spec_bytes();
            assert(false);
        }
    }
    false
}

/// What dataset type a directory listing indicates: a marker entry
/// for MS MARCO, BEIR or MIRACL (in either case), else plain TREC.
pub open spec fn spec_detect(entries: Seq<Seq<u8>>) -> DatasetType {
    if entries.contains(("msmarco").spec_bytes()) || entries.contains(("MSMARCO").spec_bytes()) {
        DatasetType::MsMarco
    } else if entries.contains(("beir").spec_bytes()) || entries.contains(
        ("BEIR").spec_bytes(),
    ) {
        DatasetType::Beir
    } else if entries.contains(("miracl").spec_bytes()) || entries.contains(
        ("MIRACL").spec_bytes(),
    ) {
        DatasetType::Miracl
    } else {
        DatasetType::Trec
    }
}

impl DatasetType {
    /// Detect the dataset type from the names in its directory.
    pub fn detect(entries: &Vec<String>) -> (r: DatasetType)
        ensures
            r == spec_detect(seq_views(entries@)),
    {
        if has_entry(entries, "msmarco") || has_entry(entries, "MSMARCO") {
            DatasetType::MsMarco
        } else if has_entry(entries, "beir") || has_entry(entries, "BEIR") {
            DatasetType::Beir
        } else if has_entry(entries, "miracl") || has_entry(entries, "MIRACL") {
            DatasetType::Miracl
        } else {
            DatasetType::Trec
        }
    }

    /// The human-readable name of the dataset type.
    pub fn name(&self) -> (r: &'static str)
        ensures
            self is MsMarco ==> r@ == ("MS MARCO")@,
            self is Beir ==> r@ == ("BEIR")@,
            self is Trec ==> r@ == ("TREC")@,
            self is Miracl ==> r@ == ("MIRACL")@,
            self is Mteb ==> r@ == ("MTEB")@,
            self is HotpotQA ==> r@ == ("HotpotQA")@,
            self is NaturalQuestions ==> r@ == ("Natural Questions")@,
            self is Squad ==> r@ == ("SQuAD")@,
            self is Custom ==> r@ == ("Custom")@,
    {
        match self {
            DatasetType::MsMarco => "MS MARCO",
            DatasetType::Beir => "BEIR",
            DatasetType::Trec => "TREC",
            DatasetType::Miracl => "MIRACL",
            DatasetType::Mteb => "MTEB",
            DatasetType::HotpotQA => "HotpotQA",
            DatasetType::NaturalQuestions => "Natural Questions",
            DatasetType::Squad => "SQuAD",
            DatasetType::Custom => "Custom",
        }
    }
}

/// What the extended detection indicates: the basic markers first,
/// then MTEB, HotpotQA and Natural Questions conventions.
pub open spec fn spec_detect_extended(entries: Seq<Seq<u8>>) -> DatasetType {
    if entries.contains(("msmarco").spec_bytes()) || entries.contains(("MSMARCO").spec_bytes()) {
        DatasetType::MsMarco
    } else if entries.contains(("beir").spec_bytes()) || entries.contains(
        ("BEIR").spec_bytes(),
    ) {
        DatasetType::Beir
    } else if entries.contains(("miracl").spec_bytes()) || entries.contains(
        ("MIRACL").spec_bytes(),
    ) {
        DatasetType::Miracl
    } else if entries.contains(("mteb").spec_bytes()) || entries.contains(
        ("MTEB").spec_bytes(),
    ) {
        DatasetType::Mteb
    } else if entries.contains(("hotpotqa").spec_bytes()) || entries.contains(
        ("HotpotQA").spec_bytes(),
    ) {
        DatasetType::HotpotQA
    } else if entries.contains(("natural_questions").spec_bytes()) || entries.contains(
        ("NaturalQuestions").spec_bytes(),
    ) {
        DatasetType::NaturalQuestions
    } else {
        DatasetType::Trec
    }
}

/// Detect the dataset type from a directory listing, with the
/// extended marker set.
pub fn detect_dataset_type(entries: &Vec<String>) -> (r: DatasetType)
    ensures
        r == spec_detect_extended(seq_views(entries@)),
{
    if has_entry(entries, "msmarco") || has_entry(entries, "MSMARCO") {
        DatasetType::MsMarco
    } else if has_entry(entries, "beir") || has_entry(entries, "BEIR") {
        DatasetType::Beir
    } else if has_entry(entries, "miracl") || has_entry(entries, "MIRACL") {
        DatasetType::Miracl
    } else if has_entry(entries, "mteb") || has_entry(entries, "MTEB") {
        DatasetType::Mteb
    } else if has_entry(entries, "hotpotqa") || has_entry(entries, "HotpotQA") {
        DatasetType::HotpotQA
    } else if has_entry(entries, "natural_questions") || has_entry(
        entries,
        "NaturalQuestions",
    ) {
        DatasetType::NaturalQuestions
    } else {
        DatasetType::Trec
    }
}

/// Counts over a parsed dataset.
pub struct DatasetStats {
    pub total_runs: usize,
    pub unique_queries: usize,
    pub unique_documents: usize,
    pub unique_run_tags: usize,
    pub total_qrels: usize,
    pub queries_with_qrels: usize,
    pub relevant_documents: usize,
}

/// The judgments with a positive grade among the first `i`.
pub open spec fn spec_relevant_count(qrels: Seq<Qrel>, i: int) -> int
    decreases i
{
    if i <= 0 {
        0
    } else {
        spec_relevant_count(qrels, i - 1) + if qrels[i - 1].relevance > 0 {
            1int
        } else {
            0int
        }
    }
}

/// Summary counts of a parsed dataset: sizes, distinct queries,
/// documents and run tags, and the number of positive judgments.
pub fn get_dataset_stats(runs: &Vec<TrecRun>, qrels: &Vec<Qrel>) -> (r: DatasetStats)
    ensures
        r.total_runs == runs@.len(),
        r.total_qrels == qrels@.len(),
        r.unique_queries == spec_dedup(
            seq_views(runs@.map_values(|t: TrecRun| t.query_id)),
            runs@.len() as int,
        ).len(),
        r.unique_documents == spec_dedup(
            seq_views(runs@.map_values(|t: TrecRun| t.doc_id)),
            runs@.len() as int,
        ).len(),
        r.unique_run_tags == spec_dedup(
            seq_views(runs@.map_values(|t: TrecRun| t.run_tag)),
            runs@.len() as int,
        ).len(),
        r.queries_with_qrels == spec_dedup(
            seq_views(qrels@.map_values(|t: Qrel| t.query_id)),
            qrels@.len() as int,
        ).len(),
        r.relevant_documents == spec_relevant_count(qrels@, qrels@.len() as int),
{
    let mut run_queries: Vec<String> = Vec::new();
    let mut run_docs: Vec<String> = Vec::new();
    let mut run_tags: Vec<String> = Vec::new();
    let mut i: usize = 0;
    while i < runs.len()
        invariant
            i <= runs@.len(),
            run_queries@ == runs@.map_values(|t: TrecRun| t.query_id).take(i as int),
            run_docs@ == runs@.map_values(|t: TrecRun| t.doc_id).take(i as int),
            run_tags@ == runs@.map_values(|t: TrecRun| t.run_tag).take(i as int),
        decreases runs@.len() - i,
    {
        run_queries.push(runs[i].query_id.clone());
        run_docs.push(runs[i].doc_id.clone());
        run_tags.push(runs[i].run_tag.clone());
        proof {
            assert(run_queries@ =~= runs@.map_values(|t: TrecRun| t.query_id).take(i + 1));
            assert(run_docs@ =~= runs@.map_values(|t: TrecRun| t.doc_id).take(i + 1));
            assert(run_tags@ =~= runs@.map_values(|t: TrecRun| t.run_tag).take(i + 1));
        }
        i = i + 1;
    }
    let mut qrel_queries: Vec<String> = Vec::new();
    let mut relevant: usize = 0;
    let mut j: usize = 0;
    while j < qrels.len()
        invariant
            j <= qrels@.len(),
            qrel_queries@ == qrels@.map_values(|t: Qrel| t.query_id).take(j as int),
            relevant == spec_relevant_count(qrels@, j as int),
            relevant <= j,
        decreases qrels@.len() - j,
    {
        qrel_queries.push(qrels[j].query_id.clone());
        if qrels[j].relevance > 0 {
            relevant = relevant + 1;
        }
        proof {
            assert(qrel_queries@ =~= qrels@.map_values(|t: Qrel| t.query_id).take(j + 1));
        }
        j = j + 1;
    }
    proof {
        assert(runs@.map_values(|t: TrecRun| t.query_id).take(runs@.len() as int) =~= runs@
            .map_values(|t: TrecRun| t.query_id));
        assert(runs@.map_values(|t: TrecRun| t.doc_id).take(runs@.len() as int) =~= runs@
            .map_values(|t: TrecRun| t.doc_id));
        assert(runs@.map_values(|t: TrecRun| t.run_tag).take(runs@.len() as int) =~= runs@
            .map_values(|t: TrecRun| t.run_tag));
        assert(qrels@.map_values(|t: Qrel| t.query_id).take(qrels@.len() as int) =~= qrels@
            .map_values(|t: Qrel| t.query_id));
    }
    let total_runs = runs.len();
    let total_qrels = qrels.len();
    let uq = RelevantSet::from_vec(run_queries);
    let ud = RelevantSet::from_vec(run_docs);
    let ut = RelevantSet::from_vec(run_tags);
    let qq = RelevantSet::from_vec(qrel_queries);
    DatasetStats {
        total_runs,
        unique_queries: uq.len(),
        unique_documents: ud.len(),
        unique_run_tags: ut.len(),
        total_qrels,
        queries_with_qrels: qq.len(),
        relevant_documents: relevant,
    }
}

} // verus!
