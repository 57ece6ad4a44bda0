//! TREC format parsing and grouping.
//!
//! A run file line reads `query_id Q0 doc_id rank score run_tag...`; a
//! judgment (qrels) line reads `query_id 0 doc_id relevance`. Blank
//! lines and `#` comments are skipped; any malformed line aborts the
//! whole parse with its line number and content. The specifications
//! mirror the byte-level grammar exactly, so the parsers are verified
//! to accept precisely the well-formed files.

use vstd::prelude::*;
use vstd::string::StringSliceAdditionalSpecFns;
use crate::score::{parse_score, spec_parse_score, Score, ScoreParse};

verus! {

/// ASCII whitespace, the token separator of the TREC formats.
pub open spec fn spec_is_space(b: u8) -> bool {
    b == 32 || (9 <= b <= 13)
}

/// Split a line into whitespace-separated tokens: scan byte by byte,
/// extending the current token or closing it at a separator.
pub open spec fn spec_tokens_acc(s: Seq<u8>, i: int, cur: Seq<u8>) -> Seq<Seq<u8>>
    decreases s.len() - i when 0 <= i <= s.len()
{
    if i >= s.len() {
        if cur.len() > 0 {
            seq![cur]
        } else {
            Seq::empty()
        }
    } else if spec_is_space(s[i]) {
        if cur.len() > 0 {
            seq![cur] + spec_tokens_acc(s, i + 1, Seq::empty())
        } else {
            spec_tokens_acc(s, i + 1, Seq::empty())
        }
    } else {
        spec_tokens_acc(s, i + 1, cur.push(s[i]))
    }
}

/// The whitespace-separated tokens of a line.
pub open spec fn spec_tokens(s: Seq<u8>) -> Seq<Seq<u8>> {
    spec_tokens_acc(s, 0, Seq::empty())
}

/// The byte sequences of a sequence of byte vectors.
pub open spec fn bytes_views(v: Seq<Vec<u8>>) -> Seq<Seq<u8>> {
    v.map_values(|t: Vec<u8>| t@)
}

/// Split a line into its whitespace-separated tokens.
fn tokenize(line: &[u8]) -> (toks: Vec<Vec<u8>>)
    ensures
        bytes_views(toks@) == spec_tokens(line@),
{
    let mut toks: Vec<Vec<u8>> = Vec::new();
    let mut cur: Vec<u8> = Vec::new();
    let mut i: usize = 0;
    while i < line.len()
        invariant
            i <= line@.len(),
            spec_tokens(line@) == bytes_views(toks@) + spec_tokens_acc(line@, i as int, cur@),
        decreases line@.len() - i,
    {
        let b = line[i];
        if b == 32 || (9 <= b && b <= 13) {
            if cur.len() > 0 {
                let ghost old_toks = toks@;
                let ghost old_cur = cur@;
                toks.push(cur);
                cur = Vec::new();
                proof {
                    assert(spec_tokens_acc(line@, i as int, old_cur) == seq![old_cur]
                        + spec_tokens_acc(line@, i + 1, Seq::empty()));
                    assert(bytes_views(toks@) =~= bytes_views(old_toks).push(old_cur));
                    assert(bytes_views(old_toks) + (seq![old_cur] + spec_tokens_acc(
                        line@,
                        i + 1,
                        Seq::empty(),
                    )) =~= bytes_views(toks@) + spec_tokens_acc(line@, i + 1, Seq::empty()));
                    assert(cur@ =~= Seq::<u8>::empty());
                }
            } else {
                proof {
                    assert(cur@ =~= Seq::<u8>::empty());
                    assert(spec_tokens_acc(line@, i as int, cur@) == spec_tokens_acc(
                        line@,
                        i + 1,
                        Seq::empty(),
                    ));
                }
            }
        } else {
            let ghost old_cur = cur@;
            cur.push(b);
            proof {
                assert(spec_tokens_acc(line@, i as int, old_cur) == spec_tokens_acc(
                    line@,
                    i + 1,
                    old_cur.push(line@[i as int]),
                ));
                assert(cur@ =~= old_cur.push(line@[i as int]));
            }
        }
        i = i + 1;
    }
    if cur.len() > 0 {
        let ghost old_toks = toks@;
        let ghost old_cur = cur@;
        toks.push(cur);
        proof {
            assert(bytes_views(toks@) =~= bytes_views(old_toks).push(old_cur));
            assert(bytes_views(old_toks) + seq![old_cur] =~= bytes_views(toks@));
        }
    } else {
        proof {
            assert(bytes_views(toks@) + Seq::<Seq<u8>>::empty() =~= bytes_views(toks@));
        }
    }
    toks
}

/// End of the run of decimal digits starting at `i`.
pub open spec fn spec_digits_end(s: Seq<u8>, i: int) -> int
    decreases s.len() - i when 0 <= i <= s.len()
{
    if i < s.len() && 48 <= s[i] <= 57 {
        spec_digits_end(s, i + 1)
    } else {
        i
    }
}

/// The digit run `[i, spec_digits_end)` read as a number.
pub open spec fn spec_uint_value(s: Seq<u8>, i: int, acc: int) -> int
    decreases s.len() - i when 0 <= i <= s.len()
{
    if i < s.len() && 48 <= s[i] <= 57 {
        spec_uint_value(s, i + 1, acc * 10 + (s[i] - 48))
    } else {
        acc
    }
}

/// The accumulated value never shrinks while digits are consumed.
proof fn lemma_uint_value_ge(s: Seq<u8>, i: int, acc: int)
    requires
        0 <= i <= s.len(),
        acc >= 0,
    ensures
        spec_uint_value(s, i, acc) >= acc,
    decreases s.len() - i
{
    if i < s.len() && 48 <= s[i] <= 57 {
        lemma_uint_value_ge(s, i + 1, acc * 10 + (s[i] - 48));
    }
}

/// What `parse_uint` returns: a token is a non-negative integer when,
/// after an optional leading `+`, it consists of one or more digits and
/// its value is at most `cap`.
pub open spec fn spec_parse_uint(s: Seq<u8>, cap: int) -> Option<int> {
    let start: int = if s.len() > 0 && s[0] == 43 {
        1
    } else {
        0
    };
    if s.len() <= start {
        Option::None
    } else if spec_digits_end(s, start) != s.len() {
        Option::None
    } else {
        let v = spec_uint_value(s, start, 0);
        if v <= cap {
            Option::Some(v)
        } else {
            Option::None
        }
    }
}

/// Parse a whole token as an unsigned decimal integer of at most `cap`
/// (overflow is a parse failure, matching the integer parsers of the
/// standard library).
fn parse_uint(s: &[u8], cap: u64) -> (r: Option<u64>)
    ensures
        r matches Some(v) ==> spec_parse_uint(s@, cap as int) == Some(v as int),
        r is None ==> spec_parse_uint(s@, cap as int) is None,
{
    let n = s.len();
    let start: usize = if n > 0 && s[0] == 43 {
        1
    } else {
        0
    };
    if n <= start {
        return Option::None;
    }
    let mut i = start;
    let mut acc: u128 = 0;
    let mut over = false;
    while i < n
        invariant
            start <= i <= n == s@.len(),
            start as int == if s@.len() > 0 && s@[0] == 43 { 1int } else { 0int },
            acc <= cap,
            !over ==> spec_uint_value(s@, start as int, 0) == spec_uint_value(
                s@,
                i as int,
                acc as int,
            ),
            over ==> spec_uint_value(s@, start as int, 0) > cap,
            spec_digits_end(s@, start as int) == spec_digits_end(s@, i as int),
        decreases n - i,
    {
        let b = s[i];
        if b < 48 || b > 57 {
            proof {
                assert(start as int == if s@.len() > 0 && s@[0] == 43 {
                    1int
                } else {
                    0int
                });
                assert(spec_digits_end(s@, i as int) == i as int);
                assert(spec_digits_end(s@, start as int) != s@.len());
                assert(spec_parse_uint(s@, cap as int) is None);
            }
            return Option::None;
        }
        if !over {
            let next: u128 = acc * 10 + ((b - 48) as u128);
            if next > cap as u128 {
                proof {
                    lemma_uint_value_ge(s@, i + 1, acc as int * 10 + (s@[i as int] - 48));
                }
                over = true;
            } else {
                acc = next;
            }
        }
        i = i + 1;
    }
    if over {
        Option::None
    } else {
        Option::Some(acc as u64)
    }
}

/// One entry of a run file, at the specification level: the raw bytes
/// of the textual fields, the rank and the exact score.
pub struct RunV {
    pub query_id: Seq<u8>,
    pub doc_id: Seq<u8>,
    pub rank: int,
    pub score: Score,
    pub run_tag: Seq<u8>,
}

/// One judgment record at the specification level.
pub struct QrelV {
    pub query_id: Seq<u8>,
    pub doc_id: Seq<u8>,
    pub relevance: int,
}

/// Why a line was rejected.
#[derive(Clone, Copy, Debug, PartialEq, Eq, Structural)]
pub enum TrecErrorKind {
    /// A run line with the wrong number of fields.
    RunFieldCount,
    /// A run line whose second field is not the literal `Q0`.
    ExpectedQ0,
    /// A run line whose rank is not a non-negative integer.
    InvalidRank,
    /// A run line whose score is not a decimal number.
    InvalidScore,
    /// A run line whose score overflows a 32-bit float (infinite).
    NonFiniteScore,
    /// A qrels line with fewer than four fields.
    QrelFieldCount,
    /// A qrels line whose second field is not the literal `0`.
    ExpectedZero,
    /// A qrels line whose relevance is not a non-negative integer.
    InvalidRelevance,
    /// A dataset directory without any conventionally named qrels file.
    NoQrelsFile,
}

/// A rejected line: its 1-based number, its raw content and the reason.
pub struct ErrV {
    pub line: int,
    pub content: Seq<u8>,
    pub kind: TrecErrorKind,
}

/// The outcome of reading one run line.
pub enum RunLineV {
    /// Blank or comment.
    Skip,
    /// A well-formed record.
    Record(RunV),
    /// A malformed line.
    Fail(TrecErrorKind),
}

/// The literal `Q0`.
pub open spec fn spec_q0() -> Seq<u8> {
    seq![81u8, 48u8]
}

/// Read one run line: skip blanks and `#` comments; otherwise demand at
/// least 6 fields with `Q0` second, a non-negative integer rank and a
/// finite decimal score; the tag is the sixth field, or all fields from
/// the sixth on joined by single spaces.
pub open spec fn spec_run_line(line: Seq<u8>) -> RunLineV {
    let toks = spec_tokens(line);
    if toks.len() == 0 || toks[0][0] == 35 {
        RunLineV::Skip
    } else if toks.len() < 6 {
        if toks.len() == 5 && toks[1] != spec_q0() {
            RunLineV::Fail(TrecErrorKind::ExpectedQ0)
        } else {
            RunLineV::Fail(TrecErrorKind::RunFieldCount)
        }
    } else if toks[1] != spec_q0() {
        RunLineV::Fail(TrecErrorKind::ExpectedQ0)
    } else {
        let rank = spec_parse_uint(toks[3], usize::MAX as int);
        if rank is None {
            RunLineV::Fail(TrecErrorKind::InvalidRank)
        } else {
            match spec_parse_score(toks[4]) {
                ScoreParse::Invalid => RunLineV::Fail(TrecErrorKind::InvalidScore),
                ScoreParse::TooLarge => RunLineV::Fail(TrecErrorKind::NonFiniteScore),
                ScoreParse::Value(score) => RunLineV::Record(
                    RunV {
                        query_id: toks[0],
                        doc_id: toks[2],
                        rank: rank.unwrap(),
                        score: score,
                        run_tag: spec_join(toks, 5),
                    },
                ),
            }
        }
    }
}

/// Fields from index `from` on, joined with single spaces.
pub open spec fn spec_join(toks: Seq<Seq<u8>>, from: int) -> Seq<u8>
    decreases toks.len() - from when 0 <= from <= toks.len()
{
    if from >= toks.len() {
        Seq::empty()
    } else if from == toks.len() - 1 {
        toks[from]
    } else {
        toks[from] + seq![32u8] + spec_join(toks, from + 1)
    }
}

/// The outcome of reading one qrels line.
pub enum QrelLineV {
    /// Blank or comment.
    Skip,
    /// A well-formed record.
    Record(QrelV),
    /// A malformed line.
    Fail(TrecErrorKind),
}

/// Read one qrels line: skip blanks and `#` comments; otherwise demand
/// at least 4 fields with a literal `0` second and a non-negative
/// 32-bit relevance fourth.
pub open spec fn spec_qrel_line(line: Seq<u8>) -> QrelLineV {
    let toks = spec_tokens(line);
    if toks.len() == 0 || toks[0][0] == 35 {
        QrelLineV::Skip
    } else if toks.len() < 4 {
        QrelLineV::Fail(TrecErrorKind::QrelFieldCount)
    } else if toks[1] != seq![48u8] {
        QrelLineV::Fail(TrecErrorKind::ExpectedZero)
    } else {
        let rel = spec_parse_uint(toks[3], u32::MAX as int);
        if rel is None {
            QrelLineV::Fail(TrecErrorKind::InvalidRelevance)
        } else {
            QrelLineV::Record(
                QrelV { query_id: toks[0], doc_id: toks[2], relevance: rel.unwrap() },
            )
        }
    }
}

/// Position of the next line feed at or after `i`, or the end.
pub open spec fn spec_line_end(s: Seq<u8>, i: int) -> int
    decreases s.len() - i when 0 <= i <= s.len()
{
    if i < s.len() && s[i] != 10 {
        spec_line_end(s, i + 1)
    } else {
        i
    }
}

/// Parse a whole run file from position `i` (1-based line number `no`):
/// the records of all well-formed lines in order, or the first error.
pub open spec fn spec_parse_runs(s: Seq<u8>, i: int, no: int) -> Result<Seq<RunV>, ErrV>
    decreases s.len() - i when 0 <= i <= s.len()
{
    if i >= s.len() {
        Result::Ok(Seq::empty())
    } else {
        let e = spec_line_end(s, i);
        let e2: int = if e >= i { e } else { i };
        let line = s.subrange(i, if e2 <= s.len() { e2 } else { s.len() as int });
        let rest: Result<Seq<RunV>, ErrV> = if e2 < s.len() {
            spec_parse_runs(s, e2 + 1, no + 1)
        } else {
            Result::Ok(Seq::empty())
        };
        match spec_run_line(line) {
            RunLineV::Skip => rest,
            RunLineV::Fail(kind) => Result::Err(ErrV { line: no, content: line, kind }),
            RunLineV::Record(v) => match rest {
                Result::Ok(vs) => Result::Ok(seq![v] + vs),
                Result::Err(ev) => Result::Err(ev),
            },
        }
    }
}

/// Parse a whole qrels file from position `i`.
pub open spec fn spec_parse_qrels(s: Seq<u8>, i: int, no: int) -> Result<Seq<QrelV>, ErrV>
    decreases s.len() - i when 0 <= i <= s.len()
{
    if i >= s.len() {
        Result::Ok(Seq::empty())
    } else {
        let e = spec_line_end(s, i);
        let e2: int = if e >= i { e } else { i };
        let line = s.subrange(i, if e2 <= s.len() { e2 } else { s.len() as int });
        let rest: Result<Seq<QrelV>, ErrV> = if e2 < s.len() {
            spec_parse_qrels(s, e2 + 1, no + 1)
        } else {
            Result::Ok(Seq::empty())
        };
        match spec_qrel_line(line) {
            QrelLineV::Skip => rest,
            QrelLineV::Fail(kind) => Result::Err(ErrV { line: no, content: line, kind }),
            QrelLineV::Record(v) => match rest {
                Result::Ok(vs) => Result::Ok(seq![v] + vs),
                Result::Err(ev) => Result::Err(ev),
            },
        }
    }
}

/// A run file entry.
#[derive(Debug, Clone, PartialEq)]
pub struct TrecRun {
    pub query_id: String,
    pub doc_id: String,
    pub rank: usize,
    pub score: Score,
    pub run_tag: String,
}

/// A relevance judgment: 0 is "not relevant", larger grades are "more
/// relevant".
#[derive(Debug, Clone, PartialEq, Eq)]
pub struct Qrel {
    pub query_id: String,
    pub doc_id: String,
    pub relevance: u32,
}

/// A parse failure: the 1-based line number, the raw line and the
/// reason. The whole parse fails on the first bad line.
#[derive(Debug, Clone, PartialEq, Eq)]
pub struct TrecError {
    pub line: usize,
    pub content: String,
    pub kind: TrecErrorKind,
}

/// The UTF-8 bytes of a string.
pub open spec fn string_bytes(s: String) -> Seq<u8> {
    vstd::utf8::encode_utf8(s@)
}

/// A string field faithfully carries a token: when the token is valid
/// UTF-8 (always, for input that came from a string) the field's bytes
/// are exactly the token's.
pub open spec fn field_matches(f: String, tok: Seq<u8>) -> bool {
    vstd::utf8::valid_utf8(tok) ==> string_bytes(f) == tok
}

/// An executable run record faithfully carries a specification record.
pub open spec fn run_matches(r: TrecRun, v: RunV) -> bool {
    &&& field_matches(r.query_id, v.query_id)
    &&& field_matches(r.doc_id, v.doc_id)
    &&& r.rank == v.rank
    &&& r.score == v.score
    &&& r.score.wf()
    &&& field_matches(r.run_tag, v.run_tag)
}

/// An executable judgment faithfully carries a specification record.
pub open spec fn qrel_matches(q: Qrel, v: QrelV) -> bool {
    &&& field_matches(q.query_id, v.query_id)
    &&& field_matches(q.doc_id, v.doc_id)
    &&& q.relevance == v.relevance
}

/// An executable error faithfully carries a specification error.
pub open spec fn err_matches(e: TrecError, v: ErrV) -> bool {
    &&& e.line == v.line
    &&& e.kind == v.kind
    &&& field_matches(e.content, v.content)
}

/// Relies on `String::from_utf8_lossy` (and `Cow::into_owned`): bytes
/// that are valid UTF-8 come back as exactly the string with those
/// bytes; invalid bytes are replaced, about which nothing is claimed.
#[verifier::external_body]
pub(crate) fn bytes_to_string(v: &Vec<u8>) -> (r: String)
    ensures
        vstd::utf8::valid_utf8(v@) ==> string_bytes(r) == v@ && r@ == vstd::utf8::decode_utf8(
            v@,
        ),
{
    String::from_utf8_lossy(v.as_slice()).into_owned()
}

/// Join the fields from index `from` on with single spaces.
fn join_tokens(toks: &Vec<Vec<u8>>, from: usize) -> (r: Vec<u8>)
    requires
        from < toks@.len(),
    ensures
        r@ == spec_join(bytes_views(toks@), from as int),
{
    let mut r: Vec<u8> = Vec::new();
    let mut j = from;
    while j < toks.len()
        invariant
            from <= j <= toks@.len(),
            from < toks@.len(),
            spec_join(bytes_views(toks@), from as int) == r@ + spec_join(
                bytes_views(toks@),
                j as int,
            ),
            j == toks@.len() ==> spec_join(bytes_views(toks@), from as int) == r@,
        decreases toks@.len() - j,
    {
        let mut k: usize = 0;
        let t = &toks[j];
        let ghost r0 = r@;
        while k < t.len()
            invariant
                k <= t@.len(),
                t@ == bytes_views(toks@)[j as int],
                r@ == r0 + t@.take(k as int),
            decreases t@.len() - k,
        {
            r.push(t[k]);
            proof {
                assert(r@ =~= r0 + t@.take(k + 1));
            }
            k = k + 1;
        }
        proof {
            assert(t@.take(t@.len() as int) =~= t@);
        }
        if j + 1 < toks.len() {
            r.push(32);
            proof {
                assert(r@ =~= r0 + bytes_views(toks@)[j as int] + seq![32u8]);
                assert(spec_join(bytes_views(toks@), j as int) == bytes_views(toks@)[j as int]
                    + seq![32u8] + spec_join(bytes_views(toks@), j + 1));
                assert(r0 + (bytes_views(toks@)[j as int] + seq![32u8] + spec_join(
                    bytes_views(toks@),
                    j + 1,
                )) =~= r@ + spec_join(bytes_views(toks@), j + 1));
            }
        } else {
            proof {
                assert(spec_join(bytes_views(toks@), j as int) == bytes_views(toks@)[j as int]);
                assert(r0 + bytes_views(toks@)[j as int] =~= r@);
                assert(r@ + spec_join(bytes_views(toks@), j + 1) =~= r@) by {
                    assert(spec_join(bytes_views(toks@), j + 1) =~= Seq::<u8>::empty());
                }
            }
        }
        j = j + 1;
    }
    r
}

/// Two byte vectors hold the same bytes.
fn bytes_eq(a: &Vec<u8>, b_0: u8, b_1: u8, len: usize) -> (r: bool)
    requires
        len == 1 || len == 2,
    ensures
        len == 2 ==> r == (a@ == seq![b_0, b_1]),
        len == 1 ==> r == (a@ == seq![b_0]),
{
    if len == 1 {
        if a.len() != 1 {
            proof {
                assert(a@.len() != seq![b_0].len());
            }
            return false;
        }
        let r = a[0] == b_0;
        proof {
            if a@[0] == b_0 {
                assert(a@ =~= seq![b_0]);
            } else {
                assert(a@ != seq![b_0]);
            }
        }
        r
    } else {
        if a.len() != 2 {
            proof {
                assert(a@.len() != seq![b_0, b_1].len());
            }
            return false;
        }
        let r = a[0] == b_0 && a[1] == b_1;
        proof {
            if a@[0] == b_0 && a@[1] == b_1 {
                assert(a@ =~= seq![b_0, b_1]);
            } else {
                assert(a@ != seq![b_0, b_1]);
            }
        }
        r
    }
}

/// Read one run line into a record, a skip, or an error kind.
fn parse_run_line(line: &[u8]) -> (r: Result<Option<TrecRun>, TrecErrorKind>)
    ensures
        match spec_run_line(line@) {
            RunLineV::Skip => r == Result::<Option<TrecRun>, TrecErrorKind>::Ok(
                Option::<TrecRun>::None,
            ),
            RunLineV::Record(v) => r matches Result::Ok(Option::Some(run)) && run_matches(run, v),
            RunLineV::Fail(kind) => r == Result::<Option<TrecRun>, TrecErrorKind>::Err(kind),
        },
{
    let toks = tokenize(line);
    let ghost tv = bytes_views(toks@);
    if toks.len() == 0 {
        return Result::Ok(Option::None);
    }
    proof {
        assert(tv[0] == toks@[0]@);
    }
    if toks[0].len() > 0 && toks[0][0] == 35 {
        return Result::Ok(Option::None);
    }
    proof {
        // a token is never empty, so the comment check is complete
        lemma_tokens_nonempty(line@, 0, Seq::empty());
    }
    if toks.len() < 6 {
        if toks.len() == 5 && !bytes_eq(&toks[1], 81, 48, 2) {
            proof {
                assert(tv[1] == toks@[1]@);
            }
            return Result::Err(TrecErrorKind::ExpectedQ0);
        }
        return Result::Err(TrecErrorKind::RunFieldCount);
    }
    proof {
        assert(tv[1] == toks@[1]@);
        assert(tv[3] == toks@[3]@);
        assert(tv[4] == toks@[4]@);
        assert(tv[2] == toks@[2]@);
    }
    if !bytes_eq(&toks[1], 81, 48, 2) {
        return Result::Err(TrecErrorKind::ExpectedQ0);
    }
    let rank = match parse_uint(toks[3].as_slice(), usize::MAX as u64) {
        Option::Some(v) => v as usize,
        Option::None => {
            return Result::Err(TrecErrorKind::InvalidRank);
        },
    };
    let score = match parse_score(toks[4].as_slice()) {
        ScoreParse::Value(s) => s,
        ScoreParse::Invalid => {
            return Result::Err(TrecErrorKind::InvalidScore);
        },
        ScoreParse::TooLarge => {
            return Result::Err(TrecErrorKind::NonFiniteScore);
        },
    };
    let run_tag: String = if toks.len() > 6 {
        let joined = join_tokens(&toks, 5);
        bytes_to_string(&joined)
    } else {
        proof {
            assert(spec_join(tv, 5) == tv[5]);
            assert(tv[5] == toks@[5]@);
        }
        bytes_to_string(&toks[5])
    };
    Result::Ok(
        Option::Some(
            TrecRun {
                query_id: bytes_to_string(&toks[0]),
                doc_id: bytes_to_string(&toks[2]),
                rank,
                score,
                run_tag,
            },
        ),
    )
}

/// Every token a line splits into is non-empty.
proof fn lemma_tokens_nonempty(s: Seq<u8>, i: int, cur: Seq<u8>)
    requires
        0 <= i <= s.len(),
    ensures
        forall|j: int|
            0 <= j < spec_tokens_acc(s, i, cur).len() ==> #[trigger] spec_tokens_acc(
                s,
                i,
                cur,
            )[j].len() >= if j == 0 && cur.len() > 0 {
                cur.len() as int
            } else {
                1int
            },
    decreases s.len() - i
{
    let res = spec_tokens_acc(s, i, cur);
    if i >= s.len() {
    } else if spec_is_space(s[i]) {
        lemma_tokens_nonempty(s, i + 1, Seq::empty());
        let rest = spec_tokens_acc(s, i + 1, Seq::empty());
        if cur.len() > 0 {
            assert forall|j: int| 0 <= j < res.len() implies #[trigger] res[j].len() >= if j == 0
                && cur.len() > 0 {
                cur.len() as int
            } else {
                1int
            } by {
                if j > 0 {
                    assert(res[j] == rest[j - 1]);
                }
            }
        }
    } else {
        lemma_tokens_nonempty(s, i + 1, cur.push(s[i]));
        let rest = spec_tokens_acc(s, i + 1, cur.push(s[i]));
        assert forall|j: int| 0 <= j < res.len() implies #[trigger] res[j].len() >= if j == 0
            && cur.len() > 0 {
            cur.len() as int
        } else {
            1int
        } by {
            assert(res[j] == rest[j]);
            assert(rest[j].len() >= if j == 0 { cur.push(s[i]).len() as int } else { 1int });
        }
    }
}

/// Read one qrels line into a record, a skip, or an error kind.
fn parse_qrel_line(line: &[u8]) -> (r: Result<Option<Qrel>, TrecErrorKind>)
    ensures
        match spec_qrel_line(line@) {
            QrelLineV::Skip => r == Result::<Option<Qrel>, TrecErrorKind>::Ok(
                Option::<Qrel>::None,
            ),
            QrelLineV::Record(v) => r matches Result::Ok(Option::Some(q)) && qrel_matches(q, v),
            QrelLineV::Fail(kind) => r == Result::<Option<Qrel>, TrecErrorKind>::Err(kind),
        },
{
    let toks = tokenize(line);
    let ghost tv = bytes_views(toks@);
    if toks.len() == 0 {
        return Result::Ok(Option::None);
    }
    proof {
        assert(tv[0] == toks@[0]@);
        lemma_tokens_nonempty(line@, 0, Seq::empty());
    }
    if toks[0].len() > 0 && toks[0][0] == 35 {
        return Result::Ok(Option::None);
    }
    if toks.len() < 4 {
        return Result::Err(TrecErrorKind::QrelFieldCount);
    }
    proof {
        assert(tv[1] == toks@[1]@);
        assert(tv[2] == toks@[2]@);
        assert(tv[3] == toks@[3]@);
    }
    if !bytes_eq(&toks[1], 48, 0, 1) {
        return Result::Err(TrecErrorKind::ExpectedZero);
    }
    let relevance = match parse_uint(toks[3].as_slice(), 0xFFFFFFFF) {
        Option::Some(v) => v as u32,
        Option::None => {
            return Result::Err(TrecErrorKind::InvalidRelevance);
        },
    };
    Result::Ok(
        Option::Some(
            Qrel {
                query_id: bytes_to_string(&toks[0]),
                doc_id: bytes_to_string(&toks[2]),
                relevance,
            },
        ),
    )
}

/// Parse the text of a run file: `query_id Q0 doc_id rank score
/// run_tag...` per line, blank lines and `#` comments skipped. The
/// first malformed line fails the whole parse with its number and
/// content; otherwise every record is returned, in file order.
pub fn load_trec_runs(text: &str) -> (r: Result<Vec<TrecRun>, TrecError>)
    ensures
        match spec_parse_runs(text.spec_bytes(), 0, 1) {
            Result::Ok(rs) => r matches Result::Ok(runs) && runs@.len() == rs.len() && (forall|
                j: int,
            |
                0 <= j < rs.len() ==> run_matches(#[trigger] runs@[j], rs[j])),
            Result::Err(ev) => r matches Result::Err(e) && err_matches(e, ev),
        },
{
    let bytes = text.as_bytes();
    let n = bytes.len();
    let mut runs: Vec<TrecRun> = Vec::new();
    let ghost mut pv: Seq<RunV> = Seq::empty();
    let mut i: usize = 0;
    let mut line0: usize = 0;
    while i < n
        invariant
            i <= n == bytes@.len(),
            bytes@ == text.spec_bytes(),
            line0 <= i,
            runs@.len() == pv.len(),
            forall|j: int| 0 <= j < pv.len() ==> run_matches(#[trigger] runs@[j], pv[j]),
            match spec_parse_runs(bytes@, i as int, line0 + 1) {
                Result::Ok(rest) => spec_parse_runs(bytes@, 0, 1) matches Result::Ok(all) && all
                    == pv + rest,
                Result::Err(ev) => spec_parse_runs(bytes@, 0, 1) matches Result::Err(ev2) && ev2
                    == ev,
            },
        decreases n - i,
    {
        let mut e: usize = i;
        while e < n && bytes[e] != 10
            invariant
                i <= e <= n == bytes@.len(),
                spec_line_end(bytes@, i as int) == spec_line_end(bytes@, e as int),
            decreases n - e,
        {
            e = e + 1;
        }
        let line = vstd::slice::slice_subrange(bytes, i, e);
        match parse_run_line(line) {
            Result::Ok(Option::Some(run)) => {
                proof {
                    pv = pv.push(spec_run_line(line@)->Record_0);
                }
                runs.push(run);
                proof {
                    if e < n {
                        match spec_parse_runs(bytes@, e + 1, line0 + 2) {
                            Result::Ok(rest) => {
                                assert(pv + rest =~= pv.drop_last() + (seq![
                                    spec_run_line(line@)->Record_0,
                                ] + rest));
                            },
                            Result::Err(ev) => {},
                        }
                    } else {
                        assert(spec_parse_runs(bytes@, i as int, line0 + 1) matches Result::Ok(o)
                            && o == seq![spec_run_line(line@)->Record_0] + Seq::<RunV>::empty());
                        assert(pv =~= pv.drop_last() + (seq![spec_run_line(line@)->Record_0]
                            + Seq::<RunV>::empty()));
                    }
                }
            },
            Result::Ok(Option::None) => {
            },
            Result::Err(kind) => {
                let content_bytes = vstd::slice::slice_to_vec(line);
                let content = bytes_to_string(&content_bytes);
                return Result::Err(TrecError { line: line0 + 1, content, kind });
            },
        }
        if e < n {
            i = e + 1;
            line0 = line0 + 1;
        } else {
            i = n;
        }
    }
    proof {
        assert(pv + Seq::<RunV>::empty() =~= pv);
    }
    Result::Ok(runs)
}

/// Parse the text of a qrels file: `query_id 0 doc_id relevance` per
/// line, blank lines and `#` comments skipped. The first malformed
/// line fails the whole parse; otherwise every judgment is returned,
/// in file order.
pub fn load_qrels(text: &str) -> (r: Result<Vec<Qrel>, TrecError>)
    ensures
        match spec_parse_qrels(text.spec_bytes(), 0, 1) {
            Result::Ok(qs) => r matches Result::Ok(qrels) && qrels@.len() == qs.len() && (forall|
                j: int,
            |
                0 <= j < qs.len() ==> qrel_matches(#[trigger] qrels@[j], qs[j])),
            Result::Err(ev) => r matches Result::Err(e) && err_matches(e, ev),
        },
{
    let bytes = text.as_bytes();
    let n = bytes.len();
    let mut qrels: Vec<Qrel> = Vec::new();
    let ghost mut pv: Seq<QrelV> = Seq::empty();
    let mut i: usize = 0;
    let mut line0: usize = 0;
    while i < n
        invariant
            i <= n == bytes@.len(),
            bytes@ == text.spec_bytes(),
            line0 <= i,
            qrels@.len() == pv.len(),
            forall|j: int| 0 <= j < pv.len() ==> qrel_matches(#[trigger] qrels@[j], pv[j]),
            match spec_parse_qrels(bytes@, i as int, line0 + 1) {
                Result::Ok(rest) => spec_parse_qrels(bytes@, 0, 1) matches Result::Ok(all) && all
                    == pv + rest,
                Result::Err(ev) => spec_parse_qrels(bytes@, 0, 1) matches Result::Err(ev2) && ev2
                    == ev,
            },
        decreases n - i,
    {
        let mut e: usize = i;
        while e < n && bytes[e] != 10
            invariant
                i <= e <= n == bytes@.len(),
                spec_line_end(bytes@, i as int) == spec_line_end(bytes@, e as int),
            decreases n - e,
        {
            e = e + 1;
        }
        let line = vstd::slice::slice_subrange(bytes, i, e);
        match parse_qrel_line(line) {
            Result::Ok(Option::Some(q)) => {
                proof {
                    pv = pv.push(spec_qrel_line(line@)->Record_0);
                }
                qrels.push(q);
                proof {
                    if e < n {
                        match spec_parse_qrels(bytes@, e + 1, line0 + 2) {
                            Result::Ok(rest) => {
                                assert(pv + rest =~= pv.drop_last() + (seq![
                                    spec_qrel_line(line@)->Record_0,
                                ] + rest));
                            },
                            Result::Err(ev) => {},
                        }
                    } else {
                        assert(pv =~= pv.drop_last() + (seq![spec_qrel_line(line@)->Record_0]
                            + Seq::<QrelV>::empty()));
                    }
                }
            },
            Result::Ok(Option::None) => {
            },
            Result::Err(kind) => {
                let content_bytes = vstd::slice::slice_to_vec(line);
                let content = bytes_to_string(&content_bytes);
                return Result::Err(TrecError { line: line0 + 1, content, kind });
            },
        }
        if e < n {
            i = e + 1;
            line0 = line0 + 1;
        } else {
            i = n;
        }
    }
    proof {
        assert(pv + Seq::<QrelV>::empty() =~= pv);
    }
    Result::Ok(qrels)
}

/// The view of one ranked entry: id bytes and exact score.
pub open spec fn entry_views(v: Seq<(String, Score)>) -> Seq<(Seq<u8>, Score)> {
    v.map_values(|p: (String, Score)| (string_bytes(p.0), p.1))
}

/// The view of one method's lists, keyed by run tag.
pub open spec fn tag_views(v: Seq<(String, Vec<(String, Score)>)>) -> Seq<
    (Seq<u8>, Seq<(Seq<u8>, Score)>),
> {
    v.map_values(|p: (String, Vec<(String, Score)>)| (string_bytes(p.0), entry_views(p.1@)))
}

/// The view of grouped runs, keyed by query id.
pub open spec fn grouped_runs_views(
    v: Seq<(String, Vec<(String, Vec<(String, Score)>)>)>,
) -> Seq<(Seq<u8>, Seq<(Seq<u8>, Seq<(Seq<u8>, Score)>)>)> {
    v.map_values(
        |p: (String, Vec<(String, Vec<(String, Score)>)>)|
            (string_bytes(p.0), tag_views(p.1@)),
    )
}

/// The view of one query's judgments, keyed by document id.
pub open spec fn doc_grade_views(v: Seq<(String, u32)>) -> Seq<(Seq<u8>, u32)> {
    v.map_values(|p: (String, u32)| (string_bytes(p.0), p.1))
}

/// The view of grouped judgments, keyed by query id.
pub open spec fn grouped_qrels_views(v: Seq<(String, Vec<(String, u32)>)>) -> Seq<
    (Seq<u8>, Seq<(Seq<u8>, u32)>),
> {
    v.map_values(|p: (String, Vec<(String, u32)>)| (string_bytes(p.0), doc_grade_views(p.1@)))
}

/// The view of a parsed run record.
pub open spec fn run_view(r: TrecRun) -> RunV {
    RunV {
        query_id: string_bytes(r.query_id),
        doc_id: string_bytes(r.doc_id),
        rank: r.rank as int,
        score: r.score,
        run_tag: string_bytes(r.run_tag),
    }
}

/// The view of a judgment record.
pub open spec fn qrel_view(q: Qrel) -> QrelV {
    QrelV {
        query_id: string_bytes(q.query_id),
        doc_id: string_bytes(q.doc_id),
        relevance: q.relevance as int,
    }
}

/// First position of `key` in an association list, or the length.
pub open spec fn spec_key_index<T>(g: Seq<(Seq<u8>, T)>, key: Seq<u8>) -> int
    decreases g.len()
{
    if g.len() == 0 {
        0
    } else if g[0].0 == key {
        0
    } else {
        1 + spec_key_index(g.drop_first(), key)
    }
}

/// `spec_key_index` is the first matching position.
pub proof fn lemma_key_index_first<T>(g: Seq<(Seq<u8>, T)>, key: Seq<u8>, i: int)
    requires
        0 <= i <= g.len(),
        forall|j: int| 0 <= j < i ==> (#[trigger] g[j]).0 != key,
        i < g.len() ==> g[i].0 == key,
        i == g.len() ==> forall|j: int| 0 <= j < g.len() ==> (#[trigger] g[j]).0 != key,
    ensures
        spec_key_index(g, key) == i,
    decreases g.len()
{
    if g.len() == 0 {
    } else if g[0].0 == key {
        assert(i == 0);
    } else {
        let d = g.drop_first();
        assert forall|j: int| 0 <= j < i - 1 implies (#[trigger] d[j]).0 != key by {
            assert(d[j] == g[j + 1]);
        }
        if i == g.len() {
            assert forall|j: int| 0 <= j < d.len() implies (#[trigger] d[j]).0 != key by {
                assert(d[j] == g[j + 1]);
            }
        }
        lemma_key_index_first(d, key, i - 1);
    }
}

/// String equality decides byte equality (UTF-8 encoding is injective).
pub fn string_eq(a: &String, b: &String) -> (r: bool)
    ensures
        r == (string_bytes(*a) == string_bytes(*b)),
{
    let r = a.eq(b);
    proof {
        vstd::utf8::encode_utf8_decode_utf8(a@);
        vstd::utf8::encode_utf8_decode_utf8(b@);
    }
    r
}

/// Insert an entry into a list kept in descending score order, after
/// every entry scoring at least as much (so equal scores keep their
/// arrival order, as a stable sort would leave them).
pub open spec fn spec_insert_desc(l: Seq<(Seq<u8>, Score)>, x: (Seq<u8>, Score)) -> Seq<
    (Seq<u8>, Score),
>
    decreases l.len()
{
    if l.len() > 0 && x.1.spec_le(l[0].1) {
        seq![l[0]] + spec_insert_desc(l.drop_first(), x)
    } else {
        seq![x] + l
    }
}

/// Splitting the insertion at the first strictly-smaller entry.
proof fn lemma_insert_desc_at(l: Seq<(Seq<u8>, Score)>, x: (Seq<u8>, Score), p: int)
    requires
        0 <= p <= l.len(),
        forall|j: int| 0 <= j < p ==> x.1.spec_le((#[trigger] l[j]).1),
        p < l.len() ==> !x.1.spec_le(l[p].1),
    ensures
        spec_insert_desc(l, x) == l.take(p) + seq![x] + l.skip(p),
    decreases p
{
    if p == 0 {
        assert(spec_insert_desc(l, x) == seq![x] + l);
        assert(l.take(0) + seq![x] + l.skip(0) =~= seq![x] + l);
    } else {
        let d = l.drop_first();
        assert forall|j: int| 0 <= j < p - 1 implies x.1.spec_le((#[trigger] d[j]).1) by {
            assert(d[j] == l[j + 1]);
        }
        assert(p - 1 < d.len() ==> !x.1.spec_le(d[p - 1].1)) by {
            if p - 1 < d.len() {
                assert(d[p - 1] == l[p]);
            }
        }
        lemma_insert_desc_at(d, x, p - 1);
        assert(spec_insert_desc(l, x) == seq![l[0]] + (d.take(p - 1) + seq![x] + d.skip(p - 1)));
        assert(seq![l[0]] + (d.take(p - 1) + seq![x] + d.skip(p - 1)) =~= l.take(p) + seq![x]
            + l.skip(p));
    }
}

/// Insert a scored document into a descending list.
fn insert_desc(entries: &mut Vec<(String, Score)>, doc: String, score: Score)
    requires
        score.wf(),
        forall|j: int| 0 <= j < old(entries)@.len() ==> (#[trigger] old(entries)@[j]).1.wf(),
    ensures
        entry_views(final(entries)@) == spec_insert_desc(
            entry_views(old(entries)@),
            (string_bytes(doc), score),
        ),
        forall|j: int| 0 <= j < final(entries)@.len() ==> (#[trigger] final(entries)@[j]).1.wf(),
{
    let ghost l = entry_views(entries@);
    let ghost x = (string_bytes(doc), score);
    let mut p: usize = 0;
    let mut found = false;
    while p < entries.len() && !found
        invariant
            p <= entries@.len(),
            entry_views(entries@) == l,
            x == (string_bytes(doc), score),
            score.wf(),
            forall|j: int| 0 <= j < entries@.len() ==> (#[trigger] entries@[j]).1.wf(),
            forall|j: int| 0 <= j < p ==> x.1.spec_le((#[trigger] l[j]).1),
            found ==> p < entries@.len() && !x.1.spec_le(l[p as int].1),
        decreases entries@.len() - p + if found { 0int } else { 1int },
    {
        proof {
            assert(l[p as int].1 == entries@[p as int].1);
        }
        if crate::score::score_le(&score, &entries[p].1) {
            p = p + 1;
        } else {
            found = true;
        }
    }
    proof {
        lemma_insert_desc_at(l, x, p as int);
    }
    let ghost before = entries@;
    entries.insert(p, (doc, score));
    proof {
        assert(entry_views(entries@) =~= l.take(p as int) + seq![x] + l.skip(p as int));
    }
}

/// Group runs per query and run tag (the fold of `spec_add_run`): the
/// list for a (query, tag) pair holds that pair's documents and scores
/// in descending score order, ties in arrival order.
pub open spec fn spec_add_run(
    g: Seq<(Seq<u8>, Seq<(Seq<u8>, Seq<(Seq<u8>, Score)>)>)>,
    r: RunV,
) -> Seq<(Seq<u8>, Seq<(Seq<u8>, Seq<(Seq<u8>, Score)>)>)> {
    let entry = (r.doc_id, r.score);
    let qi = spec_key_index(g, r.query_id);
    if qi == g.len() {
        g.push((r.query_id, seq![(r.run_tag, seq![entry])]))
    } else {
        let tags = g[qi].1;
        let ti = spec_key_index(tags, r.run_tag);
        let tags2 = if ti == tags.len() {
            tags.push((r.run_tag, seq![entry]))
        } else {
            tags.update(ti, (tags[ti].0, spec_insert_desc(tags[ti].1, entry)))
        };
        g.update(qi, (g[qi].0, tags2))
    }
}

/// The grouped form of the first `i` run records, in arrival order.
pub open spec fn spec_group_runs(rs: Seq<RunV>, i: int) -> Seq<
    (Seq<u8>, Seq<(Seq<u8>, Seq<(Seq<u8>, Score)>)>),
>
    decreases i
{
    if i <= 0 {
        Seq::empty()
    } else {
        spec_add_run(spec_group_runs(rs, i - 1), rs[i - 1])
    }
}

/// All scores in a grouped-runs structure are well-formed.
pub open spec fn grouped_runs_wf(v: Seq<(String, Vec<(String, Vec<(String, Score)>)>)>) -> bool {
    forall|q: int, t: int, k: int|
        0 <= q < v.len() && 0 <= t < v[q].1@.len() && 0 <= k < v[q].1@[t].1@.len()
            ==> (#[trigger] v[q].1@[t].1@[k]).1.wf()
}

/// Group runs by query id, then by run tag: each (query, tag) pair
/// maps to its documents and scores, sorted by score descending (ties
/// keep file order). Keys appear in first-arrival order and are
/// unique, as the specification `spec_group_runs` dictates.
pub fn group_runs_by_query(runs: &Vec<TrecRun>) -> (r: Vec<
    (String, Vec<(String, Vec<(String, Score)>)>),
>)
    requires
        forall|j: int| 0 <= j < runs@.len() ==> (#[trigger] runs@[j]).score.wf(),
    ensures
        grouped_runs_views(r@) == spec_group_runs(
            runs@.map_values(|t: TrecRun| run_view(t)),
            runs@.len() as int,
        ),
        grouped_runs_wf(r@),
{
    let ghost rv = runs@.map_values(|t: TrecRun| run_view(t));
    let mut g: Vec<(String, Vec<(String, Vec<(String, Score)>)>)> = Vec::new();
    let mut i: usize = 0;
    while i < runs.len()
        invariant
            i <= runs@.len(),
            rv == runs@.map_values(|t: TrecRun| run_view(t)),
            forall|j: int| 0 <= j < runs@.len() ==> (#[trigger] runs@[j]).score.wf(),
            grouped_runs_views(g@) == spec_group_runs(rv, i as int),
            grouped_runs_wf(g@),
        decreases runs@.len() - i,
    {
        let run = &runs[i];
        proof {
            assert(rv[i as int] == run_view(runs@[i as int]));
        }
        let ghost gv = grouped_runs_views(g@);
        // find the query group
        let mut qi: usize = 0;
        let mut q_found = false;
        while qi < g.len() && !q_found
            invariant
                qi <= g@.len(),
                i < runs@.len(),
                run == runs@[i as int],
                gv == grouped_runs_views(g@),
                forall|j: int|
                    0 <= j < qi ==> (#[trigger] gv[j]).0 != string_bytes(runs@[i as int].query_id),
                q_found ==> qi < g@.len() && gv[qi as int].0 == string_bytes(
                    runs@[i as int].query_id,
                ),
            decreases g@.len() - qi + if q_found { 0int } else { 1int },
        {
            proof {
                assert(gv[qi as int].0 == string_bytes(g@[qi as int].0));
            }
            if string_eq(&g[qi].0, &run.query_id) {
                q_found = true;
            } else {
                qi = qi + 1;
            }
        }
        proof {
            lemma_key_index_first(gv, string_bytes(runs@[i as int].query_id), qi as int);
        }
        let ghost entry_s = (string_bytes(runs@[i as int].doc_id), runs@[i as int].score);
        if qi == g.len() {
            let mut entries: Vec<(String, Score)> = Vec::new();
            entries.push((run.doc_id.clone(), run.score));
            proof {
                assert(entry_views(entries@) =~= seq![entry_s]);
            }
            let mut tags: Vec<(String, Vec<(String, Score)>)> = Vec::new();
            tags.push((run.run_tag.clone(), entries));
            proof {
                assert(tag_views(tags@) =~= seq![
                    (string_bytes(runs@[i as int].run_tag), seq![entry_s]),
                ]);
            }
            let ghost g_before = g@;
            g.push((run.query_id.clone(), tags));
            proof {
                assert(grouped_runs_views(g@) =~= gv.push(
                    (
                        string_bytes(runs@[i as int].query_id),
                        seq![(string_bytes(runs@[i as int].run_tag), seq![entry_s])],
                    ),
                ));
                assert(grouped_runs_views(g@) =~= spec_add_run(gv, rv[i as int]));
            }
        } else {
            let ghost g_before = g@;
            let mut pair = g.remove(qi);
            proof {
                assert(pair == g_before[qi as int]);
                assert(gv[qi as int] == (string_bytes(pair.0), tag_views(pair.1@)));
            }
            let ghost tags_v = tag_views(pair.1@);
            // find the tag list
            let mut ti: usize = 0;
            let mut t_found = false;
            while ti < pair.1.len() && !t_found
                invariant
                    ti <= pair.1@.len(),
                    i < runs@.len(),
                    run == runs@[i as int],
                    tags_v == tag_views(pair.1@),
                    forall|j: int|
                        0 <= j < ti ==> (#[trigger] tags_v[j]).0 != string_bytes(
                            runs@[i as int].run_tag,
                        ),
                    t_found ==> ti < pair.1@.len() && tags_v[ti as int].0 == string_bytes(
                        runs@[i as int].run_tag,
                    ),
                decreases pair.1@.len() - ti + if t_found { 0int } else { 1int },
            {
                proof {
                    assert(tags_v[ti as int].0 == string_bytes(pair.1@[ti as int].0));
                }
                if string_eq(&pair.1[ti].0, &run.run_tag) {
                    t_found = true;
                } else {
                    ti = ti + 1;
                }
            }
            proof {
                lemma_key_index_first(tags_v, string_bytes(runs@[i as int].run_tag), ti as int);
            }
            if ti == pair.1.len() {
                let mut entries: Vec<(String, Score)> = Vec::new();
                entries.push((run.doc_id.clone(), run.score));
                proof {
                    assert(entry_views(entries@) =~= seq![entry_s]);
                }
                pair.1.push((run.run_tag.clone(), entries));
                proof {
                    assert(tag_views(pair.1@) =~= tags_v.push(
                        (string_bytes(runs@[i as int].run_tag), seq![entry_s]),
                    ));
                }
            } else {
                let ghost tags_before = pair.1@;
                let mut tag_pair = pair.1.remove(ti);
                proof {
                    assert(tag_pair == tags_before[ti as int]);
                    assert(tags_v[ti as int] == (string_bytes(tag_pair.0), entry_views(
                        tag_pair.1@,
                    )));
                    assert forall|k: int|
                        0 <= k < tag_pair.1@.len() implies (#[trigger] tag_pair.1@[k]).1.wf() by {
                        assert(g_before[qi as int].1@[ti as int].1@[k] == tag_pair.1@[k]);
                    }
                }
                insert_desc(&mut tag_pair.1, run.doc_id.clone(), run.score);
                pair.1.insert(ti, tag_pair);
                proof {
                    assert(tag_views(pair.1@) =~= tags_v.update(
                        ti as int,
                        (tags_v[ti as int].0, spec_insert_desc(tags_v[ti as int].1, entry_s)),
                    ));
                }
            }
            g.insert(qi, pair);
            proof {
                assert(g@ =~= g_before.update(qi as int, pair));
                assert(grouped_runs_views(g@) =~= gv.update(
                    qi as int,
                    (gv[qi as int].0, tag_views(pair.1@)),
                ));
                assert(grouped_runs_views(g@) =~= spec_add_run(gv, rv[i as int]));
            }
        }
        i = i + 1;
    }
    g
}

/// Group judgments per query and document (the fold of this update):
/// later judgments for the same (query, document) pair overwrite
/// earlier ones.
pub open spec fn spec_add_qrel(
    g: Seq<(Seq<u8>, Seq<(Seq<u8>, u32)>)>,
    q: QrelV,
) -> Seq<(Seq<u8>, Seq<(Seq<u8>, u32)>)> {
    let qi = spec_key_index(g, q.query_id);
    if qi == g.len() {
        g.push((q.query_id, seq![(q.doc_id, q.relevance as u32)]))
    } else {
        let docs = g[qi].1;
        let di = spec_key_index(docs, q.doc_id);
        let docs2 = if di == docs.len() {
            docs.push((q.doc_id, q.relevance as u32))
        } else {
            docs.update(di, (q.doc_id, q.relevance as u32))
        };
        g.update(qi, (g[qi].0, docs2))
    }
}

/// The grouped form of the first `i` judgments.
pub open spec fn spec_group_qrels(qs: Seq<QrelV>, i: int) -> Seq<(Seq<u8>, Seq<(Seq<u8>, u32)>)>
    decreases i
{
    if i <= 0 {
        Seq::empty()
    } else {
        spec_add_qrel(spec_group_qrels(qs, i - 1), qs[i - 1])
    }
}

/// Group judgments by query id: each query maps each judged document
/// to its relevance grade; a duplicated (query, document) pair keeps
/// the last grade (last write wins).
pub fn group_qrels_by_query(qrels: &Vec<Qrel>) -> (r: Vec<(String, Vec<(String, u32)>)>)
    ensures
        grouped_qrels_views(r@) == spec_group_qrels(
            qrels@.map_values(|t: Qrel| qrel_view(t)),
            qrels@.len() as int,
        ),
{
    let ghost qv = qrels@.map_values(|t: Qrel| qrel_view(t));
    let mut g: Vec<(String, Vec<(String, u32)>)> = Vec::new();
    let mut i: usize = 0;
    while i < qrels.len()
        invariant
            i <= qrels@.len(),
            qv == qrels@.map_values(|t: Qrel| qrel_view(t)),
            grouped_qrels_views(g@) == spec_group_qrels(qv, i as int),
        decreases qrels@.len() - i,
    {
        let q = &qrels[i];
        proof {
            assert(qv[i as int] == qrel_view(qrels@[i as int]));
        }
        let ghost gv = grouped_qrels_views(g@);
        let mut qi: usize = 0;
        let mut q_found = false;
        while qi < g.len() && !q_found
            invariant
                qi <= g@.len(),
                i < qrels@.len(),
                q == qrels@[i as int],
                gv == grouped_qrels_views(g@),
                forall|j: int|
                    0 <= j < qi ==> (#[trigger] gv[j]).0 != string_bytes(
                        qrels@[i as int].query_id,
                    ),
                q_found ==> qi < g@.len() && gv[qi as int].0 == string_bytes(
                    qrels@[i as int].query_id,
                ),
            decreases g@.len() - qi + if q_found { 0int } else { 1int },
        {
            proof {
                assert(gv[qi as int].0 == string_bytes(g@[qi as int].0));
            }
            if string_eq(&g[qi].0, &q.query_id) {
                q_found = true;
            } else {
                qi = qi + 1;
            }
        }
        proof {
            lemma_key_index_first(gv, string_bytes(qrels@[i as int].query_id), qi as int);
        }
        if qi == g.len() {
            let mut docs: Vec<(String, u32)> = Vec::new();
            docs.push((q.doc_id.clone(), q.relevance));
            proof {
                assert(doc_grade_views(docs@) =~= seq![
                    (string_bytes(qrels@[i as int].doc_id), qrels@[i as int].relevance),
                ]);
            }
            g.push((q.query_id.clone(), docs));
            proof {
                assert(grouped_qrels_views(g@) =~= gv.push(
                    (
                        string_bytes(qrels@[i as int].query_id),
                        seq![(string_bytes(qrels@[i as int].doc_id), qrels@[i as int].relevance)],
                    ),
                ));
                assert(grouped_qrels_views(g@) =~= spec_add_qrel(gv, qv[i as int]));
            }
        } else {
            let ghost g_before = g@;
            let mut pair = g.remove(qi);
            proof {
                assert(pair == g_before[qi as int]);
                assert(gv[qi as int] == (string_bytes(pair.0), doc_grade_views(pair.1@)));
            }
            let ghost docs_v = doc_grade_views(pair.1@);
            let mut di: usize = 0;
            let mut d_found = false;
            while di < pair.1.len() && !d_found
                invariant
                    di <= pair.1@.len(),
                    i < qrels@.len(),
                    q == qrels@[i as int],
                    docs_v == doc_grade_views(pair.1@),
                    forall|j: int|
                        0 <= j < di ==> (#[trigger] docs_v[j]).0 != string_bytes(
                            qrels@[i as int].doc_id,
                        ),
                    d_found ==> di < pair.1@.len() && docs_v[di as int].0 == string_bytes(
                        qrels@[i as int].doc_id,
                    ),
                decreases pair.1@.len() - di + if d_found { 0int } else { 1int },
            {
                proof {
                    assert(docs_v[di as int].0 == string_bytes(pair.1@[di as int].0));
                }
                if string_eq(&pair.1[di].0, &q.doc_id) {
                    d_found = true;
                } else {
                    di = di + 1;
                }
            }
            proof {
                lemma_key_index_first(docs_v, string_bytes(qrels@[i as int].doc_id), di as int);
            }
            if di == pair.1.len() {
                pair.1.push((q.doc_id.clone(), q.relevance));
                proof {
                    assert(doc_grade_views(pair.1@) =~= docs_v.push(
                        (string_bytes(qrels@[i as int].doc_id), qrels@[i as int].relevance),
                    ));
                }
            } else {
                pair.1.remove(di);
                pair.1.insert(di, (q.doc_id.clone(), q.relevance));
                proof {
                    assert(doc_grade_views(pair.1@) =~= docs_v.update(
                        di as int,
                        (string_bytes(qrels@[i as int].doc_id), qrels@[i as int].relevance),
                    ));
                }
            }
            g.insert(qi, pair);
            proof {
                assert(g@ =~= g_before.update(qi as int, pair));
                assert(grouped_qrels_views(g@) =~= gv.update(
                    qi as int,
                    (gv[qi as int].0, doc_grade_views(pair.1@)),
                ));
                assert(grouped_qrels_views(g@) =~= spec_add_qrel(gv, qv[i as int]));
            }
        }
        i = i + 1;
    }
    g
}

} // verus!
