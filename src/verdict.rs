use vstd::prelude::*;
use crate::status::VerificationStatus;
use crate::text::{chars_of, string_of, trim, trim_chars, slice_of, concat_str};
use crate::models::RequiredFact;

verus! {

/// Confidence is held in basis points: 10000 is certainty, 0 none.
pub const CONFIDENCE_ONE: u32 = 10000;

/// What a verifier concluded about a fragment.
#[derive(Clone, Debug)]
pub struct VerificationResult {
    pub status: VerificationStatus,
    /// Confidence in basis points, `0..=10000`.
    pub confidence_bp: u32,
    pub reason: String,
}

/// What `str::to_uppercase` yields for `s`.
pub uninterp spec fn upper_of(s: Seq<char>) -> Seq<char>;

/// Relies on `str::to_uppercase`: the uppercase form of `s`.
#[verifier::external_body]
fn uppercase(s: &str) -> (r: String)
    ensures
        r@ == upper_of(s@),
{
    s.to_uppercase()
}

/// The grade a label names; anything else is `GrayMid`.
pub open spec fn status_of_label(u: Seq<char>) -> VerificationStatus {
    if u == "SMOKE"@ {
        VerificationStatus::Smoke
    } else if u == "GRAY_BLACK"@ {
        VerificationStatus::GrayBlack
    } else if u == "GRAY_MID"@ {
        VerificationStatus::GrayMid
    } else if u == "GRAY_WHITE"@ {
        VerificationStatus::GrayWhite
    } else if u == "WHITE"@ {
        VerificationStatus::White
    } else {
        VerificationStatus::GrayMid
    }
}

/// Reads a grade label, trimmed and without regard to case
/// (`SMOKE`, `GRAY_BLACK`, `GRAY_MID`, `GRAY_WHITE`, `WHITE`); anything
/// else is `GrayMid`.
pub fn parse_status(raw: &str) -> (r: VerificationStatus)
    ensures
        r == status_of_label(upper_of(trim(raw@))),
{
    let t = string_of(trim_chars(&chars_of(raw)).as_slice());
    let u = uppercase(t.as_str());
    status_from_upper(u.as_str())
}

/// The grade an uppercased, trimmed label names; anything else is
/// `GrayMid`.
pub fn status_from_upper(u: &str) -> (r: VerificationStatus)
    ensures
        r == status_of_label(u@),
{
    let u = u.to_owned();
    if u == "SMOKE".to_owned() {
        VerificationStatus::Smoke
    } else if u == "GRAY_BLACK".to_owned() {
        VerificationStatus::GrayBlack
    } else if u == "GRAY_MID".to_owned() {
        VerificationStatus::GrayMid
    } else if u == "GRAY_WHITE".to_owned() {
        VerificationStatus::GrayWhite
    } else if u == "WHITE".to_owned() {
        VerificationStatus::White
    } else {
        VerificationStatus::GrayMid
    }
}

/// `v` held within `[lo, hi]`.
pub open spec fn clamp(v: int, lo: int, hi: int) -> int {
    if v < lo {
        lo
    } else if v > hi {
        hi
    } else {
        v
    }
}

/// The evidence factor `clamp(evidence_count / 3, 0.4, 1.0)`, in thirtieths.
pub open spec fn evidence_factor(evidence_count: int) -> int {
    clamp(10 * evidence_count, 12, 30)
}

/// A verifier's raw confidence (basis points) weighed by the evidence:
/// `clamp(raw * clamp(evidence_count / 3, 0.4, 1.0), 0, 1)`, rounded down.
pub open spec fn adjusted_confidence(raw_bp: int, evidence_count: int) -> int {
    clamp(raw_bp * evidence_factor(evidence_count) / 30, 0, 10000)
}

/// Weighs a verifier's raw confidence (basis points, possibly out of
/// range) by the number of evidence entries it saw.
pub fn confidence_adjust(raw_bp: i64, evidence_count: usize) -> (r: u32)
    ensures
        r as int == adjusted_confidence(raw_bp as int, evidence_count as int),
{
    let f: i64 = if evidence_count >= 3 {
        30
    } else if evidence_count == 2 {
        20
    } else {
        12
    };
    assert(f == evidence_factor(evidence_count as int));
    if raw_bp <= 0 {
        assert(raw_bp * f <= 0) by (nonlinear_arith)
            requires
                raw_bp <= 0,
                f > 0,
        ;
        return 0;
    }
    if raw_bp >= 25000 {
        assert(raw_bp * f / 30 >= 10000) by (nonlinear_arith)
            requires
                raw_bp >= 25000,
                f >= 12,
        ;
        return CONFIDENCE_ONE;
    }
    assert(0 < raw_bp * f <= 25000 * 30) by (nonlinear_arith)
        requires
            0 < raw_bp < 25000,
            12 <= f <= 30,
    ;
    let v = raw_bp * f / 30;
    if v > 10000 {
        CONFIDENCE_ONE
    } else {
        v as u32
    }
}

/// A reason as displayed: each newline becomes a space, the text is
/// trimmed, and when it takes over 120 bytes of UTF-8 it is cut to its
/// first 120 characters followed by `...`.
pub open spec fn summary_of(raw: Seq<char>) -> Seq<char> {
    let t = trim(raw.map_values(|c: char| if c == '\n' { ' ' } else { c }));
    if vstd::utf8::encode_utf8(t).len() <= 120 {
        t
    } else {
        (if t.len() <= 120 {
            t
        } else {
            t.subrange(0, 120)
        }) + "..."@
    }
}

/// Shortens a verifier's reasoning for display.
pub fn summarize_reasoning(raw: &str) -> (r: String)
    ensures
        r@ == summary_of(raw@),
{
    let v = chars_of(raw);
    let mut w: Vec<char> = Vec::new();
    let mut i: usize = 0;
    while i < v.len()
        invariant
            i <= v@.len(),
            w@ == v@.subrange(0, i as int).map_values(|c: char| if c == '\n' { ' ' } else { c }),
        decreases v@.len() - i,
    {
        w.push(if v[i] == '\n' { ' ' } else { v[i] });
        assert(v@.subrange(0, i + 1).map_values(|c: char| if c == '\n' { ' ' } else { c })
            =~= v@.subrange(0, i as int).map_values(|c: char| if c == '\n' { ' ' } else { c }).push(
            if v@[i as int] == '\n' { ' ' } else { v@[i as int] }));
        i = i + 1;
    }
    assert(v@.subrange(0, v@.len() as int) =~= v@);
    let t = trim_chars(&w);
    let text = string_of(t.as_slice());
    if utf8_len_at_most(&t, 120) {
        return text;
    }
    let mut out = if t.len() <= 120 {
        t
    } else {
        slice_of(&t, 0, 120)
    };
    let ghost head = out@;
    out.push('.');
    out.push('.');
    out.push('.');
    proof {
        reveal_strlit("...");
    }
    assert(out@ =~= head + "..."@);
    string_of(out.as_slice())
}

/// Whether the UTF-8 encoding of `v` takes at most `limit` bytes.
fn utf8_len_at_most(v: &Vec<char>, limit: usize) -> (r: bool)
    ensures
        r == (vstd::utf8::encode_utf8(v@).len() <= limit),
{
    let mut sum: usize = 0;
    let mut i: usize = 0;
    assert(v@.subrange(0, v@.len() as int) =~= v@);
    while i < v.len()
        invariant
            i <= v@.len(),
            sum <= limit,
            vstd::utf8::encode_utf8(v@).len() == sum + vstd::utf8::encode_utf8(
                v@.subrange(i as int, v@.len() as int),
            ).len(),
        decreases v@.len() - i,
    {
        let ghost rest = v@.subrange(i as int, v@.len() as int);
        assert(rest.drop_first() =~= v@.subrange(i + 1, v@.len() as int));
        let c = v[i] as u32;
        let w: usize = if c <= 0x7F {
            1
        } else if c <= 0x7FF {
            2
        } else if c <= 0xFFFF {
            3
        } else {
            4
        };
        proof {
            vstd::utf8::char_is_scalar(v@[i as int]);
        }
        assert(vstd::utf8::encode_scalar(c).len() == w);
        if w > limit - sum {
            return false;
        }
        sum = sum + w;
        i = i + 1;
    }
    true
}

/// The verdict when there is no evidence at all: `GrayMid`, 0.4,
/// "no evidence".
pub fn no_evidence_result() -> (r: VerificationResult)
    ensures
        r.status == VerificationStatus::GrayMid,
        r.confidence_bp == 4000,
        r.reason@ == "no evidence"@,
{
    VerificationResult {
        status: VerificationStatus::GrayMid,
        confidence_bp: 4000,
        reason: "no evidence".to_owned(),
    }
}

/// The verdict owed before a model is asked: the verdict for no evidence
/// when there is none, else nothing (the model decides).
pub fn verdict_without_model(evidence_count: usize) -> (r: Option<VerificationResult>)
    ensures
        evidence_count == 0 <==> r is Some,
        r matches Some(v) ==> v.status == VerificationStatus::GrayMid && v.confidence_bp == 4000
            && v.reason@ == "no evidence"@,
{
    if evidence_count == 0 {
        Some(no_evidence_result())
    } else {
        None
    }
}

/// The verdict when the model's answer cannot be had or read: `GrayMid`,
/// 0.4, and `parse error: ` followed by what went wrong.
pub fn unreadable_verdict(detail: &str) -> (r: VerificationResult)
    ensures
        r.status == VerificationStatus::GrayMid,
        r.confidence_bp == 4000,
        r.reason@ == "parse error: "@ + detail@,
{
    VerificationResult {
        status: VerificationStatus::GrayMid,
        confidence_bp: 4000,
        reason: concat_str("parse error: ", detail),
    }
}

/// A model verifier's verdict from its answer: the grade from its label,
/// its confidence weighed by the evidence, its reasoning shortened.
pub fn finish_verification(
    status_label: &str,
    raw_confidence_bp: i64,
    reasoning: &str,
    evidence_count: usize,
) -> (r: VerificationResult)
    ensures
        r.status == status_of_label(upper_of(trim(status_label@))),
        r.confidence_bp as int == adjusted_confidence(raw_confidence_bp as int, evidence_count as int),
        r.reason@ == summary_of(reasoning@),
{
    VerificationResult {
        status: parse_status(status_label),
        confidence_bp: confidence_adjust(raw_confidence_bp, evidence_count),
        reason: summarize_reasoning(reasoning),
    }
}

/// A verifier that needs no model: `White` at 0.8 when there are facts,
/// else the verdict for no evidence.
pub struct DummyVerifier;

impl DummyVerifier {
    /// The verdict on a fragment given the facts found for it.
    pub fn verify(&self, fragment: &str, facts: &Vec<RequiredFact>) -> (r: VerificationResult)
        ensures
            facts@.len() == 0 ==> r.status == VerificationStatus::GrayMid && r.confidence_bp
                == 4000 && r.reason@ == "no evidence"@,
            facts@.len() > 0 ==> r.status == VerificationStatus::White && r.confidence_bp == 8000
                && r.reason@ == "dummy verifier"@,
    {
        if facts.len() == 0 {
            no_evidence_result()
        } else {
            VerificationResult {
                status: VerificationStatus::White,
                confidence_bp: 8000,
                reason: "dummy verifier".to_owned(),
            }
        }
    }
}

} // verus!
