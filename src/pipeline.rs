use vstd::prelude::*;
use crate::status::VerificationStatus;
use crate::text::{chars_of, string_of, trim, trim_chars, slice_of, find_from, find_char};
use crate::tags::{TagBits, normalize_tags, tags_view, canon};
use crate::models::{
    Abstract, AgentIdentity, Evidence, Id, IsoDateTime, RequiredFact, Transition, TopicId,
    TagGroupId, OpLog,
};

verus! {

/// The non-empty trimmed lines of `s` from `start` on.
pub open spec fn lines_from(s: Seq<char>, start: int) -> Seq<Seq<char>>
    decreases s.len() - start,
{
    if start < 0 || start > s.len() {
        Seq::empty()
    } else {
        match find_from(s, '\n', start) {
            None => keep_line(s.subrange(start, s.len() as int)),
            Some(i) => if start <= i < s.len() {
                keep_line(s.subrange(start, i)) + lines_from(s, i + 1)
            } else {
                Seq::empty()
            },
        }
    }
}

/// A line trimmed, as a sequence of none (when blank) or one.
pub open spec fn keep_line(line: Seq<char>) -> Seq<Seq<char>> {
    if trim(line).len() == 0 {
        Seq::empty()
    } else {
        seq![trim(line)]
    }
}

/// Splits input into fragments by lines.
pub struct DummySplitter;

impl DummySplitter {
    /// The input's lines, trimmed, blank ones dropped.
    pub fn split(&self, input: &str) -> (r: Vec<String>)
        ensures
            r@.map_values(|s: String| s@) == lines_from(input@, 0),
    {
        let v = chars_of(input);
        let mut out: Vec<String> = Vec::new();
        let mut start: usize = 0;
        assert(v@.subrange(0, v@.len() as int) =~= v@);
        assert(out@.map_values(|s: String| s@) + lines_from(v@, 0) =~= lines_from(v@, 0));
        loop
            invariant
                start <= v@.len(),
                v@ == input@,
                lines_from(v@, 0) == out@.map_values(|s: String| s@) + lines_from(v@, start as int),
            decreases v@.len() - start,
        {
            let ghost before = out@.map_values(|s: String| s@);
            assert(v@.subrange(0, v@.len() as int) =~= v@);
            let end = match find_char(&v, '\n', start, v.len()) {
                None => v.len(),
                Some(i) => i,
            };
            let line = trim_chars(&slice_of(&v, start, end));
            if line.len() > 0 {
                out.push(string_of(line.as_slice()));
            }
            assert(out@.map_values(|s: String| s@) =~= before + keep_line(v@.subrange(start as int, end as int)));
            if end == v.len() {
                assert(lines_from(v@, start as int) == keep_line(v@.subrange(start as int, end as int)));
                return out;
            }
            assert(lines_from(v@, start as int) == keep_line(v@.subrange(start as int, end as int))
                + lines_from(v@, end + 1));
            assert(before + (keep_line(v@.subrange(start as int, end as int)) + lines_from(v@, end + 1))
                =~= out@.map_values(|s: String| s@) + lines_from(v@, end + 1));
            start = end + 1;
        }
    }
}

/// A fetcher that needs no network: one fact, keyed "mock", whose value
/// is the fragment, without evidence.
pub struct DummyFetcher;

impl DummyFetcher {
    /// The one fact for a fragment.
    pub fn fetch(&self, fragment: &str) -> (r: Vec<RequiredFact>)
        ensures
            r@.len() == 1,
            r@[0].key@ == "mock"@,
            r@[0].value@ == fragment@,
            r@[0].evidence@.len() == 0,
    {
        let mut out: Vec<RequiredFact> = Vec::new();
        out.push(RequiredFact { key: "mock".to_owned(), value: fragment.to_owned(), evidence: Vec::new() });
        out
    }
}

/// Total number of evidence entries over all facts.
pub open spec fn total_evidence(facts: Seq<RequiredFact>) -> int
    decreases facts.len(),
{
    if facts.len() == 0 {
        0
    } else {
        total_evidence(facts.drop_last()) + facts.last().evidence@.len()
    }
}

/// Counts the evidence entries over all facts.
pub fn evidence_count(facts: &Vec<RequiredFact>) -> (r: usize)
    requires
        total_evidence(facts@) <= usize::MAX,
    ensures
        r == total_evidence(facts@),
{
    let mut sum: usize = 0;
    let mut i: usize = 0;
    assert(facts@.subrange(0, 0) =~= Seq::<RequiredFact>::empty());
    while i < facts.len()
        invariant
            i <= facts@.len(),
            sum == total_evidence(facts@.subrange(0, i as int)),
            total_evidence(facts@) <= usize::MAX,
        decreases facts@.len() - i,
    {
        proof {
            lemma_total_prefix(facts@, i + 1);
            assert(facts@.subrange(0, i + 1).drop_last() =~= facts@.subrange(0, i as int));
        }
        sum = sum + facts[i].evidence.len();
        i = i + 1;
    }
    assert(facts@.subrange(0, i as int) =~= facts@);
    sum
}

proof fn lemma_total_prefix(facts: Seq<RequiredFact>, i: int)
    requires
        0 <= i <= facts.len(),
    ensures
        total_evidence(facts.subrange(0, i)) <= total_evidence(facts),
    decreases facts.len(),
{
    if i < facts.len() {
        assert(facts.drop_last().subrange(0, i) =~= facts.subrange(0, i));
        lemma_total_prefix(facts.drop_last(), i);
    } else {
        assert(facts.subrange(0, i) =~= facts);
    }
}

/// What a pipeline run produced for one fragment.
#[derive(Clone, Debug)]
pub struct IngestOutcome {
    pub op: OpLog,
    pub status: VerificationStatus,
    /// Confidence in basis points, `0..=10000`.
    pub confidence_bp: u32,
    pub evidence_count: usize,
    pub reason: String,
}

/// An abstract generator that needs no model.
pub struct DummyAbstractGenerator;

impl DummyAbstractGenerator {
    /// An abstract tagged `smoke` and `sanity`, summarized as
    /// `SMOKE: <fragment>`, graded `status`.
    pub fn generate(&self, fragment: &str, facts: &Vec<RequiredFact>, status: VerificationStatus) -> (r: Abstract)
        ensures
            tags_view(r.tags.tags) == seq!["smoke"@, "sanity"@],
            r.summary@ == "SMOKE: "@ + fragment@,
            r.verification == status,
    {
        let mut tags: Vec<String> = Vec::new();
        tags.push("smoke".to_owned());
        tags.push("sanity".to_owned());
        assert(tags_view(tags) =~= seq!["smoke"@, "sanity"@]);
        let mut a = Abstract::new(TopicId::new(), TagGroupId::new(), TagBits { tags });
        let mut summary = chars_of("SMOKE: ");
        let f = chars_of(fragment);
        let ghost head = summary@;
        let mut i: usize = 0;
        while i < f.len()
            invariant
                i <= f@.len(),
                summary@ == head + f@.subrange(0, i as int),
            decreases f@.len() - i,
        {
            summary.push(f[i]);
            assert(f@.subrange(0, i + 1) == f@.subrange(0, i as int).push(f@[i as int]));
            i = i + 1;
        }
        assert(f@.subrange(0, f@.len() as int) =~= f@);
        a.summary = string_of(summary.as_slice());
        a.verification = status;
        a
    }
}

/// An abstract built from a model's answer: its summary, and its tags
/// trimmed, deduplicated and sorted; graded `status`.
pub fn abstract_from_answer(summary: String, tags: Vec<String>, status: VerificationStatus) -> (r: Abstract)
    ensures
        r.summary@ == summary@,
        tags_view(r.tags.tags) == canon(tags_view(tags), false),
        r.verification == status,
{
    let bits = normalize_tags(tags);
    let mut a = Abstract::new(TopicId::new(), TagGroupId::new(), bits);
    a.summary = summary;
    a.verification = status;
    a
}

/// The summary written when a model's answer cannot be read: the first 80
/// characters of what it said, after a fixed prefix.
pub fn unreadable_answer_summary(content: &str) -> (r: String)
    ensures
        r@ == "LLM parse error. Raw: "@ + (if content@.len() <= 80 {
            content@
        } else {
            content@.subrange(0, 80)
        }),
{
    let v = chars_of(content);
    let head = if v.len() <= 80 {
        v
    } else {
        slice_of(&v, 0, 80)
    };
    let mut out = chars_of("LLM parse error. Raw: ");
    let ghost start = out@;
    let mut i: usize = 0;
    while i < head.len()
        invariant
            i <= head@.len(),
            out@ == start + head@.subrange(0, i as int),
        decreases head@.len() - i,
    {
        out.push(head[i]);
        assert(head@.subrange(0, i + 1) == head@.subrange(0, i as int).push(head@[i as int]));
        i = i + 1;
    }
    assert(head@.subrange(0, head@.len() as int) =~= head@);
    string_of(out.as_slice())
}

/// Whether a gap resolver has anything to work with: it is asked only
/// when there is external evidence.
pub fn gap_needs_reasoner(external_evidence: &Vec<Evidence>) -> (r: bool)
    ensures
        r == (external_evidence@.len() > 0),
{
    external_evidence.len() > 0
}

/// What `str::parse::<chrono::DateTime<Utc>>` makes of `s`, in
/// microseconds since the epoch.
pub uninterp spec fn instant_parse_of(s: Seq<char>) -> Option<i64>;

/// Relies on `chrono::DateTime<Utc>`'s `FromStr`: the instant written in
/// `s`, if it can be read.
#[verifier::external_body]
fn parse_instant(s: &str) -> (r: Option<i64>)
    ensures
        r == instant_parse_of(s@),
{
    match s.parse::<chrono::DateTime<chrono::Utc>>() {
        Ok(d) => Some(d.timestamp_micros()),
        Err(_) => None,
    }
}

/// The ids of the evidence, in order.
pub fn evidence_ids(evidence: &Vec<Evidence>) -> (r: Vec<Id>)
    ensures
        r@.len() == evidence@.len(),
        forall|i: int| 0 <= i < r@.len() ==> r@[i] == evidence@[i].evidence_id,
{
    let mut out: Vec<Id> = Vec::new();
    let mut i: usize = 0;
    while i < evidence.len()
        invariant
            i <= evidence@.len(),
            out@.len() == i,
            forall|j: int| 0 <= j < i ==> out@[j] == evidence@[j].evidence_id,
        decreases evidence@.len() - i,
    {
        out.push(evidence[i].evidence_id);
        i = i + 1;
    }
    out
}

/// The transition a reasoner's answer describes: stamped with `agent`,
/// observed now, citing the evidence. An `occurred_at` that cannot be read
/// is dropped.
pub fn transition_from_answer(
    event_name: String,
    occurred_at: Option<String>,
    from_state: String,
    to_state: String,
    agent: AgentIdentity,
    external_evidence: &Vec<Evidence>,
) -> (r: Transition)
    ensures
        r.event@ == event_name@,
        r.from_state@ == from_state@,
        r.to_state@ == to_state@,
        r.agent == agent,
        r.occurred_at == (match occurred_at {
            Some(s) => match instant_parse_of(s@) {
                Some(m) => Some(IsoDateTime { micros: m }),
                None => None,
            },
            None => None,
        }),
        r.evidence_ids@.len() == external_evidence@.len(),
        forall|i: int| 0 <= i < r.evidence_ids@.len() ==> r.evidence_ids@[i] == external_evidence@[i].evidence_id,
{
    let when = match occurred_at {
        Some(s) => match parse_instant(s.as_str()) {
            Some(m) => Some(IsoDateTime { micros: m }),
            None => None,
        },
        None => None,
    };
    Transition {
        transition_id: Id::new(),
        observed_at: IsoDateTime::now(),
        agent,
        from_state,
        to_state,
        event: event_name,
        occurred_at: when,
        evidence_ids: evidence_ids(external_evidence),
    }
}

} // verus!
