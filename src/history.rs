use vstd::prelude::*;
use vstd::multiset::Multiset;
use crate::status::VerificationStatus;
use crate::text::{chars_of, string_of, slice_of, concat_str};
use crate::tags::{canon, join_bar, tags_view, lex_lt, lemma_lex_irreflexive, lemma_lex_transitive, lemma_lex_total};
use crate::models::{
    Abstract, Id, IsoDateTime, ManualOverride, OpKind, OpLog, Transition, uuid_simple_of,
    rfc3339_of,
};
use crate::wal::{sha256_hex, checksum_of};

verus! {

/// The first `n` characters of `s` (all of it when shorter).
pub open spec fn prefix_chars(s: Seq<char>, n: int) -> Seq<char> {
    if s.len() <= n {
        s
    } else {
        s.subrange(0, n)
    }
}

fn prefix_str(s: &str, n: usize) -> (r: String)
    ensures
        r@ == prefix_chars(s@, n as int),
{
    let v = chars_of(s);
    if v.len() <= n {
        string_of(v.as_slice())
    } else {
        string_of(slice_of(&v, 0, n).as_slice())
    }
}

/// How a grade reads in the history: `VERIFIED`, `SMOKE` or `GRAY_*`.
pub open spec fn status_label(status: VerificationStatus) -> Seq<char> {
    match status {
        VerificationStatus::White => "VERIFIED"@,
        VerificationStatus::Smoke => "SMOKE"@,
        _ => "GRAY_*"@,
    }
}

/// The history label of a grade.
pub fn status_mapping(status: VerificationStatus) -> (r: String)
    ensures
        r@ == status_label(status),
{
    match status {
        VerificationStatus::White => "VERIFIED".to_owned(),
        VerificationStatus::Smoke => "SMOKE".to_owned(),
        _ => "GRAY_*".to_owned(),
    }
}

/// The first 8 hex digits of an identifier.
pub open spec fn short_id_spec(id: Id) -> Seq<char> {
    prefix_chars(uuid_simple_of(id.0), 8)
}

/// The first 8 hex digits of an identifier.
pub fn short_id(id: Id) -> (r: String)
    ensures
        r@ == short_id_spec(id),
{
    prefix_str(id.simple_text().as_str(), 8)
}

/// An operation's id as shown: `op_` and its first 8 hex digits.
pub fn op_id_fmt(id: Id) -> (r: String)
    ensures
        r@ == "op_"@ + short_id_spec(id),
{
    concat_str("op_", short_id(id).as_str())
}

/// The first 8 hex digits of the SHA-256 of `s`.
pub fn short_hash(s: &str) -> (r: String)
    ensures
        r@ == prefix_chars(checksum_of(s@), 8),
{
    prefix_str(sha256_hex(s).as_str(), 8)
}

/// The topic of an abstract: `tag:<key>`, or `topic:<short id>` when
/// its tags are empty.
pub open spec fn abstract_topic(a: Abstract) -> Seq<char> {
    let key = join_bar(canon(tags_view(a.tags.tags), true));
    if key.len() == 0 {
        "topic:"@ + short_id_spec(a.topic_id)
    } else {
        "tag:"@ + key
    }
}

/// The topic an abstract belongs to.
pub fn topic_id_from_abstract(abstract_: &Abstract) -> (r: String)
    ensures
        r@ == abstract_topic(*abstract_),
{
    let key = abstract_.tags.to_key();
    if key.as_str().is_empty() {
        concat_str("topic:", short_id(abstract_.topic_id).as_str())
    } else {
        concat_str("tag:", key.as_str())
    }
}

/// The topic of a transition: `transition:` and a short hash of
/// `from|to`.
pub open spec fn transition_topic(t: Transition) -> Seq<char> {
    "transition:"@ + prefix_chars(checksum_of(t.from_state@ + "|"@ + t.to_state@), 8)
}

/// The topic a transition belongs to.
pub fn topic_id_from_transition(transition: &Transition) -> (r: String)
    ensures
        r@ == transition_topic(*transition),
{
    let base = concat_str(concat_str(transition.from_state.as_str(), "|").as_str(), transition.to_state.as_str());
    concat_str("transition:", short_hash(base.as_str()).as_str())
}

/// One event of a topic's timeline.
#[derive(Clone, Debug)]
pub struct TimelineEvent {
    pub op_id: String,
    pub timestamp: String,
    pub event_type: String,
    pub agent_origin: String,
    pub status_after: String,
    pub evidence_ids: Vec<String>,
    pub reason: Option<String>,
    pub override_id: Option<String>,
    pub user_note: Option<String>,
}

/// An event with what orders it in its topic: time, kind priority
/// (ingest 1, transition 2, override 3), raw operation id.
#[derive(Clone, Debug)]
pub struct RawEvent {
    pub topic_id: String,
    pub timestamp: IsoDateTime,
    pub priority: u8,
    pub op_id_raw: String,
    pub event: TimelineEvent,
}

/// The RFC 3339 text of an instant; empty if it cannot be written.
pub open spec fn time_text(t: IsoDateTime) -> Seq<char> {
    match rfc3339_of(t.micros) {
        Some(s) => s,
        None => Seq::empty(),
    }
}

fn time_string(t: IsoDateTime) -> (r: String)
    ensures
        r@ == time_text(t),
{
    match t.to_rfc3339() {
        Some(s) => s,
        None => String::new(),
    }
}

/// `r` is the timeline event of an ingested abstract.
pub open spec fn abstract_event(op_id: Id, ts: IsoDateTime, a: Abstract, r: RawEvent) -> bool {
    &&& r.topic_id@ == abstract_topic(a)
    &&& r.timestamp == ts
    &&& r.priority == 1
    &&& r.op_id_raw@ == uuid_simple_of(op_id.0)
    &&& r.event.op_id@ == "op_"@ + short_id_spec(op_id)
    &&& r.event.timestamp@ == time_text(ts)
    &&& r.event.event_type@ == "INGEST"@
    &&& r.event.agent_origin@ == "UNKNOWN"@
    &&& r.event.status_after@ == status_label(a.verification)
    &&& r.event.evidence_ids@.len() == 0
    &&& r.event.reason matches Some(s) && s@ == a.summary@
    &&& r.event.override_id is None
    &&& r.event.user_note is None
}

/// `r` is the timeline event of a transition, filed under `topic`.
pub open spec fn transition_event(op_id: Id, ts: IsoDateTime, t: Transition, topic: Seq<char>, r: RawEvent) -> bool {
    &&& r.topic_id@ == topic
    &&& r.timestamp == ts
    &&& r.priority == 2
    &&& r.op_id_raw@ == uuid_simple_of(op_id.0)
    &&& r.event.op_id@ == "op_"@ + short_id_spec(op_id)
    &&& r.event.timestamp@ == time_text(ts)
    &&& r.event.event_type@ == "TRANSITION"@
    &&& r.event.agent_origin == t.agent.origin
    &&& r.event.status_after@ == "SMOKE"@
    &&& r.event.evidence_ids@.len() == t.evidence_ids@.len()
    &&& (forall|i: int| 0 <= i < r.event.evidence_ids@.len() ==> (#[trigger] r.event.evidence_ids@[i])@ == "evd_"@
        + short_id_spec(t.evidence_ids@[i]))
    &&& r.event.reason == Some(t.event)
    &&& r.event.override_id is None
    &&& r.event.user_note is None
}

/// `r` is the timeline event of a manual override, filed under `topic`.
pub open spec fn override_event(op_id: Id, ts: IsoDateTime, o: ManualOverride, topic: Seq<char>, r: RawEvent) -> bool {
    &&& r.topic_id@ == topic
    &&& r.timestamp == ts
    &&& r.priority == 3
    &&& r.op_id_raw@ == uuid_simple_of(op_id.0)
    &&& r.event.op_id@ == "op_"@ + short_id_spec(op_id)
    &&& r.event.timestamp@ == time_text(ts)
    &&& r.event.event_type@ == "OVERRIDE"@
    &&& r.event.agent_origin == o.agent.origin
    &&& r.event.status_after@ == "OVERRIDDEN"@
    &&& r.event.evidence_ids@.len() == 0
    &&& r.event.reason is None
    &&& r.event.override_id matches Some(s) && s@ == "ovr_"@ + short_id_spec(o.override_id)
    &&& r.event.user_note == o.note
}

/// The timeline event of an ingested abstract.
pub fn event_from_abstract(op_id: Id, ts: IsoDateTime, abstract_: &Abstract) -> (r: RawEvent)
    ensures
        abstract_event(op_id, ts, *abstract_, r),
{
    let event = TimelineEvent {
        op_id: op_id_fmt(op_id),
        timestamp: time_string(ts),
        event_type: "INGEST".to_owned(),
        agent_origin: "UNKNOWN".to_owned(),
        status_after: status_mapping(abstract_.verification),
        evidence_ids: Vec::new(),
        reason: Some(abstract_.summary.clone()),
        override_id: None,
        user_note: None,
    };
    RawEvent {
        topic_id: topic_id_from_abstract(abstract_),
        timestamp: ts,
        priority: 1,
        op_id_raw: op_id.simple_text(),
        event,
    }
}

/// The evidence ids as shown: `evd_` and their first 8 hex digits.
fn evidence_labels(ids: &Vec<Id>) -> (r: Vec<String>)
    ensures
        r@.len() == ids@.len(),
        forall|i: int| 0 <= i < r@.len() ==> r@[i]@ == "evd_"@ + short_id_spec(ids@[i]),
{
    let mut out: Vec<String> = Vec::new();
    let mut i: usize = 0;
    while i < ids.len()
        invariant
            i <= ids@.len(),
            out@.len() == i,
            forall|j: int| 0 <= j < i ==> out@[j]@ == "evd_"@ + short_id_spec(ids@[j]),
        decreases ids@.len() - i,
    {
        out.push(concat_str("evd_", short_id(ids[i]).as_str()));
        i = i + 1;
    }
    out
}

/// The timeline event of a transition.
pub fn event_from_transition(op_id: Id, ts: IsoDateTime, transition: Transition, topic_id: String) -> (r: RawEvent)
    ensures
        transition_event(op_id, ts, transition, topic_id@, r) && r.topic_id == topic_id,
{
    let evidence_ids = evidence_labels(&transition.evidence_ids);
    let event = TimelineEvent {
        op_id: op_id_fmt(op_id),
        timestamp: time_string(ts),
        event_type: "TRANSITION".to_owned(),
        agent_origin: transition.agent.origin,
        status_after: "SMOKE".to_owned(),
        evidence_ids,
        reason: Some(transition.event),
        override_id: None,
        user_note: None,
    };
    RawEvent { topic_id, timestamp: ts, priority: 2, op_id_raw: op_id.simple_text(), event }
}

/// The timeline event of a manual override.
pub fn event_from_override(op_id: Id, ts: IsoDateTime, override_: ManualOverride, topic_id: String) -> (r: RawEvent)
    ensures
        override_event(op_id, ts, override_, topic_id@, r) && r.topic_id == topic_id,
{
    let event = TimelineEvent {
        op_id: op_id_fmt(op_id),
        timestamp: time_string(ts),
        event_type: "OVERRIDE".to_owned(),
        agent_origin: override_.agent.origin,
        status_after: "OVERRIDDEN".to_owned(),
        evidence_ids: Vec::new(),
        reason: None,
        override_id: Some(concat_str("ovr_", short_id(override_.override_id).as_str())),
        user_note: override_.note,
    };
    RawEvent { topic_id, timestamp: ts, priority: 3, op_id_raw: op_id.simple_text(), event }
}

/// The latest state of a topic, as shown.
#[derive(Clone, Debug)]
pub struct LatestFact {
    pub topic_id: String,
    pub subject: String,
    pub current_value: String,
    pub status: String,
    /// Confidence in basis points; the history does not know it, so 0.
    pub confidence_bp: u32,
    pub confidence_kind: String,
    pub agent_origin: String,
    pub source_op_id: String,
    pub last_event_ts: String,
    pub is_human_overridden: bool,
}

/// `f` is the latest fact of topic `topic` whose last event is `e`.
pub open spec fn fact_of(topic: String, e: TimelineEvent, f: LatestFact) -> bool {
    &&& f.topic_id == topic
    &&& f.subject == e.event_type
    &&& f.current_value@ == (match e.reason {
        Some(s) => s@,
        None => "(unknown)"@,
    })
    &&& f.status == e.status_after
    &&& f.confidence_bp == 0
    &&& f.confidence_kind@ == "UNKNOWN"@
    &&& f.agent_origin == e.agent_origin
    &&& f.source_op_id == e.op_id
    &&& f.last_event_ts == e.timestamp
    &&& f.is_human_overridden == (e.event_type@ == "OVERRIDE"@)
}

/// The latest fact a topic's last event gives.
pub fn state_from_event(topic_id: String, event: &TimelineEvent) -> (r: LatestFact)
    ensures
        fact_of(topic_id, *event, r),
{
    let is_override = event.event_type == "OVERRIDE".to_owned();
    LatestFact {
        topic_id,
        subject: event.event_type.clone(),
        current_value: match &event.reason {
            Some(s) => s.clone(),
            None => "(unknown)".to_owned(),
        },
        status: event.status_after.clone(),
        confidence_bp: 0,
        confidence_kind: "UNKNOWN".to_owned(),
        agent_origin: event.agent_origin.clone(),
        source_op_id: event.op_id.clone(),
        last_event_ts: event.timestamp.clone(),
        is_human_overridden: is_override,
    }
}

/// `a` comes before `b` in a timeline: by topic, then time, then kind
/// priority, then raw operation id.
pub open spec fn event_before(a: RawEvent, b: RawEvent) -> bool {
    lex_lt(a.topic_id@, b.topic_id@) || (a.topic_id@ == b.topic_id@ && (a.timestamp.micros
        < b.timestamp.micros || (a.timestamp.micros == b.timestamp.micros && (a.priority
        < b.priority || (a.priority == b.priority && lex_lt(a.op_id_raw@, b.op_id_raw@))))))
}

/// No event comes before one that precedes it.
pub open spec fn events_sorted(s: Seq<RawEvent>) -> bool {
    forall|i: int, j: int| 0 <= i < j < s.len() ==> !event_before(#[trigger] s[j], #[trigger] s[i])
}

proof fn lemma_before_transitive(a: RawEvent, b: RawEvent, c: RawEvent)
    requires
        event_before(a, b),
        event_before(b, c),
    ensures
        event_before(a, c),
{
    if lex_lt(a.topic_id@, b.topic_id@) && lex_lt(b.topic_id@, c.topic_id@) {
        lemma_lex_transitive(a.topic_id@, b.topic_id@, c.topic_id@);
    }
    if lex_lt(a.op_id_raw@, b.op_id_raw@) && lex_lt(b.op_id_raw@, c.op_id_raw@) {
        lemma_lex_transitive(a.op_id_raw@, b.op_id_raw@, c.op_id_raw@);
        lemma_lex_irreflexive(a.op_id_raw@);
    }
}

proof fn lemma_before_asymmetric(a: RawEvent, b: RawEvent)
    requires
        event_before(a, b),
    ensures
        !event_before(b, a),
{
    if event_before(b, a) {
        lemma_before_transitive(a, b, a);
        lemma_lex_irreflexive(a.topic_id@);
        lemma_lex_irreflexive(a.op_id_raw@);
    }
}

/// Whether `a` comes before `b` in a timeline.
fn before_exec(a: &RawEvent, b: &RawEvent) -> (r: bool)
    ensures
        r == event_before(*a, *b),
{
    let at = chars_of(a.topic_id.as_str());
    let bt = chars_of(b.topic_id.as_str());
    if crate::tags::lex_less(&at, &bt) {
        return true;
    }
    if a.topic_id != b.topic_id {
        return false;
    }
    if a.timestamp.micros != b.timestamp.micros {
        return a.timestamp.micros < b.timestamp.micros;
    }
    if a.priority != b.priority {
        return a.priority < b.priority;
    }
    crate::tags::lex_less(&chars_of(a.op_id_raw.as_str()), &chars_of(b.op_id_raw.as_str()))
}

/// The events in timeline order (by topic, time, kind priority, raw
/// operation id), the same events as given.
pub fn sort_events(v: Vec<RawEvent>) -> (r: Vec<RawEvent>)
    ensures
        events_sorted(r@),
        r@.to_multiset() == v@.to_multiset(),
{
    broadcast use vstd::seq_lib::group_to_multiset_ensures, vstd::seq_lib::to_multiset_insert, vstd::multiset::group_multiset_axioms;
    let ghost orig = v@;
    let mut v = v;
    let mut out: Vec<RawEvent> = Vec::new();
    assert(out@.to_multiset() =~= Multiset::<RawEvent>::empty());
    while v.len() > 0
        invariant
            events_sorted(out@),
            out@.to_multiset().add(v@.to_multiset()) == orig.to_multiset(),
        decreases v@.len(),
    {
        let ghost before_v = v@;
        let x = v.pop().unwrap();
        assert(before_v == v@.push(x));
        let mut j: usize = 0;
        while j < out.len() && !before_exec(&x, &out[j])
            invariant
                j <= out@.len(),
                forall|k: int| 0 <= k < j ==> !event_before(x, #[trigger] out@[k]),
            decreases out@.len() - j,
        {
            j = j + 1;
        }
        let ghost s = out@;
        out.insert(j, x);
        proof {
            assert(out@ == s.insert(j as int, x));
            assert forall|a: int, b: int| 0 <= a < b < out@.len() implies !event_before(#[trigger] out@[b], #[trigger] out@[a]) by {
                if b < j {
                    assert(out@[a] == s[a] && out@[b] == s[b]);
                } else if b == j {
                    assert(out@[a] == s[a]);
                } else if a < j {
                    assert(out@[a] == s[a] && out@[b] == s[b - 1]);
                    if event_before(s[b - 1], s[a]) {
                    }
                } else if a == j {
                    assert(out@[b] == s[b - 1]);
                    assert(event_before(x, s[j as int]));
                    if b - 1 > j {
                        assert(!event_before(s[b - 1], s[j as int]));
                    }
                    if event_before(s[b - 1], x) {
                        if b - 1 == j {
                            lemma_before_asymmetric(x, s[j as int]);
                        } else {
                            lemma_before_transitive(s[b - 1], x, s[j as int]);
                        }
                    }
                } else {
                    assert(out@[a] == s[a - 1] && out@[b] == s[b - 1]);
                }
            }
            vstd::seq_lib::to_multiset_insert(s, j as int, x);
            vstd::seq_lib::to_multiset_build(v@, x);
            assert(out@.to_multiset() == s.to_multiset().insert(x));
            assert(before_v.to_multiset() =~= v@.to_multiset().insert(x));
            assert(out@.to_multiset().add(v@.to_multiset()) =~= s.to_multiset().add(before_v.to_multiset()));
        }
    }
    assert(v@.to_multiset() =~= Multiset::<RawEvent>::empty());
    assert(out@.to_multiset().add(v@.to_multiset()) =~= out@.to_multiset());
    out
}

/// The topic of the abstract with id `id` among `ops`, the last such
/// abstract winning.
pub open spec fn topic_of_abstract(ops: Seq<OpLog>, id: Id) -> Option<Seq<char>>
    decreases ops.len(),
{
    if ops.len() == 0 {
        None
    } else {
        match ops.last().kind {
            OpKind::InsertAbstract { abstract_ } => if abstract_.id == id {
                Some(abstract_topic(abstract_))
            } else {
                topic_of_abstract(ops.drop_last(), id)
            },
            _ => topic_of_abstract(ops.drop_last(), id),
        }
    }
}

/// The topic the `i`-th operation belongs to: its abstract's, its
/// transition's, or for an override that of the abstract it names (as
/// logged before it), else `override:unmapped`.
pub open spec fn op_topic(ops: Seq<OpLog>, i: int) -> Seq<char> {
    match ops[i].kind {
        OpKind::InsertAbstract { abstract_ } => abstract_topic(abstract_),
        OpKind::InsertTransition { transition } => transition_topic(transition),
        OpKind::AppendOverride { override_ } => match override_.abstract_id {
            Some(id) => match topic_of_abstract(ops.subrange(0, i), id) {
                Some(t) => t,
                None => "override:unmapped"@,
            },
            None => "override:unmapped"@,
        },
    }
}

/// The kind priority of an operation: ingest 1, transition 2, override 3.
pub open spec fn op_priority(op: OpLog) -> u8 {
    match op.kind {
        OpKind::InsertAbstract { .. } => 1,
        OpKind::InsertTransition { .. } => 2,
        OpKind::AppendOverride { .. } => 3,
    }
}

fn find_topic(known: &Vec<(Id, String)>, id: Id) -> (r: Option<String>)
    ensures
        match lookup_topic(known@, id) {
            None => r is None,
            Some(t) => r matches Some(s) && s@ == t,
        },
{
    let mut i: usize = known.len();
    assert(known@.subrange(0, known@.len() as int) =~= known@);
    while i > 0
        invariant
            i <= known@.len(),
            lookup_topic(known@, id) == lookup_topic(known@.subrange(0, i as int), id),
        decreases i,
    {
        assert(known@.subrange(0, i as int).drop_last() =~= known@.subrange(0, i - 1));
        if known[i - 1].0 == id {
            return Some(known[i - 1].1.clone());
        }
        i = i - 1;
    }
    None
}

/// The topic recorded for `id`, the last record first.
pub open spec fn lookup_topic(known: Seq<(Id, String)>, id: Id) -> Option<Seq<char>>
    decreases known.len(),
{
    if known.len() == 0 {
        None
    } else if known.last().0 == id {
        Some(known.last().1@)
    } else {
        lookup_topic(known.drop_last(), id)
    }
}

/// `r` is the timeline event of the `i`-th operation, filed under its
/// topic.
pub open spec fn op_event(ops: Seq<OpLog>, i: int, r: RawEvent) -> bool {
    match ops[i].kind {
        OpKind::InsertAbstract { abstract_ } => abstract_event(ops[i].op_id, ops[i].created_at, abstract_, r),
        OpKind::InsertTransition { transition } => transition_event(
            ops[i].op_id,
            ops[i].created_at,
            transition,
            op_topic(ops, i),
            r,
        ),
        OpKind::AppendOverride { override_ } => override_event(
            ops[i].op_id,
            ops[i].created_at,
            override_,
            op_topic(ops, i),
            r,
        ),
    }
}

/// Turns each operation of the log into its timeline event, in log order.
pub fn route_ops(ops: Vec<OpLog>) -> (r: Vec<RawEvent>)
    ensures
        r@.len() == ops@.len(),
        forall|i: int| 0 <= i < r@.len() ==> op_event(ops@, i, #[trigger] r@[i]),
{
    let ghost orig = ops@;
    let len = ops.len();
    assert(orig.len() == len);
    let mut ops = ops;
    let mut known: Vec<(Id, String)> = Vec::new();
    let mut out: Vec<RawEvent> = Vec::new();
    let mut i: usize = 0;
    while ops.len() > 0
        invariant
            i + ops@.len() == orig.len(),
            orig.len() <= usize::MAX,
            ops@ == orig.subrange(i as int, orig.len() as int),
            out@.len() == i,
            forall|id: Id| #[trigger] lookup_topic(known@, id) == topic_of_abstract(orig.subrange(0, i as int), id),
            forall|k: int| 0 <= k < i ==> op_event(orig, k, #[trigger] out@[k]),
        decreases ops@.len(),
    {
        let op = ops.remove(0);
        assert(op == orig[i as int]);
        assert(orig.subrange(0, i + 1).drop_last() =~= orig.subrange(0, i as int));
        let ghost known_before = known@;
        let raw = match op.kind {
            OpKind::InsertAbstract { abstract_ } => {
                let topic = topic_id_from_abstract(&abstract_);
                known.push((abstract_.id, topic.clone()));
                assert(known@.drop_last() =~= known_before);
                event_from_abstract(op.op_id, op.created_at, &abstract_)
            },
            OpKind::InsertTransition { transition } => {
                let topic = topic_id_from_transition(&transition);
                event_from_transition(op.op_id, op.created_at, transition, topic)
            },
            OpKind::AppendOverride { override_ } => {
                let found = match override_.abstract_id {
                    Some(id) => find_topic(&known, id),
                    None => None,
                };
                let topic = match found {
                    Some(t) => t,
                    None => "override:unmapped".to_owned(),
                };
                event_from_override(op.op_id, op.created_at, override_, topic)
            },
        };
        assert(op_event(orig, i as int, raw));
        out.push(raw);
        proof {
            let pre = orig.subrange(0, i + 1);
            assert(pre.last() == orig[i as int]);
            assert forall|id: Id| #[trigger] lookup_topic(known@, id) == topic_of_abstract(pre, id) by {
                assert(lookup_topic(known_before, id) == topic_of_abstract(orig.subrange(0, i as int), id));
                match orig[i as int].kind {
                    OpKind::InsertAbstract { abstract_ } => {
                        assert(known@.last().0 == abstract_.id);
                    },
                    _ => {
                        assert(known@ == known_before);
                    },
                }
            }
        }
        assert(ops@ =~= orig.subrange(i + 1, orig.len() as int));
        i = i + 1;
    }
    out
}

/// The timeline of one topic.
#[derive(Clone, Debug)]
pub struct Timeline {
    pub topic_id: String,
    pub events: Vec<TimelineEvent>,
}

/// The latest fact of each topic, and when they were compiled.
#[derive(Clone, Debug)]
pub struct LatestFacts {
    pub last_updated: String,
    pub facts: Vec<LatestFact>,
}

/// Number of events over all timelines.
pub open spec fn total_events(t: Seq<Timeline>) -> int
    decreases t.len(),
{
    if t.len() == 0 {
        0
    } else {
        total_events(t.drop_last()) + t.last().events@.len()
    }
}

/// The events of all timelines, one timeline after the other.
pub open spec fn flat_events(t: Seq<Timeline>) -> Seq<TimelineEvent>
    decreases t.len(),
{
    if t.len() == 0 {
        Seq::empty()
    } else {
        flat_events(t.drop_last()) + t.last().events@
    }
}

proof fn lemma_total_prefix(t: Seq<Timeline>, x: Timeline, k: int)
    requires
        0 <= k <= t.len(),
    ensures
        t.push(x).subrange(0, k) == t.subrange(0, k),
{
    assert(t.push(x).subrange(0, k) =~= t.subrange(0, k));
}

/// `timelines` and `facts` group `events` (in timeline order): the
/// timelines hold the events in that order, one timeline per topic in
/// order of topic, every event of a timeline from that topic; each fact is
/// that of its timeline's last event.
pub open spec fn grouped(events: Seq<RawEvent>, timelines: Seq<Timeline>, facts: Seq<LatestFact>) -> bool {
    &&& flat_events(timelines) == events.map_values(|e: RawEvent| e.event)
    &&& total_events(timelines) == events.len()
    &&& facts.len() == timelines.len()
    &&& forall|k: int, l: int| 0 <= k < l < timelines.len() ==> lex_lt(#[trigger] timelines[k].topic_id@, #[trigger] timelines[l].topic_id@)
    &&& forall|k: int| 0 <= k < timelines.len() ==> forall|f: int|
        total_events(timelines.subrange(0, k)) <= f < total_events(timelines.subrange(0, k)) + (
        #[trigger] timelines[k]).events@.len() ==> (#[trigger] events[f]).topic_id@ == timelines[k].topic_id@
    &&& forall|k: int| 0 <= k < timelines.len() ==> (#[trigger] timelines[k]).events@.len() > 0
        && fact_of(timelines[k].topic_id, timelines[k].events@.last(), facts[k])
}

/// Groups events in timeline order into timelines, one per topic, with
/// each topic's latest fact.
fn group_timelines(events: Vec<RawEvent>, now: String) -> (r: (Vec<Timeline>, LatestFacts))
    requires
        events_sorted(events@),
    ensures
        r.1.last_updated == now,
        grouped(events@, r.0@, r.1.facts@),
{
    let ghost sorted = events@;
    let mut rest = events;
    let len = rest.len();
    assert(sorted.len() == len);
    let mut timelines: Vec<Timeline> = Vec::new();
    let mut facts: Vec<LatestFact> = Vec::new();
    let mut cur_topic = String::new();
    let mut cur_events: Vec<TimelineEvent> = Vec::new();
    let mut i: usize = 0;
    assert(sorted.subrange(0, 0).map_values(|e: RawEvent| e.event) =~= Seq::<TimelineEvent>::empty());
    assert(flat_events(timelines@) + cur_events@ =~= Seq::<TimelineEvent>::empty());
    while rest.len() > 0
        invariant
            i + rest@.len() == sorted.len(),
            sorted.len() <= usize::MAX,
            events_sorted(sorted),
            rest@ == sorted.subrange(i as int, sorted.len() as int),
            facts@.len() == timelines@.len(),
            total_events(timelines@) + cur_events@.len() == i,
            flat_events(timelines@) + cur_events@ == sorted.subrange(0, i as int).map_values(|e: RawEvent| e.event),
            i > 0 ==> cur_events@.len() > 0 && cur_topic@ == sorted[i - 1].topic_id@,
            i == 0 ==> cur_events@.len() == 0 && timelines@.len() == 0,
            forall|f: int| total_events(timelines@) <= f < i ==> (#[trigger] sorted[f]).topic_id@ == cur_topic@,
            forall|k: int, l: int| 0 <= k < l < timelines@.len() ==> lex_lt(#[trigger] timelines@[k].topic_id@, #[trigger] timelines@[l].topic_id@),
            forall|k: int| 0 <= k < timelines@.len() ==> lex_lt(#[trigger] timelines@[k].topic_id@, cur_topic@),
            forall|k: int| 0 <= k < timelines@.len() ==> forall|f: int|
                total_events(timelines@.subrange(0, k)) <= f < total_events(timelines@.subrange(0, k)) + (
                #[trigger] timelines@[k]).events@.len() ==> (#[trigger] sorted[f]).topic_id@ == timelines@[k].topic_id@,
            forall|k: int| 0 <= k < timelines@.len() ==> (#[trigger] timelines@[k]).events@.len() > 0
                && fact_of(timelines@[k].topic_id, timelines@[k].events@.last(), facts@[k]),
        decreases rest@.len(),
    {
        let raw = rest.remove(0);
        assert(raw == sorted[i as int]);
        let ghost prefix_events = sorted.subrange(0, i as int).map_values(|e: RawEvent| e.event);
        assert(sorted.subrange(0, i + 1).map_values(|e: RawEvent| e.event) =~= prefix_events.push(raw.event));
        if i > 0 && raw.topic_id != cur_topic {
            proof {
                assert(!event_before(sorted[i as int], sorted[i - 1]));
                lemma_lex_total(sorted[i as int].topic_id@, cur_topic@);
            }
            let last = cur_events.len() - 1;
            let fact = state_from_event(cur_topic.clone(), &cur_events[last]);
            let ghost tl_before = timelines@;
            let ghost cur_before = cur_events@;
            let ghost topic_before = cur_topic@;
            let closed = Timeline { topic_id: cur_topic, events: cur_events };
            timelines.push(closed);
            facts.push(fact);
            proof {
                assert(timelines@.drop_last() =~= tl_before);
                assert(timelines@.subrange(0, tl_before.len() as int) =~= tl_before);
                assert forall|k: int| 0 <= k < timelines@.len() implies lex_lt(#[trigger] timelines@[k].topic_id@, raw.topic_id@) by {
                    if k < timelines@.len() - 1 {
                        lemma_lex_transitive(timelines@[k].topic_id@, timelines@.last().topic_id@, raw.topic_id@);
                    }
                }
                assert forall|k: int| 0 <= k < timelines@.len() implies forall|f: int|
                    total_events(timelines@.subrange(0, k)) <= f < total_events(timelines@.subrange(0, k)) + (
                    #[trigger] timelines@[k]).events@.len() ==> (#[trigger] sorted[f]).topic_id@ == timelines@[k].topic_id@ by {
                    if k < tl_before.len() {
                        lemma_total_prefix(tl_before, timelines@.last(), k);
                        assert(timelines@[k] == tl_before[k]);
                    } else {
                        assert(timelines@[k].events@ == cur_before);
                        assert(timelines@.subrange(0, k) =~= tl_before);
                    }
                }
            }
            cur_topic = raw.topic_id;
            cur_events = Vec::new();
        } else if i == 0 {
            cur_topic = raw.topic_id;
        }
        cur_events.push(raw.event);
        proof {
            assert(flat_events(timelines@) + cur_events@ =~= sorted.subrange(0, i + 1).map_values(|e: RawEvent| e.event));
        }
        assert(rest@ =~= sorted.subrange(i + 1, sorted.len() as int));
        i = i + 1;
    }
    assert(sorted.subrange(0, i as int) =~= sorted);
    if i > 0 {
        let last = cur_events.len() - 1;
        let fact = state_from_event(cur_topic.clone(), &cur_events[last]);
        let ghost tl_before = timelines@;
        let ghost cur_before = cur_events@;
        timelines.push(Timeline { topic_id: cur_topic, events: cur_events });
        facts.push(fact);
        proof {
            assert(timelines@.drop_last() =~= tl_before);
            assert(timelines@.subrange(0, tl_before.len() as int) =~= tl_before);
            assert forall|k: int| 0 <= k < timelines@.len() implies forall|f: int|
                total_events(timelines@.subrange(0, k)) <= f < total_events(timelines@.subrange(0, k)) + (
                #[trigger] timelines@[k]).events@.len() ==> (#[trigger] sorted[f]).topic_id@ == timelines@[k].topic_id@ by {
                if k < tl_before.len() {
                    lemma_total_prefix(tl_before, timelines@.last(), k);
                    assert(timelines@[k] == tl_before[k]);
                } else {
                    assert(timelines@[k].events@ == cur_before);
                    assert(timelines@.subrange(0, k) =~= tl_before);
                }
            }
        }
    } else {
        assert(flat_events(timelines@) =~= cur_events@);
    }
    (timelines, LatestFacts { last_updated: now, facts })
}

/// The timelines and facts are compiled from `ops` by way of `routed`
/// (each operation's event, in log order) and `sorted` (the same events in
/// timeline order: by topic, time, kind priority and raw operation id).
pub open spec fn compiled_via(
    ops: Seq<OpLog>,
    routed: Seq<RawEvent>,
    sorted: Seq<RawEvent>,
    timelines: Seq<Timeline>,
    facts: Seq<LatestFact>,
) -> bool {
    &&& routed.len() == ops.len()
    &&& forall|i: int| 0 <= i < routed.len() ==> op_event(ops, i, #[trigger] routed[i])
    &&& events_sorted(sorted)
    &&& sorted.to_multiset() == routed.to_multiset()
    &&& grouped(sorted, timelines, facts)
}

/// Compiles the operations of the structured log (in log order): each
/// becomes its timeline event, the events are put in timeline order and
/// grouped into one timeline per topic with each topic's latest fact.
pub fn compile(ops: Vec<OpLog>, now: String) -> (r: (Vec<Timeline>, LatestFacts))
    ensures
        r.1.last_updated == now,
        exists|routed: Seq<RawEvent>, sorted: Seq<RawEvent>| #[trigger] compiled_via(ops@, routed, sorted, r.0@, r.1.facts@),
{
    let ghost orig = ops@;
    let raws = route_ops(ops);
    let sorted = sort_events(raws);
    let ghost sv = sorted@;
    let r = group_timelines(sorted, now);
    assert(compiled_via(orig, raws@, sv, r.0@, r.1.facts@));
    r
}

} // verus!
