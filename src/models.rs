use vstd::prelude::*;
use crate::status::VerificationStatus;
use crate::tags::TagBits;
use crate::wal::hex_of;

verus! {

/// Relies on `uuid::Uuid::new_v4`: a random 128-bit identifier.
#[verifier::external_body]
fn random_u128() -> (r: u128) {
    uuid::Uuid::new_v4().as_u128()
}

/// The 16 bytes of `v`, most significant first.
pub open spec fn be_bytes(v: u128) -> Seq<u8> {
    Seq::new(16, |i: int| ((v >> ((120 - 8 * i) as u128)) & 0xffu128) as u8)
}

/// The 32 lowercase hex digits of `v`, most significant first.
pub open spec fn uuid_simple_of(v: u128) -> Seq<char> {
    hex_of(be_bytes(v))
}

/// The hyphenated form of `v`: its hex digits in groups of 8, 4, 4, 4
/// and 12.
pub open spec fn uuid_text_of(v: u128) -> Seq<char> {
    let h = uuid_simple_of(v);
    h.subrange(0, 8) + "-"@ + h.subrange(8, 12) + "-"@ + h.subrange(12, 16) + "-"@ + h.subrange(
        16,
        20,
    ) + "-"@ + h.subrange(20, 32)
}

/// Relies on `uuid::Uuid::from_u128` (the bytes of `v`, most significant
/// first) and `Uuid`'s `Display`, the hyphenated lowercase form.
#[verifier::external_body]
fn uuid_text(v: u128) -> (r: String)
    ensures
        r@ == uuid_text_of(v),
{
    uuid::Uuid::from_u128(v).to_string()
}

/// Relies on `uuid::Uuid::from_u128` and `Uuid::simple`: the 32 lowercase
/// hex digits without hyphens.
#[verifier::external_body]
fn uuid_simple(v: u128) -> (r: String)
    ensures
        r@ == uuid_simple_of(v),
{
    uuid::Uuid::from_u128(v).simple().to_string()
}

/// What `uuid::Uuid::parse_str` makes of `s`.
pub uninterp spec fn uuid_parse_of(s: Seq<char>) -> Option<u128>;

/// Relies on `uuid::Uuid::parse_str`: the identifier written in `s`, if any.
#[verifier::external_body]
fn uuid_parse(s: &str) -> (r: Option<u128>)
    ensures
        r == uuid_parse_of(s@),
{
    match uuid::Uuid::parse_str(s) {
        Ok(u) => Some(u.as_u128()),
        Err(_) => None,
    }
}

/// An opaque 128-bit identifier.
#[derive(Clone, Copy, Debug, PartialEq, Eq, Structural, Hash)]
pub struct Id(pub u128);

impl Id {
    /// A fresh random identifier.
    pub fn new() -> (r: Id) {
        Id(random_u128())
    }

    /// The canonical (hyphenated, lowercase hex) text of the identifier.
    pub fn to_text(&self) -> (r: String)
        ensures
            r@ == uuid_text_of(self.0),
    {
        uuid_text(self.0)
    }

    /// The 32 hex digits of the identifier, without hyphens.
    pub fn simple_text(&self) -> (r: String)
        ensures
            r@ == uuid_simple_of(self.0),
    {
        uuid_simple(self.0)
    }

    /// The identifier written in `s`, if `s` holds one.
    pub fn parse(s: &str) -> (r: Option<Id>)
        ensures
            r == (match uuid_parse_of(s@) {
                Some(v) => Some(Id(v)),
                None => None,
            }),
    {
        match uuid_parse(s) {
            Some(v) => Some(Id(v)),
            None => None,
        }
    }
}

/// Identifier of an abstract.
pub type AbstractId = Id;

/// Identifier of a group of tags.
pub type TagGroupId = Id;

/// Identifier of a topic.
pub type TopicId = Id;

/// Relies on `chrono::Utc::now`: the current time, in microseconds since
/// the Unix epoch.
#[verifier::external_body]
fn now_micros() -> (r: i64) {
    chrono::Utc::now().timestamp_micros()
}

/// The RFC 3339 text of the instant `micros` microseconds after the Unix
/// epoch, when chrono can represent it.
pub uninterp spec fn rfc3339_of(micros: i64) -> Option<Seq<char>>;

/// Relies on `chrono::DateTime::from_timestamp_micros` and
/// `DateTime::to_rfc3339`.
#[verifier::external_body]
fn rfc3339_text(micros: i64) -> (r: Option<String>)
    ensures
        match rfc3339_of(micros) {
            Some(t) => r matches Some(s) && s@ == t,
            None => r is None,
        },
{
    match chrono::DateTime::from_timestamp_micros(micros) {
        Some(d) => Some(d.to_rfc3339()),
        None => None,
    }
}

/// An instant, in microseconds since the Unix epoch (UTC).
#[derive(Clone, Copy, Debug, PartialEq, Eq, Structural, Hash)]
pub struct IsoDateTime {
    pub micros: i64,
}

impl IsoDateTime {
    /// The current time.
    pub fn now() -> (r: IsoDateTime) {
        IsoDateTime { micros: now_micros() }
    }

    /// The RFC 3339 text of the instant, if it can be written.
    pub fn to_rfc3339(&self) -> (r: Option<String>)
        ensures
            match rfc3339_of(self.micros) {
                Some(t) => r matches Some(s) && s@ == t,
                None => r is None,
            },
    {
        rfc3339_text(self.micros)
    }
}

/// Who recorded something: a fixed origin, an optional role, a build.
#[derive(Clone, Debug)]
pub struct AgentIdentity {
    pub origin: String,
    pub role: Option<String>,
    pub build: String,
}

/// A source a claim cites.
#[derive(Clone, Debug)]
pub struct SourceRef {
    pub url: String,
    pub retrieved_at_rfc3339: String,
}

/// Where a piece of evidence came from.
#[derive(Clone, Debug)]
pub struct SourceMeta {
    pub url: String,
    pub retrieved_at_rfc3339: String,
    pub sha256_hex: String,
}

/// A retrieved snippet with its source.
#[derive(Clone, Debug)]
pub struct Evidence {
    pub evidence_id: Id,
    pub source: SourceMeta,
    pub snippet: String,
}

/// A fact the fetcher found, with its evidence.
#[derive(Clone, Debug)]
pub struct RequiredFact {
    pub key: String,
    pub value: String,
    pub evidence: Vec<Evidence>,
}

/// A statement and the sources it cites.
#[derive(Clone, Debug)]
pub struct Claim {
    pub statement: String,
    pub sources: Vec<SourceRef>,
}

/// A graded record of one claim and its evidence.
#[derive(Clone, Debug)]
pub struct Abstract {
    pub id: AbstractId,
    pub topic_id: TopicId,
    pub tag_group_id: TagGroupId,
    pub tags: TagBits,
    pub claims: Vec<Claim>,
    pub summary: String,
    pub verification: VerificationStatus,
    pub created_at: IsoDateTime,
}

impl Abstract {
    /// A new abstract with a fresh id, no claims, an empty summary, grade
    /// `GrayMid`, created now.
    pub fn new(topic_id: TopicId, tag_group_id: TagGroupId, tags: TagBits) -> (r: Abstract)
        ensures
            r.topic_id == topic_id,
            r.tag_group_id == tag_group_id,
            r.tags == tags,
            r.claims@.len() == 0,
            r.summary@.len() == 0,
            r.verification == VerificationStatus::GrayMid,
    {
        Abstract {
            id: Id::new(),
            topic_id,
            tag_group_id,
            tags,
            claims: Vec::new(),
            summary: String::new(),
            verification: VerificationStatus::GrayMid,
            created_at: IsoDateTime::now(),
        }
    }
}

/// An event explaining why one state of the world gave way to another.
#[derive(Clone, Debug)]
pub struct Transition {
    pub transition_id: Id,
    pub observed_at: IsoDateTime,
    pub agent: AgentIdentity,
    pub from_state: String,
    pub to_state: String,
    pub event: String,
    pub occurred_at: Option<IsoDateTime>,
    pub evidence_ids: Vec<Id>,
}

/// A human's signed dissent.
#[derive(Clone, Debug)]
pub struct ManualOverride {
    pub override_id: Id,
    pub observed_at: IsoDateTime,
    pub agent: AgentIdentity,
    pub conversation_id: Option<String>,
    pub abstract_id: Option<Id>,
    pub note: Option<String>,
}

/// What an operation of the structured log did.
#[derive(Clone, Debug)]
pub enum OpKind {
    InsertAbstract { abstract_: Abstract },
    InsertTransition { transition: Transition },
    AppendOverride { override_: ManualOverride },
}

/// One operation of the structured log.
#[derive(Clone, Debug)]
pub struct OpLog {
    pub op_id: Id,
    pub kind: OpKind,
    pub created_at: IsoDateTime,
}

/// An abstract and its grade, as handed out.
#[derive(Clone, Debug)]
pub struct OutputPacket {
    pub abstract_: Abstract,
    pub status: VerificationStatus,
}

} // verus!
