use tuff_db::history::{
    compile, op_id_fmt, short_hash, short_id, status_mapping, topic_id_from_abstract,
    topic_id_from_transition,
};
use tuff_db::models::{
    Abstract, AgentIdentity, Id, IsoDateTime, ManualOverride, OpKind, OpLog, Transition,
};
use tuff_db::status::VerificationStatus;
use tuff_db::tags::TagBits;

fn agent() -> AgentIdentity {
    AgentIdentity { origin: "GPT-5".into(), role: None, build: "0.1.0".into() }
}

fn abstract_with(id: u128, tags: &[&str], summary: &str) -> Abstract {
    let mut a = Abstract::new(Id(0xaabbccdd000000000000000000000000), Id(2), TagBits { tags: tags.iter().map(|s| s.to_string()).collect() });
    a.id = Id(id);
    a.summary = summary.to_string();
    a.verification = VerificationStatus::White;
    a
}

#[test]
fn ids_and_labels() {
    let id = Id(0x0123456789abcdef0123456789abcdef);
    assert_eq!(id.to_text(), "01234567-89ab-cdef-0123-456789abcdef");
    assert_eq!(id.simple_text(), "0123456789abcdef0123456789abcdef");
    assert_eq!(short_id(id), "01234567");
    assert_eq!(op_id_fmt(id), "op_01234567");
    assert_eq!(Id::parse("01234567-89ab-cdef-0123-456789abcdef"), Some(id));
    assert_eq!(Id::parse("nope"), None);
    assert_eq!(short_hash("a|b"), "0eab8a0a");
    assert_eq!(status_mapping(VerificationStatus::White), "VERIFIED");
    assert_eq!(status_mapping(VerificationStatus::Smoke), "SMOKE");
    assert_eq!(status_mapping(VerificationStatus::GrayBlack), "GRAY_*");
    assert_eq!(IsoDateTime { micros: 0 }.to_rfc3339().as_deref(), Some("1970-01-01T00:00:00+00:00"));
    assert!(IsoDateTime::now().micros > 0);
    assert_ne!(Id::new(), Id::new());
}

#[test]
fn topics() {
    assert_eq!(topic_id_from_abstract(&abstract_with(1, &["B", "a"], "s")), "tag:a|b");
    assert_eq!(topic_id_from_abstract(&abstract_with(1, &[" "], "s")), "topic:aabbccdd");
    let t = Transition {
        transition_id: Id(3),
        observed_at: IsoDateTime { micros: 0 },
        agent: agent(),
        from_state: "a".into(),
        to_state: "b".into(),
        event: "e".into(),
        occurred_at: None,
        evidence_ids: vec![Id(0x11111111000000000000000000000000)],
    };
    assert_eq!(topic_id_from_transition(&t), "transition:0eab8a0a");
}

#[test]
fn compile_timelines() {
    let ops = vec![
        OpLog { op_id: Id(10), kind: OpKind::InsertAbstract { abstract_: abstract_with(100, &["x"], "later") }, created_at: IsoDateTime { micros: 2_000_000 } },
        OpLog { op_id: Id(11), kind: OpKind::InsertAbstract { abstract_: abstract_with(101, &["x"], "earlier") }, created_at: IsoDateTime { micros: 1_000_000 } },
        OpLog {
            op_id: Id(12),
            kind: OpKind::AppendOverride {
                override_: ManualOverride {
                    override_id: Id(0x22222222000000000000000000000000),
                    observed_at: IsoDateTime { micros: 0 },
                    agent: agent(),
                    conversation_id: None,
                    abstract_id: Some(Id(100)),
                    note: Some("disagree".into()),
                },
            },
            created_at: IsoDateTime { micros: 2_000_000 },
        },
        OpLog {
            op_id: Id(13),
            kind: OpKind::AppendOverride {
                override_: ManualOverride {
                    override_id: Id(4),
                    observed_at: IsoDateTime { micros: 0 },
                    agent: agent(),
                    conversation_id: None,
                    abstract_id: Some(Id(999)),
                    note: None,
                },
            },
            created_at: IsoDateTime { micros: 5 },
        },
    ];
    let (timelines, latest) = compile(ops, "now".into());
    assert_eq!(latest.last_updated, "now");
    let topics: Vec<&str> = timelines.iter().map(|t| t.topic_id.as_str()).collect();
    assert_eq!(topics, vec!["override:unmapped", "tag:x"]);
    let x = &timelines[1];
    let kinds: Vec<&str> = x.events.iter().map(|e| e.event_type.as_str()).collect();
    assert_eq!(kinds, vec!["INGEST", "INGEST", "OVERRIDE"]);
    assert_eq!(x.events[0].reason.as_deref(), Some("earlier"));
    assert_eq!(x.events[2].override_id.as_deref(), Some("ovr_22222222"));
    assert_eq!(x.events[2].user_note.as_deref(), Some("disagree"));
    assert_eq!(x.events[0].timestamp, "1970-01-01T00:00:01+00:00");
    assert_eq!(latest.facts.len(), 2);
    assert_eq!(latest.facts[1].topic_id, "tag:x");
    assert!(latest.facts[1].is_human_overridden);
    assert_eq!(latest.facts[1].status, "OVERRIDDEN");
    assert_eq!(latest.facts[1].current_value, "(unknown)");
    assert_eq!(latest.facts[0].status, "OVERRIDDEN");
    let (none, facts) = compile(Vec::new(), "t".into());
    assert!(none.is_empty() && facts.facts.is_empty());
}
