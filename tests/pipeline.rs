use tuff_db::index::{InMemoryIndex, SelectQuery};
use tuff_db::models::{AgentIdentity, Evidence, Id, IsoDateTime, SourceMeta};
use tuff_db::pipeline::{
    abstract_from_answer, gap_needs_reasoner, transition_from_answer, unreadable_answer_summary,
    DummyAbstractGenerator, DummyFetcher, DummySplitter,
};
use tuff_db::status::VerificationStatus;

#[test]
fn splitter_lines() {
    let parts = DummySplitter.split(" a \n\n  \nb\r\nc");
    assert_eq!(parts, vec!["a".to_string(), "b".to_string(), "c".to_string()]);
    assert!(DummySplitter.split("").is_empty());
}

#[test]
fn dummy_stages() {
    let facts = DummyFetcher.fetch("frag");
    assert_eq!(facts.len(), 1);
    assert_eq!(facts[0].key, "mock");
    assert_eq!(facts[0].value, "frag");
    assert!(facts[0].evidence.is_empty());
    let a = DummyAbstractGenerator.generate("frag", &facts, VerificationStatus::GrayWhite);
    assert_eq!(a.summary, "SMOKE: frag");
    assert_eq!(a.tags.tags, vec!["smoke".to_string(), "sanity".to_string()]);
    assert_eq!(a.verification, VerificationStatus::GrayWhite);
    assert_eq!(a.tags.to_key(), "sanity|smoke");
}

#[test]
fn abstract_from_model_answer() {
    let a = abstract_from_answer("brief".into(), vec![" b".into(), "A".into(), "b".into()], VerificationStatus::Smoke);
    assert_eq!(a.summary, "brief");
    assert_eq!(a.tags.tags, vec!["A".to_string(), "b".to_string()]);
    assert_eq!(a.verification, VerificationStatus::Smoke);
    let long = "z".repeat(100);
    assert_eq!(unreadable_answer_summary(&long), format!("LLM parse error. Raw: {}", "z".repeat(80)));
    assert_eq!(unreadable_answer_summary("oops"), "LLM parse error. Raw: oops");
}

#[test]
fn gap_transition() {
    assert!(!gap_needs_reasoner(&Vec::new()));
    let ev = vec![Evidence {
        evidence_id: Id(5),
        source: SourceMeta { url: "u".into(), retrieved_at_rfc3339: "t".into(), sha256_hex: "h".into() },
        snippet: "s".into(),
    }];
    assert!(gap_needs_reasoner(&ev));
    let agent = AgentIdentity { origin: "GPT-5".into(), role: None, build: "0.1.0".into() };
    let t = transition_from_answer("election".into(), Some("1970-01-01T00:00:01Z".into()), "PM: A".into(), "PM: B".into(), agent.clone(), &ev);
    assert_eq!(t.event, "election");
    assert_eq!(t.occurred_at, Some(IsoDateTime { micros: 1_000_000 }));
    assert_eq!(t.evidence_ids, vec![Id(5)]);
    assert_eq!(t.agent.origin, "GPT-5");
    let t = transition_from_answer("e".into(), Some("yesterday".into()), "a".into(), "b".into(), agent, &ev);
    assert_eq!(t.occurred_at, None);
}

#[test]
fn index_select() {
    let mut idx = InMemoryIndex::new();
    let mk = |tags: &[&str], v| {
        let mut a = DummyAbstractGenerator.generate("x", &Vec::new(), v);
        a.tags.tags = tags.iter().map(|s| s.to_string()).collect();
        a
    };
    idx.insert(mk(&["B", "a"], VerificationStatus::White));
    idx.insert(mk(&["c"], VerificationStatus::Smoke));
    idx.insert(mk(&["a", "b"], VerificationStatus::GrayMid));
    assert_eq!(idx.select(Some("a|b"), None).len(), 2);
    let high = idx.select(Some("a|b"), Some(VerificationStatus::GrayWhite));
    assert_eq!(high.len(), 1);
    assert_eq!(high[0].verification, VerificationStatus::White);
    let all: Vec<VerificationStatus> = idx.select(None, None).iter().map(|a| a.verification).collect();
    assert_eq!(all, vec![VerificationStatus::White, VerificationStatus::GrayMid, VerificationStatus::Smoke]);
    assert_eq!(idx.select(None, Some(VerificationStatus::GrayMid)).len(), 2);
    assert!(idx.select(Some("zzz"), None).is_empty());
    let q = SelectQuery::default();
    assert!(q.tag_key.is_none() && q.min_verification.is_none());
}
