use tuff_db::models::{Evidence, Id, RequiredFact, SourceMeta};
use tuff_db::pipeline::evidence_count;
use tuff_db::status::{OutputGate, VerificationStatus};
use tuff_db::verdict::{
    confidence_adjust, finish_verification, no_evidence_result, parse_status, status_from_upper,
    summarize_reasoning, unreadable_verdict, verdict_without_model, DummyVerifier,
};

fn evidence(n: u128) -> Evidence {
    Evidence {
        evidence_id: Id(n),
        source: SourceMeta {
            url: "https://example.org/".to_string(),
            retrieved_at_rfc3339: "2024-01-01T00:00:00+00:00".to_string(),
            sha256_hex: String::new(),
        },
        snippet: "snippet".to_string(),
    }
}

#[test]
fn grade_order_and_gate() {
    let order = [
        VerificationStatus::Smoke,
        VerificationStatus::GrayBlack,
        VerificationStatus::GrayMid,
        VerificationStatus::GrayWhite,
        VerificationStatus::White,
    ];
    for i in 0..order.len() {
        for j in 0..order.len() {
            assert_eq!(order[i] < order[j], i < j);
            assert_eq!(OutputGate { min_status: order[j] }.allow(order[i]), i >= j);
        }
        assert_eq!(order[i].rank() as usize, i);
    }
}

#[test]
fn status_labels() {
    assert_eq!(parse_status("  white "), VerificationStatus::White);
    assert_eq!(parse_status("SMOKE"), VerificationStatus::Smoke);
    assert_eq!(parse_status("gray_black"), VerificationStatus::GrayBlack);
    assert_eq!(parse_status("Gray_White"), VerificationStatus::GrayWhite);
    assert_eq!(parse_status("GRAY_MID"), VerificationStatus::GrayMid);
    assert_eq!(parse_status("certain"), VerificationStatus::GrayMid);
}

#[test]
fn confidence_weighting() {
    assert_eq!(confidence_adjust(9000, 2), 6000);
    assert_eq!(confidence_adjust(9000, 0), 3600);
    assert_eq!(confidence_adjust(9000, 1), 3600);
    assert_eq!(confidence_adjust(5000, 3), 5000);
    assert_eq!(confidence_adjust(5000, 100), 5000);
    assert_eq!(confidence_adjust(20000, 5), 10000);
    assert_eq!(confidence_adjust(-5, 1), 0);
    assert_eq!(confidence_adjust(i64::MAX, 2), 10000);
}

#[test]
fn reasoning_summary() {
    assert_eq!(summarize_reasoning("  a\nb  "), "a b");
    let long = "x".repeat(130);
    assert_eq!(summarize_reasoning(&long), format!("{}...", "x".repeat(120)));
    let exact = "y".repeat(120);
    assert_eq!(summarize_reasoning(&exact), exact);
    let wide = "é".repeat(70);
    assert_eq!(summarize_reasoning(&wide), format!("{}...", wide));
}

#[test]
fn model_verdict_with_two_evidence() {
    let facts = vec![RequiredFact {
        key: "k".to_string(),
        value: "v".to_string(),
        evidence: vec![evidence(1), evidence(2)],
    }];
    let n = evidence_count(&facts);
    assert_eq!(n, 2);
    let r = finish_verification("WHITE", 9000, "ok", n);
    assert_eq!(r.status, VerificationStatus::White);
    assert_eq!(r.confidence_bp, 6000);
    assert_eq!(r.reason, "ok");
}

#[test]
fn verdict_without_evidence() {
    let r = no_evidence_result();
    assert_eq!(r.status, VerificationStatus::GrayMid);
    assert_eq!(r.confidence_bp, 4000);
    assert_eq!(r.reason, "no evidence");
    let d = DummyVerifier.verify("claim", &Vec::new());
    assert_eq!((d.status, d.confidence_bp), (VerificationStatus::GrayMid, 4000));
    let one = vec![RequiredFact { key: "k".into(), value: "v".into(), evidence: Vec::new() }];
    let d = DummyVerifier.verify("claim", &one);
    assert_eq!((d.status, d.confidence_bp, d.reason.as_str()), (VerificationStatus::White, 8000, "dummy verifier"));
}

#[test]
fn labels_after_uppercasing() {
    assert_eq!(status_from_upper("WHITE"), VerificationStatus::White);
    assert_eq!(status_from_upper("GRAY_BLACK"), VerificationStatus::GrayBlack);
    assert_eq!(status_from_upper("white"), VerificationStatus::GrayMid);
}

#[test]
fn verdicts_without_a_model_answer() {
    let v = verdict_without_model(0).unwrap();
    assert_eq!((v.status, v.confidence_bp, v.reason.as_str()), (VerificationStatus::GrayMid, 4000, "no evidence"));
    assert!(verdict_without_model(2).is_none());
    let u = unreadable_verdict("oops");
    assert_eq!((u.status, u.confidence_bp, u.reason.as_str()), (VerificationStatus::GrayMid, 4000, "parse error: oops"));
}
