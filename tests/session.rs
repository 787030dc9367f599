use tuff_db::meaning::{LightweightVerifier, MeaningDb};
use tuff_db::models::{Abstract, Id, IsoDateTime, OpKind, OpLog};
use tuff_db::pipeline::IngestOutcome;
use tuff_db::session::{
    on_fragment, on_inbound, on_ingest, ControlCommand, ControlCommandPayload, ControlTrigger,
    Inbound, ManualOverrideMeta, Outbound, ReaderAction, StreamFragmentPayload, WorkerStep,
    DEFAULT_STOP_THRESHOLD_BP,
};
use tuff_db::status::VerificationStatus;
use tuff_db::tags::TagBits;

fn outcome(status: VerificationStatus, confidence_bp: u32, evidence_count: usize) -> IngestOutcome {
    let mut a = Abstract::new(Id(1), Id(2), TagBits { tags: vec!["t".to_string()] });
    a.id = Id(0x0123456789abcdef0123456789abcdef);
    a.verification = status;
    IngestOutcome {
        op: OpLog { op_id: Id(7), kind: OpKind::InsertAbstract { abstract_: a }, created_at: IsoDateTime { micros: 0 } },
        status,
        confidence_bp,
        evidence_count,
        reason: "ok".to_string(),
    }
}

#[test]
fn white_verdict_with_evidence() {
    let out = on_ingest("claim", Some(vec![outcome(VerificationStatus::White, 6000, 2)]), DEFAULT_STOP_THRESHOLD_BP);
    assert_eq!(out.len(), 1);
    match &out[0] {
        Outbound::JudgeResult(j) => {
            assert_eq!(j.status, VerificationStatus::White);
            assert_eq!(j.confidence_bp, 6000);
            assert_eq!(j.evidence_count, 2);
            assert_eq!(j.reason, "ok");
            assert_eq!(j.claim, "claim");
            assert_eq!(j.abstract_id.as_deref(), Some("01234567-89ab-cdef-0123-456789abcdef"));
        }
        _ => panic!("expected a verdict"),
    }
}

#[test]
fn no_evidence_does_not_stop_at_default() {
    let out = on_ingest("claim", Some(vec![outcome(VerificationStatus::GrayMid, 4000, 0)]), DEFAULT_STOP_THRESHOLD_BP);
    assert_eq!(out.len(), 1);
    let out = on_ingest("claim", Some(vec![outcome(VerificationStatus::GrayMid, 4000, 0)]), 4500);
    assert_eq!(out.len(), 2);
    match &out[1] {
        Outbound::ControlCommand(c) => {
            assert_eq!(c.command, ControlCommand::Stop);
            assert_eq!(c.trigger, ControlTrigger::LowConfidence);
        }
        _ => panic!("expected a stop"),
    }
}

#[test]
fn smoke_stops_the_stream() {
    let out = on_ingest("claim", Some(vec![outcome(VerificationStatus::Smoke, 9000, 1)]), DEFAULT_STOP_THRESHOLD_BP);
    assert_eq!(out.len(), 2);
    assert!(matches!(&out[0], Outbound::JudgeResult(j) if j.status == VerificationStatus::Smoke));
    assert!(matches!(&out[1], Outbound::ControlCommand(c)
        if c.command == ControlCommand::Stop && c.trigger == ControlTrigger::SmokeDetected));
}

#[test]
fn failed_run_sends_nothing() {
    assert!(on_ingest("claim", None, DEFAULT_STOP_THRESHOLD_BP).is_empty());
    let out = on_ingest("claim", Some(Vec::new()), DEFAULT_STOP_THRESHOLD_BP);
    assert!(matches!(&out[0], Outbound::JudgeResult(j)
        if j.status == VerificationStatus::GrayMid && j.confidence_bp == 4000 && j.reason == "ok"));
    assert_eq!(out.len(), 1);
}

#[test]
fn fast_path_single_verdict() {
    let v = LightweightVerifier::new(MeaningDb::new(vec![("id".to_string(), "u-42".to_string())]));
    let hit = v.verify_fragment("id\tu-42");
    assert!(hit.is_some());
    match on_fragment("id\tu-42", hit) {
        WorkerStep::Reply(msgs) => {
            assert_eq!(msgs.len(), 1);
            match &msgs[0] {
                Outbound::JudgeResult(j) => {
                    assert_eq!(j.status, VerificationStatus::White);
                    assert_eq!(j.confidence_bp, 10000);
                    assert_eq!(j.evidence_count, 0);
                    assert_eq!(j.reason, "source=Cache tag=id mode=exact");
                }
                _ => panic!("expected a verdict"),
            }
        }
        _ => panic!("expected a reply without pipeline"),
    }
    assert!(matches!(on_fragment("id\tu-43", v.verify_fragment("id\tu-43")), WorkerStep::RunPipeline));
    assert!(matches!(on_fragment("", None), WorkerStep::Skip));
}

#[test]
fn malformed_json_then_fragment() {
    match on_inbound(Inbound::Malformed) {
        ReaderAction::Reply(Outbound::ControlCommand(c)) => {
            assert_eq!(c.command, ControlCommand::Stop);
            assert_eq!(c.trigger, ControlTrigger::ManualOverride);
            assert_eq!(c.detail, "JSON parse error");
        }
        _ => panic!("expected a stop"),
    }
    let frag = Inbound::StreamFragment(StreamFragmentPayload {
        fragment: "next".to_string(),
        conversation_id: None,
        sequence_number: Some(2),
    });
    assert!(matches!(on_inbound(frag), ReaderAction::Publish(f) if f == "next"));
}

#[test]
fn override_capture() {
    let cmd = |command, trigger, note: Option<&str>, abstract_id: Option<&str>| {
        Inbound::ControlCommand(ControlCommandPayload {
            command,
            trigger,
            detail: String::new(),
            manual_override: Some(ManualOverrideMeta {
                conversation_id: Some("conv".to_string()),
                abstract_id: abstract_id.map(|s| s.to_string()),
                note: note.map(|s| s.to_string()),
            }),
        })
    };
    match on_inbound(cmd(ControlCommand::Continue, ControlTrigger::ManualOverride, Some("  "), Some("01234567-89ab-cdef-0123-456789abcdef"))) {
        ReaderAction::RecordOverride(o) => {
            assert_eq!(o.note, "No reason provided");
            assert_eq!(o.conversation_id.as_deref(), Some("conv"));
            assert_eq!(o.abstract_id, Some(Id(0x0123456789abcdef0123456789abcdef)));
        }
        _ => panic!("expected an override"),
    }
    match on_inbound(cmd(ControlCommand::Continue, ControlTrigger::ManualOverride, Some("mine"), Some("not-an-id"))) {
        ReaderAction::RecordOverride(o) => {
            assert_eq!(o.note, "mine");
            assert_eq!(o.abstract_id, None);
        }
        _ => panic!("expected an override"),
    }
    assert!(matches!(on_inbound(cmd(ControlCommand::Stop, ControlTrigger::ManualOverride, None, None)), ReaderAction::Ignore));
    assert!(matches!(on_inbound(cmd(ControlCommand::Continue, ControlTrigger::LowConfidence, None, None)), ReaderAction::Ignore));
}
