use vstd::prelude::*;
use crate::status::VerificationStatus;
use crate::text::{concat_str, trim, trim_str};
use crate::meaning::{LightweightHit, MeaningMatchMode};
use crate::models::{Id, OpKind, uuid_parse_of, uuid_text_of};
use crate::pipeline::IngestOutcome;

verus! {

/// Default confidence below which the stream is stopped: 0.35.
pub const DEFAULT_STOP_THRESHOLD_BP: u32 = 3500;

/// What a control command asks of the stream.
#[derive(Clone, Copy, Debug, PartialEq, Eq, Structural)]
pub enum ControlCommand {
    Stop,
    Continue,
}

/// Why a control command was sent.
#[derive(Clone, Copy, Debug, PartialEq, Eq, Structural)]
pub enum ControlTrigger {
    SmokeDetected,
    LowConfidence,
    ManualOverride,
}

/// What a human's override refers to, and why.
#[derive(Clone, Debug)]
pub struct ManualOverrideMeta {
    pub conversation_id: Option<String>,
    pub abstract_id: Option<String>,
    pub note: Option<String>,
}

/// A request to stop or continue the stream, and why.
#[derive(Clone, Debug)]
pub struct ControlCommandPayload {
    pub command: ControlCommand,
    pub trigger: ControlTrigger,
    pub detail: String,
    pub manual_override: Option<ManualOverrideMeta>,
}

/// The verdict on a fragment.
#[derive(Clone, Debug)]
pub struct JudgeResultPayload {
    pub status: VerificationStatus,
    pub reason: String,
    /// Confidence in basis points, `0..=10000`.
    pub confidence_bp: u32,
    pub claim: String,
    pub evidence_count: usize,
    pub abstract_id: Option<String>,
}

/// A fragment of the client's stream.
#[derive(Clone, Debug)]
pub struct StreamFragmentPayload {
    pub fragment: String,
    pub conversation_id: Option<String>,
    pub sequence_number: Option<u64>,
}

/// A frame received from the client, as read.
#[derive(Clone, Debug)]
pub enum Inbound {
    StreamFragment(StreamFragmentPayload),
    JudgeResult(JudgeResultPayload),
    ControlCommand(ControlCommandPayload),
    /// The frame was not a message.
    Malformed,
}

/// A frame to send to the client.
#[derive(Clone, Debug)]
pub enum Outbound {
    JudgeResult(JudgeResultPayload),
    ControlCommand(ControlCommandPayload),
}

/// A manual override to record.
#[derive(Clone, Debug)]
pub struct OverrideRequest {
    pub conversation_id: Option<String>,
    pub abstract_id: Option<Id>,
    pub note: String,
}

/// What the reader does with a frame.
#[derive(Clone, Debug)]
pub enum ReaderAction {
    /// Hand the fragment to the worker, replacing any it has not taken.
    Publish(String),
    /// Append a manual override to the log.
    RecordOverride(OverrideRequest),
    /// Send this frame back.
    Reply(Outbound),
    Ignore,
}

/// The note of an override: the one given unless it is blank.
pub open spec fn override_note(note: Option<String>) -> Seq<char> {
    match note {
        Some(n) => if trim(n@).len() > 0 {
            n@
        } else {
            "No reason provided"@
        },
        None => "No reason provided"@,
    }
}

/// The reader's decision on one frame: a malformed frame is answered
/// with `Stop` (trigger `ManualOverride`, "JSON parse error"); a fragment
/// is handed on; `Continue` with trigger `ManualOverride` becomes an
/// override to record; anything else is ignored.
pub fn on_inbound(msg: Inbound) -> (r: ReaderAction)
    ensures
        msg is Malformed ==> (r matches ReaderAction::Reply(Outbound::ControlCommand(c))
            && c.command == ControlCommand::Stop && c.trigger == ControlTrigger::ManualOverride
            && c.detail@ == "JSON parse error"@ && c.manual_override is None),
        msg matches Inbound::StreamFragment(p) ==> (r matches ReaderAction::Publish(f) && f@
            == p.fragment@),
        msg matches Inbound::ControlCommand(c) ==> if c.command == ControlCommand::Continue
            && c.trigger == ControlTrigger::ManualOverride {
            (r matches ReaderAction::RecordOverride(o) && o.note@ == override_note(
                match c.manual_override {
                    Some(m) => m.note,
                    None => None,
                },
            ) && o.conversation_id == (match c.manual_override {
                Some(m) => m.conversation_id,
                None => None,
            }) && o.abstract_id == (match c.manual_override {
                Some(m) => match m.abstract_id {
                    Some(s) => match uuid_parse_of(s@) {
                        Some(v) => Some(Id(v)),
                        None => None,
                    },
                    None => None,
                },
                None => None,
            }))
        } else {
            r is Ignore
        },
        msg is JudgeResult ==> r is Ignore,
{
    match msg {
        Inbound::Malformed => ReaderAction::Reply(
            Outbound::ControlCommand(
                ControlCommandPayload {
                    command: ControlCommand::Stop,
                    trigger: ControlTrigger::ManualOverride,
                    detail: "JSON parse error".to_owned(),
                    manual_override: None,
                },
            ),
        ),
        Inbound::StreamFragment(p) => ReaderAction::Publish(p.fragment),
        Inbound::JudgeResult(_) => ReaderAction::Ignore,
        Inbound::ControlCommand(c) => {
            if c.command == ControlCommand::Continue && c.trigger == ControlTrigger::ManualOverride {
                let (conversation_id, abstract_text, note) = match c.manual_override {
                    Some(m) => (m.conversation_id, m.abstract_id, m.note),
                    None => (None, None, None),
                };
                let note = match note {
                    Some(n) => if trim_str(n.as_str()).as_str().is_empty() {
                        "No reason provided".to_owned()
                    } else {
                        n
                    },
                    None => "No reason provided".to_owned(),
                };
                let abstract_id = match abstract_text {
                    Some(s) => Id::parse(s.as_str()),
                    None => None,
                };
                ReaderAction::RecordOverride(OverrideRequest { conversation_id, abstract_id, note })
            } else {
                ReaderAction::Ignore
            }
        },
    }
}

/// The stop policy: `SmokeDetected` for a `Smoke` grade, else
/// `LowConfidence` below the threshold, else nothing.
pub open spec fn stop_trigger(status: VerificationStatus, confidence_bp: int, threshold_bp: int) -> Option<ControlTrigger> {
    if status == VerificationStatus::Smoke {
        Some(ControlTrigger::SmokeDetected)
    } else if confidence_bp < threshold_bp {
        Some(ControlTrigger::LowConfidence)
    } else {
        None
    }
}

/// The detail sent with a `Stop`.
pub open spec fn stop_detail(t: ControlTrigger) -> Seq<char> {
    match t {
        ControlTrigger::SmokeDetected => "evidence contradicts the claim"@,
        _ => "confidence below threshold"@,
    }
}

/// The `Stop` command a verdict calls for, if any.
pub fn stop_command(judge: &JudgeResultPayload, threshold_bp: u32) -> (r: Option<ControlCommandPayload>)
    ensures
        match stop_trigger(judge.status, judge.confidence_bp as int, threshold_bp as int) {
            None => r is None,
            Some(t) => r matches Some(c) && c.command == ControlCommand::Stop && c.trigger == t
                && c.detail@ == stop_detail(t) && c.manual_override is None,
        },
{
    if judge.status == VerificationStatus::Smoke {
        Some(
            ControlCommandPayload {
                command: ControlCommand::Stop,
                trigger: ControlTrigger::SmokeDetected,
                detail: "evidence contradicts the claim".to_owned(),
                manual_override: None,
            },
        )
    } else if judge.confidence_bp < threshold_bp {
        Some(
            ControlCommandPayload {
                command: ControlCommand::Stop,
                trigger: ControlTrigger::LowConfidence,
                detail: "confidence below threshold".to_owned(),
                manual_override: None,
            },
        )
    } else {
        None
    }
}

/// The name of a match mode, as reported.
pub open spec fn mode_name(mode: MeaningMatchMode) -> Seq<char> {
    match mode {
        MeaningMatchMode::Exact => "exact"@,
        MeaningMatchMode::Contains => "contains"@,
    }
}

/// `j` is the verdict of a fast-path hit: `White`, certainty, no
/// evidence, no abstract, and a reason naming the tag and the mode.
pub open spec fn fast_judgement_of(fragment: Seq<char>, hit: LightweightHit, j: JudgeResultPayload) -> bool {
    &&& j.status == VerificationStatus::White
    &&& j.confidence_bp == 10000
    &&& j.evidence_count == 0
    &&& j.claim@ == fragment
    &&& j.abstract_id is None
    &&& j.reason@ == "source=Cache tag="@ + hit.tag@ + " mode="@ + mode_name(hit.mode)
}

/// The verdict of a fast-path hit.
pub fn fast_path_judgement(fragment: &str, hit: &LightweightHit) -> (r: JudgeResultPayload)
    ensures
        fast_judgement_of(fragment@, *hit, r),
{
    let mode = match hit.mode {
        MeaningMatchMode::Exact => "exact",
        MeaningMatchMode::Contains => "contains",
    };
    let head = concat_str("source=Cache tag=", hit.tag.as_str());
    let with_mode = concat_str(head.as_str(), " mode=");
    let reason = concat_str(with_mode.as_str(), mode);
    JudgeResultPayload {
        status: VerificationStatus::White,
        reason,
        confidence_bp: 10000,
        claim: fragment.to_owned(),
        evidence_count: 0,
        abstract_id: None,
    }
}

/// `j` is the verdict after a pipeline run: grade, confidence, evidence
/// count and reason of the first outcome, with the id of the abstract it
/// recorded (if any); `GrayMid` at 0.4 with reason "ok" when there was
/// none.
pub open spec fn judgement_of(fragment: Seq<char>, outcomes: Seq<IngestOutcome>, j: JudgeResultPayload) -> bool {
    &&& j.claim@ == fragment
    &&& outcomes.len() == 0 ==> j.status == VerificationStatus::GrayMid && j.confidence_bp == 4000
        && j.evidence_count == 0 && j.reason@ == "ok"@ && j.abstract_id is None
    &&& outcomes.len() > 0 ==> {
        let o = outcomes[0];
        &&& j.status == o.status
        &&& j.confidence_bp == o.confidence_bp
        &&& j.evidence_count == o.evidence_count
        &&& j.reason@ == o.reason@
        &&& match o.op.kind {
            OpKind::InsertAbstract { abstract_ } => j.abstract_id matches Some(s) && s@
                == uuid_text_of(abstract_.id.0),
            _ => j.abstract_id is None,
        }
    }
}

/// The verdict reported after a pipeline run.
pub fn judgement_from_outcomes(fragment: &str, outcomes: &Vec<IngestOutcome>) -> (r: JudgeResultPayload)
    ensures
        judgement_of(fragment@, outcomes@, r),
{
    if outcomes.len() == 0 {
        return JudgeResultPayload {
            status: VerificationStatus::GrayMid,
            reason: "ok".to_owned(),
            confidence_bp: 4000,
            claim: fragment.to_owned(),
            evidence_count: 0,
            abstract_id: None,
        };
    }
    let o = &outcomes[0];
    let abstract_id = match &o.op.kind {
        OpKind::InsertAbstract { abstract_ } => Some(abstract_.id.to_text()),
        _ => None,
    };
    JudgeResultPayload {
        status: o.status,
        reason: o.reason.clone(),
        confidence_bp: o.confidence_bp,
        claim: fragment.to_owned(),
        evidence_count: o.evidence_count,
        abstract_id,
    }
}

/// What the worker does with a fragment before any pipeline run.
#[derive(Clone, Debug)]
pub enum WorkerStep {
    /// Nothing to do (the fragment is empty).
    Skip,
    /// Send these frames; no pipeline run.
    Reply(Vec<Outbound>),
    /// Run the pipeline on the fragment, under its deadline.
    RunPipeline,
}

/// The worker's first decision on a fragment: an empty one is skipped; a
/// fast-path hit is answered with its verdict alone; otherwise the
/// pipeline runs.
pub fn on_fragment(fragment: &str, hit: Option<LightweightHit>) -> (r: WorkerStep)
    ensures
        fragment@.len() == 0 ==> r is Skip,
        fragment@.len() > 0 && hit is None ==> r is RunPipeline,
        fragment@.len() > 0 && hit is Some ==> (r matches WorkerStep::Reply(v) && v@.len() == 1
            && (v@[0] matches Outbound::JudgeResult(j) && fast_judgement_of(fragment@, hit->0, j))),
{
    if fragment.is_empty() {
        return WorkerStep::Skip;
    }
    match hit {
        None => WorkerStep::RunPipeline,
        Some(h) => {
            let mut v: Vec<Outbound> = Vec::new();
            v.push(Outbound::JudgeResult(fast_path_judgement(fragment, &h)));
            WorkerStep::Reply(v)
        },
    }
}

/// The worker's decision once the pipeline has run: nothing after an
/// error or a timeout (`None`); else the verdict, followed by a `Stop`
/// when the stop policy calls for one.
pub fn on_ingest(fragment: &str, result: Option<Vec<IngestOutcome>>, stop_threshold_bp: u32) -> (r: Vec<Outbound>)
    ensures
        result is None ==> r@.len() == 0,
        result matches Some(outs) ==> {
            &&& r@.len() >= 1
            &&& (r@[0] matches Outbound::JudgeResult(j) && judgement_of(fragment@, outs@, j) && match stop_trigger(
                j.status,
                j.confidence_bp as int,
                stop_threshold_bp as int,
            ) {
                None => r@.len() == 1,
                Some(t) => r@.len() == 2 && (r@[1] matches Outbound::ControlCommand(c)
                    && c.command == ControlCommand::Stop && c.trigger == t && c.detail@ == stop_detail(t)
                    && c.manual_override is None),
            })
        },
{
    match result {
        None => Vec::new(),
        Some(outs) => {
            let judge = judgement_from_outcomes(fragment, &outs);
            let stop = stop_command(&judge, stop_threshold_bp);
            let mut v: Vec<Outbound> = Vec::new();
            v.push(Outbound::JudgeResult(judge));
            match stop {
                Some(c) => v.push(Outbound::ControlCommand(c)),
                None => {},
            }
            v
        },
    }
}

} // verus!
