use vstd::prelude::*;

verus! {

/// The five verification grades, from "evidence contradicts the claim"
/// (`Smoke`) to "evidence supports the claim" (`White`).
#[derive(Clone, Copy, Debug, PartialEq, Eq, Structural, Hash)]
pub enum VerificationStatus {
    Smoke,
    GrayBlack,
    GrayMid,
    GrayWhite,
    White,
}

impl VerificationStatus {
    /// Position of the grade in the total order.
    pub open spec fn spec_rank(self) -> nat {
        match self {
            VerificationStatus::Smoke => 0,
            VerificationStatus::GrayBlack => 1,
            VerificationStatus::GrayMid => 2,
            VerificationStatus::GrayWhite => 3,
            VerificationStatus::White => 4,
        }
    }

    /// Position of the grade in the total order (`Smoke` is 0, `White` is 4).
    pub fn rank(&self) -> (r: u8)
        ensures
            r as nat == self.spec_rank(),
    {
        match self {
            VerificationStatus::Smoke => 0,
            VerificationStatus::GrayBlack => 1,
            VerificationStatus::GrayMid => 2,
            VerificationStatus::GrayWhite => 3,
            VerificationStatus::White => 4,
        }
    }
}

/// Order of grades by rank.
pub open spec fn status_cmp(a: VerificationStatus, b: VerificationStatus) -> core::cmp::Ordering {
    if a.spec_rank() < b.spec_rank() {
        core::cmp::Ordering::Less
    } else if a.spec_rank() == b.spec_rank() {
        core::cmp::Ordering::Equal
    } else {
        core::cmp::Ordering::Greater
    }
}

impl PartialOrd for VerificationStatus {
    fn partial_cmp(&self, other: &VerificationStatus) -> (r: Option<core::cmp::Ordering>) {
        let a = self.rank();
        let b = other.rank();
        if a < b {
            Some(core::cmp::Ordering::Less)
        } else if a == b {
            Some(core::cmp::Ordering::Equal)
        } else {
            Some(core::cmp::Ordering::Greater)
        }
    }
}

impl vstd::std_specs::cmp::PartialOrdSpecImpl for VerificationStatus {
    open spec fn obeys_partial_cmp_spec() -> bool {
        true
    }

    open spec fn partial_cmp_spec(&self, other: &VerificationStatus) -> Option<core::cmp::Ordering> {
        Some(status_cmp(*self, *other))
    }
}

/// Lets through only what reaches a minimum grade.
#[derive(Clone, Copy, Debug, PartialEq, Eq, Structural)]
pub struct OutputGate {
    pub min_status: VerificationStatus,
}

impl OutputGate {
    /// Whether this gate lets `status` through.
    pub open spec fn allows(self, status: VerificationStatus) -> bool {
        status.spec_rank() >= self.min_status.spec_rank()
    }

    /// Whether `status` reaches the minimum grade of this gate.
    pub fn allow(&self, status: VerificationStatus) -> (r: bool)
        ensures
            r == self.allows(status),
    {
        status >= self.min_status
    }
}

/// The grades are totally ordered
/// `Smoke < GrayBlack < GrayMid < GrayWhite < White`, and a gate lets a
/// grade through exactly when it reaches that minimum.
pub proof fn lemma_grade_order(gate: OutputGate, s: VerificationStatus)
    ensures
        VerificationStatus::Smoke.spec_rank() < VerificationStatus::GrayBlack.spec_rank(),
        VerificationStatus::GrayBlack.spec_rank() < VerificationStatus::GrayMid.spec_rank(),
        VerificationStatus::GrayMid.spec_rank() < VerificationStatus::GrayWhite.spec_rank(),
        VerificationStatus::GrayWhite.spec_rank() < VerificationStatus::White.spec_rank(),
        gate.allows(s) <==> status_cmp(s, gate.min_status) != core::cmp::Ordering::Less,
        s.spec_rank() == gate.min_status.spec_rank() <==> s == gate.min_status,
{
}

} // verus!
