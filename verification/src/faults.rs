//! How many participants make a quorum.
use commonware_utils::{Faults, N3f1, N5f1};
use vstd::prelude::*;

verus! {

/// How many faulty participants a committee tolerates.
#[derive(Clone, Copy, Debug, PartialEq, Eq, Structural)]
pub enum FaultModel {
    /// One fault for each three participants beyond the first.
    N3f1,
    /// One fault for each five participants beyond the first.
    N5f1,
    /// Any other model, given by the quorum that it asks of the committee: at least one participant.
    Quorum(u32),
}

impl FaultModel {
    /// Whether the model says how large a quorum of a committee of `participants` is.
    pub open spec fn applies_to(self, participants: u32) -> bool {
        match self {
            FaultModel::Quorum(quorum) => quorum > 0,
            _ => participants > 0,
        }
    }

    /// The most faults that a committee of `participants` tolerates.
    pub open spec fn max_faults(self, participants: u32) -> int {
        match self {
            FaultModel::N3f1 => (participants - 1) / 3,
            FaultModel::N5f1 => (participants - 1) / 5,
            FaultModel::Quorum(quorum) => participants - quorum,
        }
    }

    /// The size of a quorum: everyone but the faults tolerated.
    pub open spec fn quorum_size(self, participants: u32) -> int {
        participants - self.max_faults(participants)
    }

    /// The size of a quorum of a committee of `participants`.
    pub fn quorum(self, participants: u32) -> (quorum: u32)
        requires
            self.applies_to(participants),
        ensures
            quorum == self.quorum_size(participants),
            quorum > 0,
    {
        match self {
            FaultModel::N3f1 => quorum_n3f1(participants),
            FaultModel::N5f1 => quorum_n5f1(participants),
            FaultModel::Quorum(quorum) => quorum,
        }
    }
}

/// Calls `commonware_utils::N3f1::quorum`, which is `n - (n - 1) / 3` and panics on zero.
#[verifier::external_body]
fn quorum_n3f1(participants: u32) -> (quorum: u32)
    requires
        participants > 0,
    ensures
        quorum == participants - (participants - 1) / 3,
{
    N3f1::quorum(participants)
}

/// Calls `commonware_utils::N5f1::quorum`, which is `n - (n - 1) / 5` and panics on zero.
#[verifier::external_body]
fn quorum_n5f1(participants: u32) -> (quorum: u32)
    requires
        participants > 0,
    ensures
        quorum == participants - (participants - 1) / 5,
{
    N5f1::quorum(participants)
}

/// Under the two models that are known, a quorum is a part of the committee, and any two quorums
/// share more participants than can be faulty.
pub proof fn law_quorums_intersect(model: FaultModel, participants: u32)
    requires
        participants > 0,
        model is N3f1 || model is N5f1,
    ensures
        0 < model.quorum_size(participants) <= participants,
        2 * model.quorum_size(participants) > participants + model.max_faults(participants),
{
}

/// A quorum is everyone but as many as may be faulty, and no more may be than leave the others with
/// three, or five, for each fault beyond the first participant. Any other model gives its quorum itself.
pub proof fn law_quorum_leaves_out_the_faulty(model: FaultModel, participants: u32)
    ensures
        model.applies_to(participants) <==> match model {
            FaultModel::N3f1 => participants > 0,
            FaultModel::N5f1 => participants > 0,
            FaultModel::Quorum(quorum) => quorum > 0,
        },
        participants > 0 ==> {
            let faulty = participants - model.quorum_size(participants);
            match model {
                FaultModel::N3f1 => 0 <= faulty && 3 * faulty + 1 <= participants < 3 * faulty + 4,
                FaultModel::N5f1 => 0 <= faulty && 5 * faulty + 1 <= participants < 5 * faulty + 6,
                FaultModel::Quorum(_) => true,
            }
        },
        model matches FaultModel::Quorum(quorum) ==> model.quorum_size(participants) == quorum,
{
}

} // verus!
