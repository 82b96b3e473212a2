//! What an aggregation engine is set up with.
use crate::faults::FaultModel;
use crate::types::{Epoch, Height, Participant};
use vstd::prelude::*;

verus! {

/// Configuration of an engine for one epoch.
#[derive(Clone, Copy, Debug, PartialEq, Eq, Structural)]
pub struct Config {
    /// Epoch represented by the engine.
    pub epoch: Epoch,
    /// First mandatory global position, inclusive.
    pub first: Height,
    /// Last mandatory global position, inclusive.
    pub last: Height,
    /// Maximum number of live positions.
    ///
    /// This value must remain unchanged while the engine's journal is kept.
    pub window: u64,
    /// Number of participants in the epoch's committee.
    pub participants: u32,
    /// How many of them may be faulty.
    pub faults: FaultModel,
    /// The participant that this node signs for, if it signs at all.
    pub me: Option<Participant>,
    /// How long an acknowledgement waits to be broadcast again, in nanoseconds.
    pub rebroadcast_timeout: u128,
    /// Whether acknowledgements are sent as priority messages.
    pub priority_acks: bool,
    /// Number of positions assigned to each journal section.
    pub journal_heights_per_section: u64,
}

impl Config {
    /// What an engine can be made from: a range that is not empty, a window that is not empty and
    /// can be counted in memory, a committee with a quorum, and sections that are not empty.
    pub open spec fn valid(self) -> bool {
        &&& self.first.0 <= self.last.0
        &&& 0 < self.window <= usize::MAX
        &&& self.faults.applies_to(self.participants)
        &&& 0 < self.journal_heights_per_section
    }

    /// How many recovered certificates may wait for the engine: as many as positions may be live.
    pub fn mailbox_capacity(&self) -> (capacity: usize)
        requires
            self.valid(),
        ensures
            capacity == self.window,
            capacity > 0,
    {
        self.window as usize
    }

    /// The size of a quorum of the committee.
    pub open spec fn quorum(self) -> int {
        self.faults.quorum_size(self.participants)
    }
}

/// An engine can be made from every configuration with a range, a window that can be counted, a
/// committee with a quorum, and sections. Its quorum is that of its fault model.
pub proof fn law_valid_configurations(config: Config)
    ensures
        config.valid() <==> {
            &&& config.first.0 <= config.last.0
            &&& config.window > 0
            &&& config.window <= usize::MAX
            &&& config.journal_heights_per_section > 0
            &&& match config.faults {
                FaultModel::Quorum(quorum) => quorum > 0,
                _ => config.participants > 0,
            }
        },
        config.quorum() == config.faults.quorum_size(config.participants),
        config.valid() ==> config.quorum() > 0,
{
}

} // verus!
