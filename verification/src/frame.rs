//! The swarm frame exchanged between nodes, and the priority classes that
//! the transport uses to schedule it.
use vstd::prelude::*;

verus! {

/// Scheduling class of a frame, from least to most urgent.
#[derive(Clone, Copy, Debug, PartialEq, Eq, Structural)]
pub enum PriorityLevel {
    Low,
    Medium,
    High,
    Critical,
}

impl PriorityLevel {
    /// Position of the level in the urgency order (Low is 0, Critical is 3).
    pub open spec fn rank(self) -> int {
        match self {
            PriorityLevel::Low => 0,
            PriorityLevel::Medium => 1,
            PriorityLevel::High => 2,
            PriorityLevel::Critical => 3,
        }
    }

    /// The wire number of the level.
    pub fn as_i32(self) -> (r: i32)
        ensures
            r == self.rank(),
    {
        match self {
            PriorityLevel::Low => 0,
            PriorityLevel::Medium => 1,
            PriorityLevel::High => 2,
            PriorityLevel::Critical => 3,
        }
    }

    /// Decodes a wire number; numbers outside the four levels give `None`.
    pub fn from_i32(value: i32) -> (r: Option<PriorityLevel>)
        ensures
            r is Some <==> 0 <= value <= 3,
            r matches Some(l) ==> l.rank() == value,
    {
        match value {
            0 => Some(PriorityLevel::Low),
            1 => Some(PriorityLevel::Medium),
            2 => Some(PriorityLevel::High),
            3 => Some(PriorityLevel::Critical),
            _ => None,
        }
    }

    /// `self` is at least as urgent as `other`.
    pub fn at_least(self, other: PriorityLevel) -> (r: bool)
        ensures
            r == (self.rank() >= other.rank()),
    {
        self.as_i32() >= other.as_i32()
    }
}

/// A perception report shared with the swarm; `threat` is the wire number of
/// the [`PriorityLevel`] that the reporting node assigned to it. The
/// schema's other fields are not held here: the swarm logic reads only the
/// threat level.
#[derive(Clone, Copy, Debug, PartialEq, Eq, Structural)]
pub struct PerceptionEvent {
    pub threat: i32,
}

/// A map update shared with the swarm. The schema's fields are not held
/// here: the swarm logic reads none of them, it only schedules and routes the
/// frame by its kind.
#[derive(Clone, Copy, Debug, PartialEq, Eq, Structural)]
pub struct MappingUpdate {}

/// A consensus vote. The schema's fields are not held here: the swarm
/// logic reads none of them, it only schedules and routes the frame by its
/// kind.
#[derive(Clone, Copy, Debug, PartialEq, Eq, Structural)]
pub struct ConsensusNode {}

/// A unit status report. The schema's fields are not held here: the swarm
/// logic reads none of them, it only schedules and routes the frame by its
/// kind.
#[derive(Clone, Copy, Debug, PartialEq, Eq, Structural)]
pub struct UnitStatus {}

/// A navigation goal. The schema's fields are not held here: the swarm
/// logic reads none of them, it only schedules and routes the frame by its
/// kind.
#[derive(Clone, Copy, Debug, PartialEq, Eq, Structural)]
pub struct GeoPoint {}

/// The body of a frame.
#[derive(Clone, Copy, Debug, PartialEq, Eq, Structural)]
pub enum Payload {
    Perception(PerceptionEvent),
    Mapping(MappingUpdate),
    Consensus(ConsensusNode),
    Status(UnitStatus),
    NavGoal(GeoPoint),
}

/// A frame of the swarm protocol.
#[derive(Clone, Copy, Debug, PartialEq, Eq, Structural)]
pub struct RingilFrame {
    pub source_node_id: u32,
    pub timestamp_us: u64,
    pub hop_limit: u32,
    pub payload: Option<Payload>,
}

/// The scheduling class of a frame: a perception report carries its own
/// threat level (Medium when the number is not a level); consensus votes and
/// navigation goals are High; map updates are Medium; status reports and
/// empty frames are Low.
pub open spec fn spec_frame_priority(frame: RingilFrame) -> PriorityLevel {
    match frame.payload {
        Some(Payload::Perception(p)) => {
            if 0 <= p.threat <= 3 {
                level_of_rank(p.threat as int)
            } else {
                PriorityLevel::Medium
            }
        },
        Some(Payload::Consensus(_)) => PriorityLevel::High,
        Some(Payload::NavGoal(_)) => PriorityLevel::High,
        Some(Payload::Mapping(_)) => PriorityLevel::Medium,
        Some(Payload::Status(_)) => PriorityLevel::Low,
        None => PriorityLevel::Low,
    }
}

/// The level whose rank is `r` (for `r` in 0..=3).
pub open spec fn level_of_rank(r: int) -> PriorityLevel {
    if r <= 0 {
        PriorityLevel::Low
    } else if r == 1 {
        PriorityLevel::Medium
    } else if r == 2 {
        PriorityLevel::High
    } else {
        PriorityLevel::Critical
    }
}


/// Levels and their wire numbers correspond one to one: decoding the number
/// of a level gives the level back, and the four numbers are 0 to 3.
pub proof fn lemma_level_code_roundtrip(l: PriorityLevel)
    ensures
        0 <= l.rank() <= 3,
        level_of_rank(l.rank()) == l,
{
}

/// Scheduling classes: a perception report is scheduled at the level whose
/// wire number is its threat (0 Low, 1 Medium, 2 High, 3 Critical), and at
/// Medium when its threat is no level's number; consensus votes and
/// navigation goals are High, map updates Medium, status reports and empty
/// frames Low.
pub proof fn lemma_priority_classes(frame: RingilFrame)
    ensures
        frame.payload matches Some(Payload::Perception(e)) ==> {
            &&& e.threat == 0 ==> spec_frame_priority(frame) == PriorityLevel::Low
            &&& e.threat == 1 ==> spec_frame_priority(frame) == PriorityLevel::Medium
            &&& e.threat == 2 ==> spec_frame_priority(frame) == PriorityLevel::High
            &&& e.threat == 3 ==> spec_frame_priority(frame) == PriorityLevel::Critical
            &&& !(0 <= e.threat <= 3) ==> spec_frame_priority(frame) == PriorityLevel::Medium
        },
        frame.payload matches Some(Payload::Consensus(_)) ==> spec_frame_priority(frame) == PriorityLevel::High,
        frame.payload matches Some(Payload::NavGoal(_)) ==> spec_frame_priority(frame) == PriorityLevel::High,
        frame.payload matches Some(Payload::Mapping(_)) ==> spec_frame_priority(frame) == PriorityLevel::Medium,
        frame.payload matches Some(Payload::Status(_)) ==> spec_frame_priority(frame) == PriorityLevel::Low,
        frame.payload is None ==> spec_frame_priority(frame) == PriorityLevel::Low,
{
}

/// Extracts the scheduling class of a frame.
pub fn frame_priority(frame: &RingilFrame) -> (r: PriorityLevel)
    ensures
        r == spec_frame_priority(*frame),
{
    match &frame.payload {
        Some(Payload::Perception(p)) => match PriorityLevel::from_i32(p.threat) {
            Some(level) => level,
            None => PriorityLevel::Medium,
        },
        Some(Payload::Consensus(_)) | Some(Payload::NavGoal(_)) => PriorityLevel::High,
        Some(Payload::Mapping(_)) => PriorityLevel::Medium,
        Some(Payload::Status(_)) | None => PriorityLevel::Low,
    }
}

} // verus!
