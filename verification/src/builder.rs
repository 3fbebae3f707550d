//! Fluent construction of swarm frames.
use vstd::prelude::*;
use std::time::{Duration, SystemTime, UNIX_EPOCH};
use crate::frame::{ConsensusNode, GeoPoint, MappingUpdate, Payload, PerceptionEvent, RingilFrame, UnitStatus};

verus! {

#[verifier::external_type_specification]
#[verifier::external_body]
pub struct ExSystemTime(SystemTime);

/// Calls `SystemTime::now`. Nothing is claimed of the result, which is the
/// time.
#[verifier::external_body]
fn system_now() -> (r: SystemTime) {
    SystemTime::now()
}

/// Calls `SystemTime::duration_since` with `UNIX_EPOCH`; `None` stands for
/// its error (a time before the epoch). Nothing is claimed of the result.
#[verifier::external_body]
fn since_unix_epoch(t: &SystemTime) -> (r: Option<Duration>) {
    t.duration_since(UNIX_EPOCH).ok()
}

/// Calls `Duration::as_micros`. Nothing is claimed of the result.
#[verifier::external_body]
fn duration_micros(d: &Duration) -> (r: u128) {
    d.as_micros()
}

/// Microseconds since the Unix epoch (zero for a clock set before it),
/// truncated to 64 bits.
fn now_unix_micros() -> u64 {
    let now = system_now();
    match since_unix_epoch(&now) {
        Some(d) => duration_micros(&d) as u64,
        None => 0,
    }
}

/// Hop limit of a fresh frame.
pub const DEFAULT_HOP_LIMIT: u32 = 3;

/// Builds a [`RingilFrame`] step by step.
pub struct FrameBuilder {
    frame: RingilFrame,
}

impl View for FrameBuilder {
    type V = RingilFrame;

    closed spec fn view(&self) -> RingilFrame {
        self.frame
    }
}

impl FrameBuilder {
    /// Initializes a new [`FrameBuilder`] for frames from `source_node_id`,
    /// stamped with the current time.
    pub fn new(source_node_id: u32) -> (r: Self)
        ensures
            r@.source_node_id == source_node_id,
            r@.hop_limit == DEFAULT_HOP_LIMIT,
            r@.payload is None,
    {
        let timestamp_us = now_unix_micros();
        Self::stamped(source_node_id, timestamp_us)
    }

    /// A builder for frames from `source_node_id` stamped `timestamp_us`,
    /// with the default hop limit and no payload.
    pub fn stamped(source_node_id: u32, timestamp_us: u64) -> (r: Self)
        ensures
            r@ == (RingilFrame { source_node_id, timestamp_us, hop_limit: DEFAULT_HOP_LIMIT, payload: None }),
    {
        FrameBuilder { frame: RingilFrame { source_node_id, timestamp_us, hop_limit: DEFAULT_HOP_LIMIT, payload: None } }
    }

    pub fn with_hop_limit(self, limit: u32) -> (r: Self)
        ensures
            r@ == (RingilFrame { hop_limit: limit, ..self@ }),
    {
        let mut b = self;
        b.frame.hop_limit = limit;
        b
    }

    pub fn perception(self, event: PerceptionEvent) -> (r: Self)
        ensures
            r@ == (RingilFrame { payload: Some(Payload::Perception(event)), ..self@ }),
    {
        let mut b = self;
        b.frame.payload = Some(Payload::Perception(event));
        b
    }

    pub fn mapping(self, update: MappingUpdate) -> (r: Self)
        ensures
            r@ == (RingilFrame { payload: Some(Payload::Mapping(update)), ..self@ }),
    {
        let mut b = self;
        b.frame.payload = Some(Payload::Mapping(update));
        b
    }

    pub fn consensus(self, node: ConsensusNode) -> (r: Self)
        ensures
            r@ == (RingilFrame { payload: Some(Payload::Consensus(node)), ..self@ }),
    {
        let mut b = self;
        b.frame.payload = Some(Payload::Consensus(node));
        b
    }

    pub fn status(self, status: UnitStatus) -> (r: Self)
        ensures
            r@ == (RingilFrame { payload: Some(Payload::Status(status)), ..self@ }),
    {
        let mut b = self;
        b.frame.payload = Some(Payload::Status(status));
        b
    }

    pub fn nav_goal(self, goal: GeoPoint) -> (r: Self)
        ensures
            r@ == (RingilFrame { payload: Some(Payload::NavGoal(goal)), ..self@ }),
    {
        let mut b = self;
        b.frame.payload = Some(Payload::NavGoal(goal));
        b
    }

    pub fn build(self) -> (r: RingilFrame)
        ensures
            r == self@,
    {
        self.frame
    }
}

} // verus!
