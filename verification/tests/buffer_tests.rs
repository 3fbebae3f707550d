use ringil::buffer::PriorityFrameBuffer;
use ringil::frame::{
    frame_priority, ConsensusNode, GeoPoint, MappingUpdate, Payload, PerceptionEvent, PriorityLevel, RingilFrame,
    UnitStatus,
};

fn frame(id: u32, payload: Option<Payload>) -> RingilFrame {
    RingilFrame { source_node_id: id, timestamp_us: 0, hop_limit: 3, payload }
}

fn perception(id: u32, threat: i32) -> RingilFrame {
    frame(id, Some(Payload::Perception(PerceptionEvent { threat })))
}

#[test]
fn priority_of_each_payload() {
    assert_eq!(frame_priority(&perception(1, 3)), PriorityLevel::Critical);
    assert_eq!(frame_priority(&perception(1, 0)), PriorityLevel::Low);
    assert_eq!(frame_priority(&perception(1, 2)), PriorityLevel::High);
    assert_eq!(frame_priority(&perception(1, 7)), PriorityLevel::Medium);
    assert_eq!(frame_priority(&perception(1, -1)), PriorityLevel::Medium);
    assert_eq!(frame_priority(&frame(1, Some(Payload::Consensus(ConsensusNode {})))), PriorityLevel::High);
    assert_eq!(frame_priority(&frame(1, Some(Payload::NavGoal(GeoPoint {})))), PriorityLevel::High);
    assert_eq!(frame_priority(&frame(1, Some(Payload::Mapping(MappingUpdate {})))), PriorityLevel::Medium);
    assert_eq!(frame_priority(&frame(1, Some(Payload::Status(UnitStatus {})))), PriorityLevel::Low);
    assert_eq!(frame_priority(&frame(1, None)), PriorityLevel::Low);
}

#[test]
fn priority_level_codes() {
    assert_eq!(PriorityLevel::from_i32(3), Some(PriorityLevel::Critical));
    assert_eq!(PriorityLevel::from_i32(4), None);
    assert_eq!(PriorityLevel::High.as_i32(), 2);
    assert!(PriorityLevel::Critical.at_least(PriorityLevel::High));
    assert!(!PriorityLevel::Low.at_least(PriorityLevel::Medium));
}

#[test]
fn pops_in_strict_priority_then_fifo() {
    let mut b = PriorityFrameBuffer::new(10);
    assert!(b.is_empty());
    b.push(frame(1, None));
    b.push(perception(2, 3));
    b.push(frame(3, Some(Payload::Mapping(MappingUpdate {}))));
    b.push(perception(4, 3));
    b.push(frame(5, Some(Payload::Consensus(ConsensusNode {}))));
    assert!(!b.is_empty());
    let order: Vec<u32> = (0..5).map(|_| b.pop().unwrap().source_node_id).collect();
    assert_eq!(order, vec![2, 4, 5, 3, 1]);
    assert!(b.pop().is_none());
    assert!(b.is_empty());
}

#[test]
fn full_buffer_evicts_oldest_low_first() {
    let mut b = PriorityFrameBuffer::new(2);
    b.push(frame(1, None));
    b.push(frame(2, None));
    b.push(frame(3, Some(Payload::Mapping(MappingUpdate {}))));
    assert_eq!(b.pop().unwrap().source_node_id, 3);
    assert_eq!(b.pop().unwrap().source_node_id, 2);
    assert!(b.pop().is_none());
}

#[test]
fn full_buffer_evicts_medium_only_for_urgent_frames() {
    let mut b = PriorityFrameBuffer::new(1);
    b.push(frame(1, Some(Payload::Mapping(MappingUpdate {}))));
    // A Medium frame finds no lower frame to evict and is dropped.
    b.push(frame(2, Some(Payload::Mapping(MappingUpdate {}))));
    assert_eq!(b.pop().unwrap().source_node_id, 1);
    assert!(b.is_empty());
    b.push(frame(3, Some(Payload::Mapping(MappingUpdate {}))));
    // A High frame evicts the Medium one.
    b.push(frame(4, Some(Payload::NavGoal(GeoPoint {}))));
    assert_eq!(b.pop().unwrap().source_node_id, 4);
    assert!(b.pop().is_none());
}

#[test]
fn saturated_buffer_replaces_oldest_of_same_level() {
    let mut b = PriorityFrameBuffer::new(2);
    b.push(perception(1, 3));
    b.push(perception(2, 3));
    b.push(perception(3, 3));
    assert_eq!(b.pop().unwrap().source_node_id, 2);
    assert_eq!(b.pop().unwrap().source_node_id, 3);
    assert!(b.is_empty());
}

#[test]
fn saturated_buffer_refuses_frame_without_own_level() {
    // Full of a Critical frame; a High frame finds nothing of its own level
    // (or lower) to replace and is refused.
    let mut b = PriorityFrameBuffer::new(1);
    b.push(perception(1, 3));
    b.push(frame(2, Some(Payload::Consensus(ConsensusNode {}))));
    assert_eq!(b.pop().unwrap().source_node_id, 1);
    assert!(b.is_empty());
    assert!(b.pop().is_none());
    // And the reverse: a Critical frame does not replace a High one.
    b.push(frame(3, Some(Payload::NavGoal(GeoPoint {}))));
    b.push(perception(4, 3));
    assert_eq!(b.pop().unwrap().source_node_id, 3);
    assert!(b.pop().is_none());
}

#[test]
fn same_level_frames_round_trip_in_order() {
    let mut b = PriorityFrameBuffer::new(5);
    for id in 1..=5 {
        b.push(frame(id, Some(Payload::Mapping(MappingUpdate {}))));
    }
    let order: Vec<u32> = (0..5).map(|_| b.pop().unwrap().source_node_id).collect();
    assert_eq!(order, vec![1, 2, 3, 4, 5]);
    assert!(b.pop().is_none());
    assert!(b.is_empty());
}

#[test]
fn zero_capacity_buffer_refuses_everything() {
    let mut b = PriorityFrameBuffer::new(0);
    b.push(perception(1, 3));
    b.push(frame(2, None));
    assert!(b.is_empty());
    assert!(b.pop().is_none());
}
