use ringil::builder::FrameBuilder;
use ringil::frame::{GeoPoint, MappingUpdate, Payload, PerceptionEvent, RingilFrame, UnitStatus};

#[test]
fn stamped_builder_defaults() {
    let f = FrameBuilder::stamped(9, 1234).build();
    assert_eq!(f, RingilFrame { source_node_id: 9, timestamp_us: 1234, hop_limit: 3, payload: None });
}

#[test]
fn builder_sets_fields_and_last_payload_wins() {
    let f = FrameBuilder::stamped(1, 5)
        .with_hop_limit(7)
        .mapping(MappingUpdate {})
        .perception(PerceptionEvent { threat: 2 })
        .build();
    assert_eq!(f.hop_limit, 7);
    assert_eq!(f.payload, Some(Payload::Perception(PerceptionEvent { threat: 2 })));
    let g = FrameBuilder::stamped(1, 5).status(UnitStatus {}).nav_goal(GeoPoint {}).build();
    assert_eq!(g.payload, Some(Payload::NavGoal(GeoPoint {})));
}

#[test]
fn new_builder_is_stamped_now() {
    let f = FrameBuilder::new(4).build();
    assert_eq!(f.source_node_id, 4);
    assert_eq!(f.hop_limit, 3);
    assert!(f.payload.is_none());
    assert!(f.timestamp_us > 1_600_000_000_000_000);
}
