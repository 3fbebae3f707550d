use ringil::events::ObjectClass;
use ringil::pipeline::{maneuver_for, plan_events, EventKind, Maneuver, PlannedEvent};
use ringil::tracking::{STrack, TrackState};

#[test]
fn class_codes_decode() {
    assert_eq!(ObjectClass::from(0), ObjectClass::Person);
    assert_eq!(ObjectClass::from(15), ObjectClass::Tree);
    assert_eq!(ObjectClass::from(16), ObjectClass::Building);
    assert_eq!(ObjectClass::from(34), ObjectClass::TrashCan);
    assert_eq!(ObjectClass::from(8), ObjectClass::Unknown);
    assert_eq!(ObjectClass::from(-1), ObjectClass::Unknown);
    assert_eq!(ObjectClass::from(255), ObjectClass::Unknown);
}

#[test]
fn class_code_roundtrip() {
    let all = [
        ObjectClass::Person, ObjectClass::Bicycle, ObjectClass::Car, ObjectClass::Motorcycle, ObjectClass::Bus,
        ObjectClass::Truck, ObjectClass::Train, ObjectClass::Animal, ObjectClass::TrafficLight,
        ObjectClass::FireHydrant, ObjectClass::StopSign, ObjectClass::ParkingMeter, ObjectClass::Bench,
        ObjectClass::Tree, ObjectClass::Building, ObjectClass::Fence, ObjectClass::Pole, ObjectClass::PowerLine,
        ObjectClass::TrafficSign, ObjectClass::Wall, ObjectClass::Backpack, ObjectClass::Umbrella,
        ObjectClass::Handbag, ObjectClass::Suitcase, ObjectClass::TrashCan, ObjectClass::Unknown,
    ];
    for c in all {
        assert_eq!(ObjectClass::from(c.code() as i64), c);
    }
    assert_eq!(ObjectClass::Wall.code(), 23);
    assert_eq!(ObjectClass::Unknown.code(), 255);
}

#[test]
fn maneuvers_per_event() {
    assert_eq!(maneuver_for(EventKind::ObstacleDetected(ObjectClass::Tree)), Maneuver::Avoid);
    assert_eq!(maneuver_for(EventKind::ObstacleDetected(ObjectClass::Building)), Maneuver::Avoid);
    assert_eq!(maneuver_for(EventKind::ObstacleDetected(ObjectClass::Car)), Maneuver::Hold);
    assert_eq!(maneuver_for(EventKind::PersonTracked), Maneuver::Follow);
    assert_eq!(maneuver_for(EventKind::PersonIdentityExtracted), Maneuver::Hold);
    assert_eq!(maneuver_for(EventKind::TrackLost), Maneuver::Hold);
}

/// A reported tracklet; a fresh one was started in frame 4, the others in
/// frame 1 and updated three times since.
fn track(class_id: i64, fresh: bool) -> STrack {
    let (start_frame, tracklet_len) = if fresh { (4, 0) } else { (1, 3) };
    STrack { class_id, track_id: 1, state: TrackState::Active, is_activated: true, tracklet_len, start_frame, frame_id: 4 }
}

#[test]
fn planned_events_of_a_frame() {
    let tracks = vec![track(2, true), track(0, false), track(0, true)];
    let events = plan_events(&tracks, &[9, 11], true);
    assert_eq!(
        events,
        vec![
            PlannedEvent::Obstacle { track: 0, class: ObjectClass::Car },
            PlannedEvent::Obstacle { track: 1, class: ObjectClass::Person },
            PlannedEvent::PersonTracked { track: 1 },
            PlannedEvent::Obstacle { track: 2, class: ObjectClass::Person },
            PlannedEvent::PersonTracked { track: 2 },
            PlannedEvent::IdentityJob { track: 2 },
            PlannedEvent::TrackLost(9),
            PlannedEvent::TrackLost(11),
        ]
    );
    let no_reid = plan_events(&tracks[2..], &[], false);
    assert_eq!(no_reid, vec![PlannedEvent::Obstacle { track: 0, class: ObjectClass::Person }, PlannedEvent::PersonTracked { track: 0 }]);
}
