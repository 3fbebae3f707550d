//! The decisions of the perception pipeline and of the flight director that
//! consumes its events. The geometry (boxes in pixels, gains, velocities) is
//! real-valued and is computed by the caller; these functions decide which
//! events are emitted and which maneuver answers each one.
use vstd::prelude::*;
use crate::events::{spec_class_from, ObjectClass};
use crate::tracking::{is_fresh, STrack};

verus! {

/// An event the pipeline emits for a frame, referring to the reported
/// tracklets by position.
#[derive(Debug, Clone, Copy, PartialEq, Eq, Structural)]
pub enum PlannedEvent {
    /// Tracklet `track` (at position `track` in the report) is an obstacle
    /// of class `class`.
    Obstacle { track: usize, class: ObjectClass },
    /// Tracklet `track` is a person being followed.
    PersonTracked { track: usize },
    /// Tracklet `track` should get a re-identification embedding.
    IdentityJob { track: usize },
    /// The tracklet with this id was lost in this frame.
    TrackLost(u64),
}

/// The events for the tracklet at position `i`: it is always an obstacle of
/// its class; a person is also reported as tracked, and a person tracklet
/// started in this frame gets a re-identification job when that is enabled.
pub open spec fn events_for_track(t: STrack, i: usize, reid_enabled: bool) -> Seq<PlannedEvent> {
    let class = spec_class_from(t.class_id);
    let base = seq![PlannedEvent::Obstacle { track: i, class }];
    if class == ObjectClass::Person {
        if reid_enabled && is_fresh(t) {
            base + seq![PlannedEvent::PersonTracked { track: i }, PlannedEvent::IdentityJob { track: i }]
        } else {
            base + seq![PlannedEvent::PersonTracked { track: i }]
        }
    } else {
        base
    }
}

/// The events for the first `n` tracklets, in order.
pub open spec fn events_for_tracks(tracks: Seq<STrack>, n: nat, reid_enabled: bool) -> Seq<PlannedEvent>
    decreases n,
{
    if n == 0 {
        Seq::empty()
    } else {
        events_for_tracks(tracks, (n - 1) as nat, reid_enabled) + events_for_track(
            tracks[n - 1],
            (n - 1) as usize,
            reid_enabled,
        )
    }
}

/// A lost-track event per id, in order.
pub open spec fn lost_events(ids: Seq<u64>) -> Seq<PlannedEvent> {
    Seq::new(ids.len(), |k: int| PlannedEvent::TrackLost(ids[k]))
}

/// The events of one frame: those of every reported tracklet, in order,
/// then one per tracklet lost in the frame.
pub fn plan_events(tracks: &[STrack], lost_ids: &[u64], reid_enabled: bool) -> (r: Vec<PlannedEvent>)
    ensures
        r@ == events_for_tracks(tracks@, tracks@.len(), reid_enabled) + lost_events(lost_ids@),
{
    let mut events: Vec<PlannedEvent> = Vec::new();
    let mut i: usize = 0;
    while i < tracks.len()
        invariant
            i <= tracks@.len(),
            events@ == events_for_tracks(tracks@, i as nat, reid_enabled),
        decreases tracks@.len() - i,
    {
        let t = tracks[i];
        let class = ObjectClass::from(t.class_id);
        events.push(PlannedEvent::Obstacle { track: i, class });
        if class == ObjectClass::Person {
            events.push(PlannedEvent::PersonTracked { track: i });
            if reid_enabled && t.is_activated && t.start_frame == t.frame_id && t.tracklet_len == 0 {
                events.push(PlannedEvent::IdentityJob { track: i });
            }
        }
        i = i + 1;
        assert(events@ =~= events_for_tracks(tracks@, i as nat, reid_enabled));
    }
    let ghost base = events@;
    let mut k: usize = 0;
    while k < lost_ids.len()
        invariant
            k <= lost_ids@.len(),
            events@ == base + lost_events(lost_ids@.take(k as int)),
        decreases lost_ids@.len() - k,
    {
        events.push(PlannedEvent::TrackLost(lost_ids[k]));
        k = k + 1;
        assert(events@ =~= base + lost_events(lost_ids@.take(k as int)));
    }
    assert(lost_ids@.take(lost_ids@.len() as int) =~= lost_ids@);
    events
}


/// The position of the tracklet an event refers to (none for a lost id).
pub open spec fn event_track(e: PlannedEvent) -> int {
    match e {
        PlannedEvent::Obstacle { track, .. } => track as int,
        PlannedEvent::PersonTracked { track } => track as int,
        PlannedEvent::IdentityJob { track } => track as int,
        PlannedEvent::TrackLost(_) => -1,
    }
}

/// Every reported tracklet gives exactly one obstacle event, and a
/// re-identification job is planned for tracklet `i` exactly when the
/// switch is on and `i` is a person tracklet started in this frame.
pub proof fn lemma_identity_jobs(tracks: Seq<STrack>, n: nat, reid_enabled: bool)
    requires
        n <= tracks.len(),
        n <= usize::MAX,
    ensures
        forall|j: int| 0 <= j < events_for_tracks(tracks, n, reid_enabled).len() ==> 0 <= event_track(
            #[trigger] events_for_tracks(tracks, n, reid_enabled)[j],
        ) < n,
        forall|i: int| 0 <= i < n ==> (#[trigger] events_for_tracks(tracks, n, reid_enabled).contains(
            PlannedEvent::IdentityJob { track: i as usize },
        ) <==> (reid_enabled && spec_class_from(tracks[i].class_id) == ObjectClass::Person && is_fresh(tracks[i]))),
        forall|i: int| 0 <= i < n ==> events_for_tracks(tracks, n, reid_enabled).contains(
            PlannedEvent::Obstacle { track: i as usize, class: spec_class_from(#[trigger] tracks[i].class_id) },
        ),
    decreases n,
{
    if n > 0 {
        lemma_identity_jobs(tracks, (n - 1) as nat, reid_enabled);
        let prev = events_for_tracks(tracks, (n - 1) as nat, reid_enabled);
        let last = events_for_track(tracks[n - 1], (n - 1) as usize, reid_enabled);
        let all = events_for_tracks(tracks, n, reid_enabled);
        assert(all == prev + last);
        assert forall|j: int| 0 <= j < last.len() implies event_track(#[trigger] last[j]) == n - 1 by {}
        assert forall|j: int| 0 <= j < all.len() implies 0 <= event_track(#[trigger] all[j]) < n by {
            if j < prev.len() {
                assert(all[j] == prev[j]);
            } else {
                assert(all[j] == last[j - prev.len()]);
            }
        }
        assert forall|i: int| 0 <= i < n implies (#[trigger] all.contains(PlannedEvent::IdentityJob { track: i as usize })
            <==> (reid_enabled && spec_class_from(tracks[i].class_id) == ObjectClass::Person && is_fresh(tracks[i]))) by {
            let e = PlannedEvent::IdentityJob { track: i as usize };
            if i < n - 1 {
                if all.contains(e) {
                    let j = choose|j: int| 0 <= j < all.len() && all[j] == e;
                    if j >= prev.len() {
                        assert(all[j] == last[j - prev.len()]);
                        assert(event_track(last[j - prev.len()]) == n - 1);
                    } else {
                        assert(prev[j] == e);
                        assert(prev.contains(e));
                    }
                }
                if prev.contains(e) {
                    let j = choose|j: int| 0 <= j < prev.len() && prev[j] == e;
                    assert(all[j] == e);
                }
            } else {
                if all.contains(e) {
                    let j = choose|j: int| 0 <= j < all.len() && all[j] == e;
                    if j < prev.len() {
                        assert(all[j] == prev[j]);
                        assert(event_track(prev[j]) < n - 1);
                    } else {
                        assert(all[j] == last[j - prev.len()]);
                    }
                }
                if reid_enabled && spec_class_from(tracks[i].class_id) == ObjectClass::Person && is_fresh(tracks[i]) {
                    assert(all[prev.len() + 2int] == e);
                }
            }
        }
        assert forall|i: int| 0 <= i < n implies all.contains(
            PlannedEvent::Obstacle { track: i as usize, class: spec_class_from(#[trigger] tracks[i].class_id) },
        ) by {
            let e = PlannedEvent::Obstacle { track: i as usize, class: spec_class_from(tracks[i].class_id) };
            if i < n - 1 {
                let j = choose|j: int| 0 <= j < prev.len() && prev[j] == e;
                assert(all[j] == e);
            } else {
                assert(all[prev.len() as int] == last[0]);
            }
        }
    }
}

/// The kind of an event that reaches the flight director.
#[derive(Debug, Clone, Copy, PartialEq, Eq, Structural)]
pub enum EventKind {
    ObstacleDetected(ObjectClass),
    PersonTracked,
    PersonIdentityExtracted,
    TrackLost,
}

/// How the flight director answers an event.
#[derive(Debug, Clone, Copy, PartialEq, Eq, Structural)]
pub enum Maneuver {
    /// Repulse from a static obstacle.
    Avoid,
    /// Follow an identified person.
    Follow,
    /// Send no command.
    Hold,
}

/// Static obstacles (trees and buildings) are avoided, tracked persons are
/// followed, and every other event is ignored.
pub open spec fn spec_maneuver_for(kind: EventKind) -> Maneuver {
    match kind {
        EventKind::ObstacleDetected(c) => if c == ObjectClass::Tree || c == ObjectClass::Building {
            Maneuver::Avoid
        } else {
            Maneuver::Hold
        },
        EventKind::PersonTracked => Maneuver::Follow,
        _ => Maneuver::Hold,
    }
}

/// Routes an incoming perception event to the flight behavior that handles
/// it.
pub fn maneuver_for(kind: EventKind) -> (r: Maneuver)
    ensures
        r == spec_maneuver_for(kind),
{
    match kind {
        EventKind::ObstacleDetected(c) => {
            if c == ObjectClass::Tree || c == ObjectClass::Building {
                Maneuver::Avoid
            } else {
                Maneuver::Hold
            }
        },
        EventKind::PersonTracked => Maneuver::Follow,
        _ => Maneuver::Hold,
    }
}

/// How the flight director answers each event: an obstacle is avoided
/// exactly when it is a static one (a tree or a building) and otherwise only
/// held; a tracked person is followed; every other event is held.
pub proof fn lemma_maneuver_routing(c: ObjectClass)
    ensures
        spec_maneuver_for(EventKind::ObstacleDetected(c)) == Maneuver::Avoid <==> (c == ObjectClass::Tree || c
            == ObjectClass::Building),
        spec_maneuver_for(EventKind::ObstacleDetected(c)) != Maneuver::Avoid ==> spec_maneuver_for(
            EventKind::ObstacleDetected(c),
        ) == Maneuver::Hold,
        spec_maneuver_for(EventKind::PersonTracked) == Maneuver::Follow,
        spec_maneuver_for(EventKind::PersonIdentityExtracted) == Maneuver::Hold,
        spec_maneuver_for(EventKind::TrackLost) == Maneuver::Hold,
{
}

} // verus!
