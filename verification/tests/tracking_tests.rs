use ringil::tracking::{associate, ByteTrack, Candidate, STrack, TrackState};
use ringil::pipeline::{plan_events, PlannedEvent};

fn c(key: u32, track: usize, det: usize) -> Candidate {
    Candidate { key, track, det }
}

#[test]
fn strack_lifecycle() {
    let mut t = STrack::new(3);
    assert_eq!(t.state, TrackState::New);
    assert!(!t.is_activated);
    t.activate(5, 42);
    assert_eq!((t.track_id, t.state, t.is_activated, t.start_frame, t.frame_id, t.tracklet_len), (42, TrackState::Active, true, 5, 5, 0));
    t.mark_lost();
    assert_eq!(t.state, TrackState::Lost);
    let u = t.update(7);
    assert_eq!(u, t);
    assert_eq!((t.state, t.frame_id, t.tracklet_len, t.class_id), (TrackState::Active, 7, 1, 3));
}

#[test]
fn greedy_association_takes_cheapest_first() {
    // Track 0 is closest to det 1; track 1 then takes det 0.
    let cands = vec![c(50, 0, 0), c(10, 0, 1), c(20, 1, 1), c(40, 1, 0)];
    let a = associate(3, 3, &cands);
    assert_eq!(a.matches, vec![c(10, 0, 1), c(40, 1, 0)]);
    assert_eq!(a.unmatched_tracks, vec![2]);
    assert_eq!(a.unmatched_dets, vec![2]);
    // Ties are broken by track, then detection.
    let a = associate(2, 1, &[c(5, 1, 0), c(5, 0, 0)]);
    assert_eq!(a.matches, vec![c(5, 0, 0)]);
    let empty = associate(0, 2, &[]);
    assert!(empty.matches.is_empty());
    assert_eq!(empty.unmatched_dets, vec![0, 1]);
}

#[test]
fn tracker_spawns_matches_loses_and_evicts() {
    let mut bt = ByteTrack::new(2);
    // Frame 1: two high-score detections, nothing to match: two new tracks.
    let r = bt.update(&[0, 2], 0, &[], &[]);
    assert_eq!(r.spawned, vec![0, 1]);
    let ids: Vec<u64> = r.active.iter().map(|t| t.track_id).collect();
    assert_eq!(ids, vec![1, 2]);
    assert!(r.active.iter().all(|t| t.state == TrackState::Active && t.frame_id == 1));
    // Frame 2: track at pool 1 matches the only high detection; pool 0
    // matches a low detection in the second stage.
    let r = bt.update(&[2], 1, &[c(3, 1, 0)], &[c(9, 0, 0), c(1, 1, 0)]);
    assert_eq!(r.matches_high, vec![c(3, 1, 0)]);
    assert_eq!(r.matches_low, vec![c(9, 0, 0)]);
    let ids: Vec<u64> = r.active.iter().map(|t| t.track_id).collect();
    assert_eq!(ids, vec![2, 1]);
    assert!(bt.get_lost_track_ids().is_empty());
    // Frame 3: nothing detected: both tracks are lost.
    let r = bt.update(&[], 0, &[], &[]);
    assert!(r.active.is_empty());
    assert_eq!(bt.lost_stracks().len(), 2);
    let mut lost = bt.get_lost_track_ids();
    lost.sort();
    assert_eq!(lost, vec![1, 2]);
    // Frames 4 and 5: still nothing; lost ids are only reported once, and
    // after the buffer the tracks are dropped.
    bt.update(&[], 0, &[], &[]);
    assert!(bt.get_lost_track_ids().is_empty());
    assert_eq!(bt.lost_stracks().len(), 2);
    bt.update(&[], 0, &[], &[]);
    assert_eq!(bt.lost_stracks().len(), 0);
    // Frame 6: a new detection gets the next fresh id.
    let r = bt.update(&[4], 0, &[], &[]);
    assert_eq!(r.active[0].track_id, 3);
}

#[test]
fn lost_track_is_recovered_by_a_high_match() {
    let mut bt = ByteTrack::new(30);
    bt.update(&[1], 0, &[], &[]);
    bt.update(&[], 0, &[], &[]);
    assert_eq!(bt.lost_stracks().len(), 1);
    let r = bt.update(&[1], 0, &[c(0, 0, 0)], &[]);
    assert_eq!(r.active.len(), 1);
    assert_eq!(r.active[0].track_id, 1);
    assert_eq!(r.active[0].tracklet_len, 1);
    assert!(bt.lost_stracks().is_empty());
    assert_eq!(bt.tracked_stracks().len(), 1);
}

#[test]
fn new_person_tracklets_get_identity_jobs() {
    let mut bt = ByteTrack::new(30);
    // Frame 1: two persons and a car start new tracklets.
    let r = bt.update(&[0, 0, 5], 0, &[], &[]);
    let events = plan_events(&r.active, &bt.get_lost_track_ids(), true);
    assert_eq!(events.iter().filter(|e| matches!(e, PlannedEvent::Obstacle { .. })).count(), 3);
    assert_eq!(events.iter().filter(|e| matches!(e, PlannedEvent::PersonTracked { .. })).count(), 2);
    let jobs: Vec<&PlannedEvent> = events.iter().filter(|e| matches!(e, PlannedEvent::IdentityJob { .. })).collect();
    assert_eq!(jobs, vec![&PlannedEvent::IdentityJob { track: 0 }, &PlannedEvent::IdentityJob { track: 1 }]);
    // With extraction switched off, no job is planned.
    let off = plan_events(&r.active, &[], false);
    assert!(!off.iter().any(|e| matches!(e, PlannedEvent::IdentityJob { .. })));
    // Frame 2: the same persons are matched again; they are no longer new.
    let r = bt.update(&[0, 0], 0, &[c(0, 0, 0), c(0, 1, 1)], &[]);
    assert_eq!(r.active.len(), 2);
    let events = plan_events(&r.active, &bt.get_lost_track_ids(), true);
    assert!(!events.iter().any(|e| matches!(e, PlannedEvent::IdentityJob { .. })));
}

#[test]
fn fresh_ids_are_consecutive_and_never_reused() {
    let mut bt = ByteTrack::new(1);
    assert_eq!(bt.next_id(), 1);
    let r = bt.update(&[1, 1], 0, &[], &[]);
    let ids: Vec<u64> = r.active.iter().map(|t| t.track_id).collect();
    assert_eq!(ids, vec![1, 2]);
    // Both tracklets are lost, then dropped after the buffer.
    bt.update(&[], 0, &[], &[]);
    bt.update(&[], 0, &[], &[]);
    bt.update(&[], 0, &[], &[]);
    assert!(bt.lost_stracks().is_empty());
    assert_eq!(bt.frames_processed(), 4);
    // New tracklets get the ids that follow, not the dropped ones.
    let r = bt.update(&[1, 1, 1], 0, &[], &[]);
    let ids: Vec<u64> = r.active.iter().map(|t| t.track_id).collect();
    assert_eq!(ids, vec![3, 4, 5]);
    assert_eq!(bt.next_id(), 6);
}

#[test]
fn lost_ids_are_previous_report_minus_current() {
    let mut bt = ByteTrack::new(30);
    bt.update(&[0], 0, &[], &[]);
    bt.update(&[], 0, &[], &[]);
    assert_eq!(bt.get_lost_track_ids(), vec![1]);
    // Three tracklets reported; only the middle one is seen again.
    let mut bt = ByteTrack::new(30);
    let r = bt.update(&[0, 0, 0], 0, &[], &[]);
    assert_eq!(r.active.len(), 3);
    let r = bt.update(&[0], 0, &[c(0, 1, 0)], &[]);
    let ids: Vec<u64> = r.active.iter().map(|t| t.track_id).collect();
    assert_eq!(ids, vec![2]);
    let mut lost = bt.get_lost_track_ids();
    lost.sort();
    assert_eq!(lost, vec![1, 3]);
}

#[test]
fn greedy_matching_is_one_to_one_and_maximal() {
    let cands = vec![c(1, 0, 0), c(2, 0, 1), c(3, 1, 0), c(4, 1, 1), c(5, 2, 1)];
    let a = associate(3, 2, &cands);
    assert_eq!(a.matches, vec![c(1, 0, 0), c(4, 1, 1)]);
    assert_eq!(a.unmatched_tracks, vec![2]);
    assert!(a.unmatched_dets.is_empty());
    let again = associate(3, 2, &cands);
    assert_eq!(again.matches, a.matches);
}
