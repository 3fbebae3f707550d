//! ByteTrack multi-object tracking: the tracklet lifecycle, greedy IoU
//! association, and the two-stage matching of each frame.
//!
//! The kinematics of a tracklet (its box and Kalman statistics) are real
//! numbers and are kept by the caller, parallel to the bookkeeping here; what
//! this module decides from them arrives as association candidates whose
//! costs are ordered by an integer key.
use vstd::prelude::*;

verus! {

/// Lifecycle states of a tracklet.
#[derive(Debug, Clone, Copy, PartialEq, Eq, Structural)]
pub enum TrackState {
    New,
    Active,
    Lost,
    Removed,
}

/// The bookkeeping of one tracklet.
#[derive(Debug, Clone, Copy, PartialEq, Eq, Structural)]
pub struct STrack {
    pub class_id: i64,
    pub track_id: u64,
    pub state: TrackState,
    pub is_activated: bool,
    pub tracklet_len: usize,
    pub start_frame: usize,
    pub frame_id: usize,
}

/// `t` after being matched with a detection in frame `frame_id`.
pub open spec fn spec_updated(t: STrack, frame_id: usize) -> STrack {
    STrack {
        frame_id,
        tracklet_len: (t.tracklet_len + 1) as usize,
        state: TrackState::Active,
        is_activated: true,
        ..t
    }
}

/// `t` activated as track `track_id` in frame `frame_id`.
pub open spec fn spec_activated(t: STrack, frame_id: usize, track_id: u64) -> STrack {
    STrack {
        track_id,
        state: TrackState::Active,
        is_activated: true,
        frame_id,
        start_frame: frame_id,
        tracklet_len: 0,
        ..t
    }
}

/// `t` was started in its last frame: activated, its first frame is its
/// last one, and no detection has been matched to it since.
pub open spec fn is_fresh(t: STrack) -> bool {
    t.is_activated && t.start_frame == t.frame_id && t.tracklet_len == 0
}

/// A fresh, inactive tracklet of class `class_id`.
pub open spec fn spec_new_track(class_id: i64) -> STrack {
    STrack {
        class_id,
        track_id: 0,
        state: TrackState::New,
        is_activated: false,
        tracklet_len: 0,
        start_frame: 0,
        frame_id: 0,
    }
}

impl STrack {
    /// Create a new [`STrack`] for a detection of class `class_id`.
    pub fn new(class_id: i64) -> (r: Self)
        ensures
            r == spec_new_track(class_id),
    {
        STrack {
            class_id,
            track_id: 0,
            state: TrackState::New,
            is_activated: false,
            tracklet_len: 0,
            start_frame: 0,
            frame_id: 0,
        }
    }

    /// Update the tracklet with a matched detection in frame `frame_id`;
    /// returns a copy of the updated tracklet.
    pub fn update(&mut self, frame_id: usize) -> (r: STrack)
        requires
            old(self).tracklet_len < usize::MAX,
        ensures
            *final(self) == spec_updated(*old(self), frame_id),
            r == *final(self),
    {
        self.frame_id = frame_id;
        self.tracklet_len = self.tracklet_len + 1;
        self.state = TrackState::Active;
        self.is_activated = true;
        *self
    }

    /// Activate a new tracklet as `track_id` in frame `frame_id`.
    pub fn activate(&mut self, frame_id: usize, track_id: u64)
        ensures
            *final(self) == spec_activated(*old(self), frame_id, track_id),
    {
        self.track_id = track_id;
        self.state = TrackState::Active;
        self.is_activated = true;
        self.frame_id = frame_id;
        self.start_frame = frame_id;
        self.tracklet_len = 0;
    }

    pub fn mark_lost(&mut self)
        ensures
            *final(self) == (STrack { state: TrackState::Lost, ..*old(self) }),
    {
        self.state = TrackState::Lost;
    }
}

/// A possible pairing of track `track` with detection `det`, whose matching
/// cost is ordered by `key` (lower is better; for non-negative costs the bit
/// pattern of the float orders as the float does).
#[derive(Debug, Clone, Copy, PartialEq, Eq, Structural)]
pub struct Candidate {
    pub key: u32,
    pub track: usize,
    pub det: usize,
}

/// `a` comes no later than `b`: by key, then by track, then by detection.
pub open spec fn cand_le(a: Candidate, b: Candidate) -> bool {
    a.key < b.key || (a.key == b.key && (a.track < b.track || (a.track == b.track && a.det <= b.det)))
}

/// Neither the track nor the detection of `c` is used by a match of `m`.
pub open spec fn free_in(c: Candidate, m: Seq<Candidate>) -> bool {
    forall|k: int| 0 <= k < m.len() ==> (#[trigger] m[k]).track != c.track && m[k].det != c.det
}

/// `c` is the first, in candidate order, of the candidates whose track and
/// detection are both still free after the matches `m`.
pub open spec fn is_min_free(cands: Seq<Candidate>, m: Seq<Candidate>, c: Candidate) -> bool {
    &&& cands.contains(c)
    &&& free_in(c, m)
    &&& forall|e: Candidate| #[trigger] cands.contains(e) && free_in(e, m) ==> cand_le(c, e)
}

/// `m` is the greedy matching of `cands`: its k-th match is the cheapest
/// candidate whose track and detection are free after the first k matches,
/// and once it ends no candidate has both ends free.
pub open spec fn is_greedy_matching(cands: Seq<Candidate>, m: Seq<Candidate>) -> bool {
    &&& forall|k: int| 0 <= k < m.len() ==> is_min_free(cands, m.take(k), #[trigger] m[k])
    &&& forall|c: Candidate| #[trigger] cands.contains(c) ==> !free_in(c, m)
}

/// Track `t` is used by a match of `m`.
pub open spec fn track_used(m: Seq<Candidate>, t: int) -> bool {
    exists|k: int| 0 <= k < m.len() && (#[trigger] m[k]).track == t
}

/// Detection `d` is used by a match of `m`.
pub open spec fn det_used(m: Seq<Candidate>, d: int) -> bool {
    exists|k: int| 0 <= k < m.len() && (#[trigger] m[k]).det == d
}

/// The indices below `n` that satisfy `p`, in increasing order.
pub open spec fn indices_where(n: nat, p: spec_fn(int) -> bool) -> Seq<usize>
    decreases n,
{
    if n == 0 {
        Seq::empty()
    } else if p(n - 1) {
        indices_where((n - 1) as nat, p).push((n - 1) as usize)
    } else {
        indices_where((n - 1) as nat, p)
    }
}

/// Every candidate refers to a track below `n_tracks` and a detection below
/// `n_dets`.
pub open spec fn cands_in_range(cands: Seq<Candidate>, n_tracks: nat, n_dets: nat) -> bool {
    forall|i: int| 0 <= i < cands.len() ==> (#[trigger] cands[i]).track < n_tracks && cands[i].det < n_dets
}

/// The outcome of associating tracks with detections.
pub struct Association {
    pub matches: Vec<Candidate>,
    pub unmatched_dets: Vec<usize>,
    pub unmatched_tracks: Vec<usize>,
}

/// Lists the indices below `n` that `used` does not mark, in increasing
/// order.
fn unused_indices(used: &Vec<bool>, Ghost(p): Ghost<spec_fn(int) -> bool>) -> (r: Vec<usize>)
    requires
        forall|i: int| 0 <= i < used@.len() ==> (used@[i] <==> !p(i)),
    ensures
        r@ == indices_where(used@.len(), p),
{
    let mut r: Vec<usize> = Vec::new();
    let mut i: usize = 0;
    while i < used.len()
        invariant
            i <= used@.len(),
            forall|j: int| 0 <= j < used@.len() ==> (used@[j] <==> !p(j)),
            r@ == indices_where(i as nat, p),
        decreases used@.len() - i,
    {
        if !used[i] {
            r.push(i);
        }
        i = i + 1;
    }
    r
}

/// Fast greedy assignment: repeatedly match the cheapest candidate whose
/// track and detection are both still free.
pub fn associate(n_tracks: usize, n_dets: usize, cands: &[Candidate]) -> (r: Association)
    requires
        cands_in_range(cands@, n_tracks as nat, n_dets as nat),
    ensures
        is_greedy_matching(cands@, r.matches@),
        r.unmatched_tracks@ == indices_where(n_tracks as nat, |t: int| !track_used(r.matches@, t)),
        r.unmatched_dets@ == indices_where(n_dets as nat, |d: int| !det_used(r.matches@, d)),
{
    let mut t_used: Vec<bool> = Vec::new();
    let mut i: usize = 0;
    while i < n_tracks
        invariant
            i <= n_tracks,
            t_used@.len() == i,
            forall|j: int| 0 <= j < i ==> !t_used@[j],
        decreases n_tracks - i,
    {
        t_used.push(false);
        i = i + 1;
    }
    let mut d_used: Vec<bool> = Vec::new();
    let mut i: usize = 0;
    while i < n_dets
        invariant
            i <= n_dets,
            d_used@.len() == i,
            forall|j: int| 0 <= j < i ==> !d_used@[j],
        decreases n_dets - i,
    {
        d_used.push(false);
        i = i + 1;
    }
    let mut matches: Vec<Candidate> = Vec::new();
    loop
        invariant
            cands_in_range(cands@, n_tracks as nat, n_dets as nat),
            t_used@.len() == n_tracks,
            d_used@.len() == n_dets,
            matches@.len() <= n_tracks,
            forall|t: int| 0 <= t < n_tracks ==> (t_used@[t] <==> track_used(matches@, t)),
            forall|d: int| 0 <= d < n_dets ==> (d_used@[d] <==> det_used(matches@, d)),
            forall|k: int| 0 <= k < matches@.len() ==> (#[trigger] matches@[k]).track < n_tracks,
            forall|k: int| 0 <= k < matches@.len() ==> is_min_free(cands@, matches@.take(k), #[trigger] matches@[k]),
            forall|k1: int, k2: int| 0 <= k1 < k2 < matches@.len() ==> (#[trigger] matches@[k1]).track != (#[trigger] matches@[k2]).track,
        ensures
            is_greedy_matching(cands@, matches@),
            forall|t: int| 0 <= t < n_tracks ==> (t_used@[t] <==> track_used(matches@, t)),
            forall|d: int| 0 <= d < n_dets ==> (d_used@[d] <==> det_used(matches@, d)),
        decreases n_tracks - matches@.len(),
    {
        let mut best: usize = cands.len();
        let mut i: usize = 0;
        while i < cands.len()
            invariant
                cands_in_range(cands@, n_tracks as nat, n_dets as nat),
                t_used@.len() == n_tracks,
                d_used@.len() == n_dets,
                forall|t: int| 0 <= t < n_tracks ==> (t_used@[t] <==> track_used(matches@, t)),
                forall|d: int| 0 <= d < n_dets ==> (d_used@[d] <==> det_used(matches@, d)),
                i <= cands@.len(),
                best == cands@.len() || (best < i && free_in(cands@[best as int], matches@)),
                best == cands@.len() ==> forall|j: int| 0 <= j < i ==> !free_in(#[trigger] cands@[j], matches@),
                best < cands@.len() ==> forall|j: int| 0 <= j < i && free_in(#[trigger] cands@[j], matches@) ==> cand_le(cands@[best as int], cands@[j]),
            decreases cands@.len() - i,
        {
            let c = cands[i];
            proof {
                assert(cands@[i as int] == c);
                if free_in(c, matches@) {
                    assert(!track_used(matches@, c.track as int));
                    assert(!det_used(matches@, c.det as int));
                }
                if !free_in(c, matches@) {
                    let k = choose|k: int| 0 <= k < matches@.len() && !((#[trigger] matches@[k]).track != c.track && matches@[k].det != c.det);
                    if matches@[k].track == c.track {
                        assert(track_used(matches@, c.track as int));
                    } else {
                        assert(det_used(matches@, c.det as int));
                    }
                }
            }
            if !t_used[c.track] && !d_used[c.det] {
                if best == cands.len() {
                    best = i;
                } else {
                    let b = cands[best];
                    if c.key < b.key || (c.key == b.key && (c.track < b.track || (c.track == b.track && c.det < b.det))) {
                        best = i;
                    }
                }
            }
            i = i + 1;
        }
        if best == cands.len() {
            proof {
                assert forall|c: Candidate| #[trigger] cands@.contains(c) implies !free_in(c, matches@) by {
                    let j = choose|j: int| 0 <= j < cands@.len() && cands@[j] == c;
                    assert(!free_in(cands@[j], matches@));
                }
            }
            break;
        }
        let c = cands[best];
        let ghost old_m = matches@;
        proof {
            assert(cands@.contains(c));
            assert forall|e: Candidate| #[trigger] cands@.contains(e) && free_in(e, old_m) implies cand_le(c, e) by {
                let j = choose|j: int| 0 <= j < cands@.len() && cands@[j] == e;
                assert(free_in(cands@[j], old_m));
            }
            assert(is_min_free(cands@, old_m, c));
            assert(old_m.take(old_m.len() as int) =~= old_m);
            // the new match's track is free, hence distinct from all earlier ones
            assert(forall|k: int| 0 <= k < old_m.len() ==> (#[trigger] old_m[k]).track != c.track);
            // at most one match per track, so there are fewer than n_tracks matches
            assert(!track_used(old_m, c.track as int));
        }
        matches.push(c);
        t_used.set(c.track, true);
        d_used.set(c.det, true);
        proof {
            let m = matches@;
            assert(m.drop_last() =~= old_m);
            assert forall|k: int| 0 <= k < m.len() implies is_min_free(cands@, m.take(k), #[trigger] m[k]) by {
                if k < old_m.len() {
                    assert(m.take(k) =~= old_m.take(k));
                    assert(m[k] == old_m[k]);
                } else {
                    assert(m.take(k) =~= old_m);
                }
            }
            assert forall|t: int| 0 <= t < n_tracks implies (t_used@[t] <==> track_used(m, t)) by {
                if t == c.track {
                    assert(m[m.len() - 1].track == t);
                } else {
                    if track_used(m, t) {
                        let k = choose|k: int| 0 <= k < m.len() && (#[trigger] m[k]).track == t;
                        assert(old_m[k] == m[k]);
                    }
                    if track_used(old_m, t) {
                        let k = choose|k: int| 0 <= k < old_m.len() && (#[trigger] old_m[k]).track == t;
                        assert(old_m[k] == m[k]);
                    }
                }
            }
            assert forall|d: int| 0 <= d < n_dets implies (d_used@[d] <==> det_used(m, d)) by {
                if d == c.det {
                    assert(m[m.len() - 1].det == d);
                } else {
                    if det_used(m, d) {
                        let k = choose|k: int| 0 <= k < m.len() && (#[trigger] m[k]).det == d;
                        assert(old_m[k] == m[k]);
                    }
                    if det_used(old_m, d) {
                        let k = choose|k: int| 0 <= k < old_m.len() && (#[trigger] old_m[k]).det == d;
                        assert(old_m[k] == m[k]);
                    }
                }
            }
            lemma_distinct_tracks_bound(m, n_tracks as nat);
        }
    }
    let unmatched_dets = unused_indices(&d_used, Ghost(|d: int| !det_used(matches@, d)));
    let unmatched_tracks = unused_indices(&t_used, Ghost(|t: int| !track_used(matches@, t)));
    Association { matches, unmatched_dets, unmatched_tracks }
}

/// A sequence of matches with pairwise distinct tracks below `n` has at most
/// `n` elements.
proof fn lemma_distinct_tracks_bound(m: Seq<Candidate>, n: nat)
    requires
        forall|k: int| 0 <= k < m.len() ==> (#[trigger] m[k]).track < n,
        forall|k1: int, k2: int| 0 <= k1 < k2 < m.len() ==> (#[trigger] m[k1]).track != (#[trigger] m[k2]).track,
    ensures
        m.len() <= n,
{
    let tracks = m.map_values(|c: Candidate| c.track as int);
    let s = tracks.to_set();
    assert(tracks.no_duplicates()) by {
        assert forall|i: int, j: int| 0 <= i < tracks.len() && 0 <= j < tracks.len() && i != j implies tracks[i] != tracks[j] by {
            if i < j {
                assert(m[i].track != m[j].track);
            } else {
                assert(m[j].track != m[i].track);
            }
        }
    }
    tracks.unique_seq_to_set();
    assert(s.subset_of(vstd::set_lib::set_int_range(0, n as int)));
    vstd::set_lib::lemma_int_range(0, n as int);
    vstd::set_lib::lemma_len_subset(s, vstd::set_lib::set_int_range(0, n as int));
}


/// Two candidates each ordered no later than the other are the same.
proof fn lemma_cand_le_antisymmetric(a: Candidate, b: Candidate)
    requires
        cand_le(a, b),
        cand_le(b, a),
    ensures
        a == b,
{
}

proof fn lemma_greedy_prefix_agree(cands: Seq<Candidate>, m1: Seq<Candidate>, m2: Seq<Candidate>, k: int)
    requires
        is_greedy_matching(cands, m1),
        is_greedy_matching(cands, m2),
        0 <= k <= m1.len(),
        k <= m2.len(),
    ensures
        m1.take(k) == m2.take(k),
    decreases k,
{
    if k > 0 {
        lemma_greedy_prefix_agree(cands, m1, m2, k - 1);
        let p = m1.take(k - 1);
        assert(is_min_free(cands, m1.take(k - 1), m1[k - 1]));
        assert(is_min_free(cands, m2.take(k - 1), m2[k - 1]));
        assert(cand_le(m1[k - 1], m2[k - 1]));
        assert(cand_le(m2[k - 1], m1[k - 1]));
        lemma_cand_le_antisymmetric(m1[k - 1], m2[k - 1]);
        assert(m1.take(k) =~= m1.take(k - 1).push(m1[k - 1]));
        assert(m2.take(k) =~= m2.take(k - 1).push(m2[k - 1]));
    }
}

/// The greedy matching is determined by the candidates: any two sequences
/// that satisfy its definition are equal.
pub proof fn lemma_greedy_matching_unique(cands: Seq<Candidate>, m1: Seq<Candidate>, m2: Seq<Candidate>)
    requires
        is_greedy_matching(cands, m1),
        is_greedy_matching(cands, m2),
    ensures
        m1 == m2,
{
    if m1.len() < m2.len() {
        lemma_greedy_prefix_agree(cands, m1, m2, m1.len() as int);
        assert(m2.take(m1.len() as int) =~= m1.take(m1.len() as int));
        assert(m1.take(m1.len() as int) =~= m1);
        let c = m2[m1.len() as int];
        assert(is_min_free(cands, m2.take(m1.len() as int), c));
        assert(cands.contains(c));
        assert(false);
    } else if m2.len() < m1.len() {
        lemma_greedy_prefix_agree(cands, m2, m1, m2.len() as int);
        assert(m1.take(m2.len() as int) =~= m2.take(m2.len() as int));
        assert(m2.take(m2.len() as int) =~= m2);
        let c = m1[m2.len() as int];
        assert(is_min_free(cands, m1.take(m2.len() as int), c));
        assert(cands.contains(c));
        assert(false);
    } else {
        lemma_greedy_prefix_agree(cands, m1, m2, m1.len() as int);
        assert(m1.take(m1.len() as int) =~= m1);
        assert(m2.take(m2.len() as int) =~= m2);
    }
}

/// A greedy matching pairs tracks and detections one to one, only through
/// given candidates, and leaves no candidate with both ends free.
pub proof fn lemma_greedy_matching_is_injective(cands: Seq<Candidate>, m: Seq<Candidate>)
    requires
        is_greedy_matching(cands, m),
    ensures
        forall|k: int| 0 <= k < m.len() ==> cands.contains(#[trigger] m[k]),
        forall|k1: int, k2: int| 0 <= k1 < k2 < m.len() ==> (#[trigger] m[k1]).track != (#[trigger] m[k2]).track
            && m[k1].det != m[k2].det,
        forall|c: Candidate| #[trigger] cands.contains(c) ==> track_used(m, c.track as int) || det_used(m, c.det as int),
{
    assert forall|k1: int, k2: int| 0 <= k1 < k2 < m.len() implies (#[trigger] m[k1]).track != (#[trigger] m[k2]).track
        && m[k1].det != m[k2].det by {
        assert(is_min_free(cands, m.take(k2), m[k2]));
        assert(m.take(k2)[k1] == m[k1]);
    }
    assert forall|c: Candidate| #[trigger] cands.contains(c) implies track_used(m, c.track as int) || det_used(m, c.det as int) by {
        assert(!free_in(c, m));
        let k = choose|k: int| 0 <= k < m.len() && !((#[trigger] m[k]).track != c.track && m[k].det != c.det);
        if m[k].track == c.track {
            assert(track_used(m, c.track as int));
        } else {
            assert(det_used(m, c.det as int));
        }
    }
}


/// The candidates of `cands` whose track satisfies `keep`, in order.
pub open spec fn restrict_cands(cands: Seq<Candidate>, keep: spec_fn(int) -> bool) -> Seq<Candidate>
    decreases cands.len(),
{
    if cands.len() == 0 {
        Seq::empty()
    } else if keep(cands.last().track as int) {
        restrict_cands(cands.drop_last(), keep).push(cands.last())
    } else {
        restrict_cands(cands.drop_last(), keep)
    }
}

/// The pool indices of `idx` whose tracklet was last updated at most
/// `buffer` frames before frame `frame`, in order.
pub open spec fn keep_recent(idx: Seq<usize>, pool: Seq<STrack>, frame: int, buffer: int) -> Seq<usize>
    decreases idx.len(),
{
    if idx.len() == 0 {
        Seq::empty()
    } else if frame - pool[idx.last() as int].frame_id <= buffer {
        keep_recent(idx.drop_last(), pool, frame, buffer).push(idx.last())
    } else {
        keep_recent(idx.drop_last(), pool, frame, buffer)
    }
}

/// Tracks of `m` updated in frame `frame`.
pub open spec fn updated_tracks(pool: Seq<STrack>, m: Seq<Candidate>, frame: usize) -> Seq<STrack> {
    Seq::new(m.len(), |k: int| spec_updated(pool[m[k].track as int], frame))
}

/// New tracklets for the detections `dets` (indices into `classes`),
/// activated in frame `frame` with consecutive ids from `first_id`.
pub open spec fn spawned_tracks(classes: Seq<i64>, dets: Seq<usize>, frame: usize, first_id: u64) -> Seq<STrack> {
    Seq::new(dets.len(), |k: int| spec_activated(spec_new_track(classes[dets[k] as int]), frame, (first_id + k) as u64))
}

/// The pool tracklets at `idx`, marked lost.
pub open spec fn lost_tracks(pool: Seq<STrack>, idx: Seq<usize>) -> Seq<STrack> {
    Seq::new(idx.len(), |k: int| STrack { state: TrackState::Lost, ..pool[idx[k] as int] })
}

/// The ids of the pool tracklets at `idx`.
pub open spec fn track_ids(pool: Seq<STrack>, idx: Seq<usize>) -> Seq<u64> {
    Seq::new(idx.len(), |k: int| pool[idx[k] as int].track_id)
}

/// Pool track `t` takes part in the second association stage: it was not
/// matched in the first and it is still active.
pub open spec fn in_second_stage(pool: Seq<STrack>, m1: Seq<Candidate>, t: int) -> bool {
    !track_used(m1, t) && pool[t].state == TrackState::Active
}

/// What one frame of tracking decided: the tracklets it reports, the
/// matches of both stages (pool index and detection index), the high-score
/// detections that started new tracklets, and the pool indices of the lost
/// tracklets kept in the buffer.
pub struct FrameReport {
    pub active: Vec<STrack>,
    pub matches_high: Vec<Candidate>,
    pub matches_low: Vec<Candidate>,
    pub spawned: Vec<usize>,
    pub lost_from: Vec<usize>,
}

/// ByteTrack core manager: the active and lost tracklets, and the ids of
/// the tracklets lost in the last frame.
pub struct ByteTrack {
    tracked_stracks: Vec<STrack>,
    lost_stracks: Vec<STrack>,
    lost_ids: Vec<u64>,
    frame_id: usize,
    track_buffer: usize,
    next_id: u64,
}

impl ByteTrack {
    /// The active tracklets.
    pub closed spec fn active_seq(&self) -> Seq<STrack> {
        self.tracked_stracks@
    }

    /// The lost tracklets still kept.
    pub closed spec fn lost(&self) -> Seq<STrack> {
        self.lost_stracks@
    }

    /// The ids of the tracklets lost in the last frame.
    pub closed spec fn lost_id_seq(&self) -> Seq<u64> {
        self.lost_ids@
    }

    /// Number of frames processed.
    pub closed spec fn frame(&self) -> usize {
        self.frame_id
    }

    /// How many frames a lost tracklet is kept.
    pub closed spec fn buffer(&self) -> usize {
        self.track_buffer
    }

    /// The id the next new tracklet gets.
    pub closed spec fn next_track_id(&self) -> u64 {
        self.next_id
    }

    /// The tracklets of the pool: active ones first, then lost ones.
    pub open spec fn pool(&self) -> Seq<STrack> {
        self.active_seq() + self.lost()
    }

    /// The tracker's invariant: active tracklets are activated and active,
    /// lost ones are lost, ids were handed out before, and every tracklet's
    /// frame counters are consistent with the frames processed.
    pub open spec fn wf(&self) -> bool {
        &&& self.next_track_id() >= 1
        &&& forall|i: int| 0 <= i < self.active_seq().len() ==> (#[trigger] self.active_seq()[i]).state
            == TrackState::Active && self.active_seq()[i].is_activated
        &&& forall|i: int| 0 <= i < self.lost().len() ==> (#[trigger] self.lost()[i]).state
            == TrackState::Lost
        &&& forall|i: int| 0 <= i < self.pool().len() ==> {
            let t = #[trigger] self.pool()[i];
            &&& 1 <= t.track_id < self.next_track_id()
            &&& t.start_frame <= t.frame_id <= self.frame()
            &&& t.tracklet_len <= t.frame_id - t.start_frame
        }
        &&& forall|i: int, j: int| 0 <= i < j < self.pool().len() ==> (#[trigger] self.pool()[i]).track_id
            != (#[trigger] self.pool()[j]).track_id
    }

    /// A tracker with no tracklet that keeps lost tracklets for
    /// `track_buffer` frames.
    pub fn new(track_buffer: usize) -> (r: Self)
        ensures
            r.wf(),
            r.active_seq().len() == 0,
            r.lost().len() == 0,
            r.lost_id_seq().len() == 0,
            r.frame() == 0,
            r.buffer() == track_buffer,
            r.next_track_id() == 1,
    {
        ByteTrack {
            tracked_stracks: Vec::new(),
            lost_stracks: Vec::new(),
            lost_ids: Vec::new(),
            frame_id: 0,
            track_buffer,
            next_id: 1,
        }
    }

    /// The ids of the tracklets lost in the last frame.
    pub fn get_lost_track_ids(&self) -> (r: Vec<u64>)
        ensures
            r@ == self.lost_id_seq(),
    {
        self.lost_ids.clone()
    }

    /// The active tracklets.
    pub fn tracked_stracks(&self) -> (r: &Vec<STrack>)
        ensures
            r@ == self.active_seq(),
    {
        &self.tracked_stracks
    }

    /// The lost tracklets still kept.
    pub fn lost_stracks(&self) -> (r: &Vec<STrack>)
        ensures
            r@ == self.lost(),
    {
        &self.lost_stracks
    }

    /// Number of frames processed.
    pub fn frames_processed(&self) -> (r: usize)
        ensures
            r == self.frame(),
    {
        self.frame_id
    }

    /// The id the next new tracklet gets.
    pub fn next_id(&self) -> (r: u64)
        ensures
            r == self.next_track_id(),
    {
        self.next_id
    }
}

/// Marks the tracks that `m` uses.
fn used_tracks(n: usize, m: &Vec<Candidate>) -> (r: Vec<bool>)
    requires
        forall|k: int| 0 <= k < m@.len() ==> (#[trigger] m@[k]).track < n,
    ensures
        r@.len() == n,
        forall|t: int| 0 <= t < n ==> (r@[t] <==> track_used(m@, t)),
{
    let mut r: Vec<bool> = Vec::new();
    let mut i: usize = 0;
    while i < n
        invariant
            i <= n,
            r@.len() == i,
            forall|j: int| 0 <= j < i ==> !r@[j],
        decreases n - i,
    {
        r.push(false);
        i = i + 1;
    }
    let mut k: usize = 0;
    while k < m.len()
        invariant
            k <= m@.len(),
            r@.len() == n,
            forall|j: int| 0 <= j < m@.len() ==> (#[trigger] m@[j]).track < n,
            forall|t: int| 0 <= t < n ==> (r@[t] <==> exists|j: int| 0 <= j < k && (#[trigger] m@[j]).track == t),
        decreases m@.len() - k,
    {
        let t = m[k].track;
        r.set(t, true);
        proof {
            assert forall|x: int| 0 <= x < n implies (r@[x] <==> exists|j: int| 0 <= j < k + 1 && (#[trigger] m@[j]).track == x) by {
                if x == t {
                    assert(m@[k as int].track == x);
                } else if r@[x] {
                    let j = choose|j: int| 0 <= j < k && (#[trigger] m@[j]).track == x;
                    assert(0 <= j < k + 1 && m@[j].track == x);
                } else {
                    if exists|j: int| 0 <= j < k + 1 && (#[trigger] m@[j]).track == x {
                        let j = choose|j: int| 0 <= j < k + 1 && (#[trigger] m@[j]).track == x;
                        assert(j != k);
                    }
                }
            }
        }
        k = k + 1;
    }
    r
}

/// The candidates whose track `keep` marks, in order.
fn restrict(cands: &[Candidate], keep: &Vec<bool>, Ghost(p): Ghost<spec_fn(int) -> bool>) -> (r: Vec<Candidate>)
    requires
        forall|i: int| 0 <= i < cands@.len() ==> (#[trigger] cands@[i]).track < keep@.len(),
        forall|t: int| 0 <= t < keep@.len() ==> (keep@[t] <==> p(t)),
    ensures
        r@ == restrict_cands(cands@, p),
{
    let mut r: Vec<Candidate> = Vec::new();
    let mut i: usize = 0;
    while i < cands.len()
        invariant
            i <= cands@.len(),
            forall|j: int| 0 <= j < cands@.len() ==> (#[trigger] cands@[j]).track < keep@.len(),
            forall|t: int| 0 <= t < keep@.len() ==> (keep@[t] <==> p(t)),
            r@ == restrict_cands(cands@.take(i as int), p),
        decreases cands@.len() - i,
    {
        let c = cands[i];
        proof {
            assert(cands@.take(i + 1).drop_last() =~= cands@.take(i as int));
            assert(cands@.take(i + 1).last() == c);
        }
        if keep[c.track] {
            r.push(c);
        }
        i = i + 1;
    }
    assert(cands@.take(cands@.len() as int) =~= cands@);
    r
}


impl ByteTrack {
    /// Process a new frame of detections, given what the caller measured in
    /// it: the classes of the high-score detections, the number of
    /// low-score detections, and the admissible candidate pairs between the
    /// pool (active tracklets, then lost ones, as before the frame) and the
    /// high-score and low-score detections.
    ///
    /// The frame counter advances. High-score detections are matched
    /// greedily to the pool; pool tracklets left unmatched and still active
    /// are matched greedily to the low-score detections. Matched tracklets
    /// are updated and stay active, in the order of their matches; active
    /// tracklets left unmatched in both stages become lost (and their ids are
    /// reported as lost in this frame); lost tracklets left unmatched stay
    /// lost; high-score detections left unmatched start new tracklets with
    /// fresh ids. Lost tracklets last updated more than the buffer length ago
    /// are dropped. The active tracklets are returned.
    #[verifier::rlimit(80)]
    #[verifier::spinoff_prover]
    pub fn update(&mut self, high_classes: &[i64], n_low: usize, high_cands: &[Candidate], low_cands: &[Candidate]) -> (r: FrameReport)
        requires
            old(self).wf(),
            old(self).frame() < usize::MAX,
            old(self).next_track_id() + high_classes@.len() <= u64::MAX,
            old(self).pool().len() <= usize::MAX,
            cands_in_range(high_cands@, old(self).pool().len(), high_classes@.len()),
            cands_in_range(low_cands@, old(self).pool().len(), n_low as nat),
        ensures
            final(self).wf(),
            ({
                let pool = old(self).pool();
                let f = (old(self).frame() + 1) as usize;
                let m1 = r.matches_high@;
                let m2 = r.matches_low@;
                let second = |t: int| in_second_stage(pool, m1, t);
                let newly_lost = indices_where(pool.len(), |t: int| in_second_stage(pool, m1, t) && !track_used(m2, t));
                let still_lost = indices_where(pool.len(), |t: int| !track_used(m1, t) && pool[t].state == TrackState::Lost);
                &&& is_greedy_matching(high_cands@, m1)
                &&& is_greedy_matching(restrict_cands(low_cands@, second), m2)
                &&& r.spawned@ == indices_where(high_classes@.len(), |d: int| !det_used(m1, d))
                &&& final(self).frame() == f
                &&& final(self).buffer() == old(self).buffer()
                &&& final(self).next_track_id() == old(self).next_track_id() + r.spawned@.len()
                &&& final(self).active_seq() == updated_tracks(pool, m1, f) + updated_tracks(pool, m2, f)
                    + spawned_tracks(high_classes@, r.spawned@, f, old(self).next_track_id())
                &&& r.lost_from@ == keep_recent(newly_lost + still_lost, pool, f as int, old(self).buffer() as int)
                &&& final(self).lost() == lost_tracks(pool, r.lost_from@)
                &&& final(self).lost_id_seq() == track_ids(pool, newly_lost)
                &&& final(self).lost_id_seq().no_duplicates()
                &&& forall|i: int| 0 <= i < final(self).lost().len() ==> final(self).frame() - (#[trigger] final(self).lost()[i]).frame_id <= final(self).buffer()
                &&& forall|i: int| 0 <= i < r.active@.len() ==> (#[trigger] r.active@[i]).is_activated
                &&& r.active@ == final(self).active_seq()
                &&& forall|i: int| 0 <= i < r.active@.len() ==> (is_fresh(#[trigger] r.active@[i]) <==> i >= m1.len() + m2.len())
                &&& ids_step(*old(self), *final(self), r.active@)
                &&& forall|id: u64| #[trigger] final(self).lost_id_seq().contains(id) <==> (seq_has_id(old(self).active_seq(), id)
                    && !seq_has_id(final(self).active_seq(), id))
            }),
    {
        let ghost old_self = *old(self);
        let ghost pool_s = old(self).pool();
        let f = self.frame_id + 1;
        self.frame_id = f;

        // The pool: active tracklets, then lost ones.
        let mut pool: Vec<STrack> = Vec::new();
        let mut i: usize = 0;
        while i < self.tracked_stracks.len()
            invariant
                i <= self.tracked_stracks@.len(),
                self.tracked_stracks@ == old_self.tracked_stracks@,
                pool@ == self.tracked_stracks@.take(i as int),
            decreases self.tracked_stracks@.len() - i,
        {
            pool.push(self.tracked_stracks[i]);
            i = i + 1;
            assert(pool@ =~= self.tracked_stracks@.take(i as int));
        }
        let mut i: usize = 0;
        while i < self.lost_stracks.len()
            invariant
                i <= self.lost_stracks@.len(),
                self.lost_stracks@ == old_self.lost_stracks@,
                self.tracked_stracks@ == old_self.tracked_stracks@,
                pool@ == self.tracked_stracks@ + self.lost_stracks@.take(i as int),
            decreases self.lost_stracks@.len() - i,
        {
            pool.push(self.lost_stracks[i]);
            i = i + 1;
            assert(pool@ =~= self.tracked_stracks@ + self.lost_stracks@.take(i as int));
        }
        proof {
            assert(self.tracked_stracks@.take(self.tracked_stracks@.len() as int) =~= self.tracked_stracks@);
            assert(self.lost_stracks@.take(self.lost_stracks@.len() as int) =~= self.lost_stracks@);
            assert(pool@ =~= pool_s);
        }
        let n_pool = pool.len();
        let n_high = high_classes.len();

        // First stage: high-score detections against the whole pool.
        let first = associate(n_pool, n_high, high_cands);
        let ghost m1 = first.matches@;
        proof {
            lemma_greedy_matching_is_injective(high_cands@, m1);
            assert forall|k: int| 0 <= k < m1.len() implies (#[trigger] m1[k]).track < n_pool by {
                assert(high_cands@.contains(m1[k]));
            }
        }
        let used1 = used_tracks(n_pool, &first.matches);

        // Second stage: unmatched active tracklets against low-score detections.
        let mut second: Vec<bool> = Vec::new();
        let mut t: usize = 0;
        while t < n_pool
            invariant
                t <= n_pool,
                n_pool == pool@.len(),
                used1@.len() == n_pool,
                forall|x: int| 0 <= x < n_pool ==> (used1@[x] <==> track_used(m1, x)),
                pool@ == pool_s,
                second@.len() == t,
                forall|x: int| 0 <= x < t ==> (second@[x] <==> in_second_stage(pool_s, m1, x)),
            decreases n_pool - t,
        {
            second.push(!used1[t] && pool[t].state == TrackState::Active);
            t = t + 1;
        }
        let ghost second_p = |x: int| in_second_stage(pool_s, m1, x);
        let low2 = restrict(low_cands, &second, Ghost(second_p));
        proof {
            lemma_restrict_in_range(low_cands@, second_p, n_pool as nat, n_low as nat);
        }
        let second_assoc = associate(n_pool, n_low, low2.as_slice());
        let ghost m2 = second_assoc.matches@;
        proof {
            lemma_greedy_matching_is_injective(low2@, m2);
            assert forall|k: int| 0 <= k < m2.len() implies (#[trigger] m2[k]).track < n_pool && second_p(m2[k].track as int) by {
                assert(low2@.contains(m2[k]));
                lemma_restrict_kept(low_cands@, second_p, m2[k]);
            }
        }
        let used2 = used_tracks(n_pool, &second_assoc.matches);

        // Matched tracklets, in the order of their matches.
        let mut new_tracked: Vec<STrack> = Vec::new();
        let mut k: usize = 0;
        while k < first.matches.len()
            invariant
                k <= m1.len(),
                first.matches@ == m1,
                pool@ == pool_s,
                n_pool == pool_s.len(),
                old_self.wf(),
                pool_s == old_self.pool(),
                f == old_self.frame() + 1,
                forall|j: int| 0 <= j < m1.len() ==> (#[trigger] m1[j]).track < n_pool,
                new_tracked@ == updated_tracks(pool_s, m1.take(k as int), f),
            decreases m1.len() - k,
        {
            let p = first.matches[k].track;
            let mut t = pool[p];
            proof {
                let q = pool_s[p as int];
                assert(q == old_self.pool()[p as int]);
                assert(q.tracklet_len <= q.frame_id - q.start_frame);
            }
            let u = t.update(f);
            new_tracked.push(u);
            k = k + 1;
            assert(new_tracked@ =~= updated_tracks(pool_s, m1.take(k as int), f));
        }
        assert(m1.take(m1.len() as int) =~= m1);
        let mut k: usize = 0;
        while k < second_assoc.matches.len()
            invariant
                k <= m2.len(),
                second_assoc.matches@ == m2,
                pool@ == pool_s,
                n_pool == pool_s.len(),
                old_self.wf(),
                pool_s == old_self.pool(),
                f == old_self.frame() + 1,
                forall|j: int| 0 <= j < m2.len() ==> (#[trigger] m2[j]).track < n_pool,
                new_tracked@ == updated_tracks(pool_s, m1, f) + updated_tracks(pool_s, m2.take(k as int), f),
            decreases m2.len() - k,
        {
            let p = second_assoc.matches[k].track;
            let mut t = pool[p];
            proof {
                let q = pool_s[p as int];
                assert(q == old_self.pool()[p as int]);
            }
            let u = t.update(f);
            new_tracked.push(u);
            k = k + 1;
            assert(new_tracked@ =~= updated_tracks(pool_s, m1, f) + updated_tracks(pool_s, m2.take(k as int), f));
        }
        assert(m2.take(m2.len() as int) =~= m2);

        // Unmatched high-score detections start new tracklets.
        proof {
            lemma_indices_where_bounded(n_high as nat, |d: int| !det_used(m1, d));
        }
        let ghost first_id = self.next_id;
        let ghost base = new_tracked@;
        let mut k: usize = 0;
        while k < first.unmatched_dets.len()
            invariant
                k <= first.unmatched_dets@.len(),
                first.unmatched_dets@ == indices_where(n_high as nat, |d: int| !det_used(m1, d)),
                forall|j: int| 0 <= j < first.unmatched_dets@.len() ==> (#[trigger] first.unmatched_dets@[j]) < n_high,
                n_high == high_classes@.len(),
                self.next_id == first_id + k,
                self.frame_id == f,
                self.track_buffer == old_self.track_buffer,
                first_id + n_high <= u64::MAX,
                first.unmatched_dets@.len() <= n_high,
                new_tracked@ == base + spawned_tracks(high_classes@, first.unmatched_dets@.take(k as int), f, first_id),
            decreases first.unmatched_dets@.len() - k,
        {
            let d = first.unmatched_dets[k];
            let mut t = STrack::new(high_classes[d]);
            t.activate(f, self.next_id);
            self.next_id = self.next_id + 1;
            new_tracked.push(t);
            k = k + 1;
            assert(new_tracked@ =~= base + spawned_tracks(high_classes@, first.unmatched_dets@.take(k as int), f, first_id));
        }
        assert(first.unmatched_dets@.take(first.unmatched_dets@.len() as int) =~= first.unmatched_dets@);
        let ghost sp = first.unmatched_dets@;

        // Active tracklets left unmatched in both stages become lost.
        let ghost newly_p = |x: int| in_second_stage(pool_s, m1, x) && !track_used(m2, x);
        let ghost still_p = |x: int| !track_used(m1, x) && pool_s[x].state == TrackState::Lost;
        let mut lost_idx: Vec<usize> = Vec::new();
        let mut lost_ids: Vec<u64> = Vec::new();
        let mut t: usize = 0;
        while t < n_pool
            invariant
                t <= n_pool,
                n_pool == pool_s.len(),
                pool@ == pool_s,
                second@.len() == n_pool,
                used2@.len() == n_pool,
                forall|x: int| 0 <= x < n_pool ==> (second@[x] <==> in_second_stage(pool_s, m1, x)),
                forall|x: int| 0 <= x < n_pool ==> (used2@[x] <==> track_used(m2, x)),
                newly_p == (|x: int| in_second_stage(pool_s, m1, x) && !track_used(m2, x)),
                lost_idx@ == indices_where(t as nat, newly_p),
                lost_ids@ == track_ids(pool_s, lost_idx@),
            decreases n_pool - t,
        {
            proof {
                assert(newly_p(t as int) == (second@[t as int] && !used2@[t as int]));
            }
            if second[t] && !used2[t] {
                lost_idx.push(t);
                lost_ids.push(pool[t].track_id);
            }
            t = t + 1;
            assert(lost_ids@ =~= track_ids(pool_s, lost_idx@));
        }
        let ghost newly = lost_idx@;
        // Lost tracklets left unmatched stay lost.
        let mut t: usize = 0;
        while t < n_pool
            invariant
                t <= n_pool,
                n_pool == pool_s.len(),
                pool@ == pool_s,
                used1@.len() == n_pool,
                forall|x: int| 0 <= x < n_pool ==> (used1@[x] <==> track_used(m1, x)),
                still_p == (|x: int| !track_used(m1, x) && pool_s[x].state == TrackState::Lost),
                lost_idx@ == newly + indices_where(t as nat, still_p),
            decreases n_pool - t,
        {
            proof {
                assert(still_p(t as int) == (!used1@[t as int] && pool@[t as int].state == TrackState::Lost));
            }
            if !used1[t] && pool[t].state == TrackState::Lost {
                lost_idx.push(t);
            }
            t = t + 1;
            assert(lost_idx@ =~= newly + indices_where(t as nat, still_p));
        }
        proof {
            lemma_indices_where_bounded(n_pool as nat, newly_p);
            lemma_indices_where_bounded(n_pool as nat, still_p);
        }

        // Evict lost tracklets out of the buffer window.
        let mut kept: Vec<usize> = Vec::new();
        let mut j: usize = 0;
        while j < lost_idx.len()
            invariant
                j <= lost_idx@.len(),
                forall|x: int| 0 <= x < lost_idx@.len() ==> (#[trigger] lost_idx@[x]) < n_pool,
                n_pool == pool_s.len(),
                pool@ == pool_s,
                old_self.wf(),
                pool_s == old_self.pool(),
                f == old_self.frame() + 1,
                self.track_buffer == old_self.buffer(),
                kept@ == keep_recent(lost_idx@.take(j as int), pool_s, f as int, self.track_buffer as int),
            decreases lost_idx@.len() - j,
        {
            let p = lost_idx[j];
            proof {
                assert(pool_s[p as int] == old_self.pool()[p as int]);
                assert(lost_idx@.take(j + 1).drop_last() =~= lost_idx@.take(j as int));
                assert(lost_idx@.take(j + 1).last() == p);
            }
            if f - pool[p].frame_id <= self.track_buffer {
                kept.push(p);
            }
            j = j + 1;
        }
        assert(lost_idx@.take(lost_idx@.len() as int) =~= lost_idx@);
        proof {
            lemma_keep_recent_subset(lost_idx@, pool_s, f as int, self.track_buffer as int);
        }
        let mut new_lost: Vec<STrack> = Vec::new();
        let mut j: usize = 0;
        while j < kept.len()
            invariant
                j <= kept@.len(),
                forall|x: int| 0 <= x < kept@.len() ==> (#[trigger] kept@[x]) < n_pool,
                n_pool == pool_s.len(),
                pool@ == pool_s,
                new_lost@ == lost_tracks(pool_s, kept@.take(j as int)),
            decreases kept@.len() - j,
        {
            let mut lt = pool[kept[j]];
            lt.mark_lost();
            new_lost.push(lt);
            j = j + 1;
            assert(new_lost@ =~= lost_tracks(pool_s, kept@.take(j as int)));
        }
        assert(kept@.take(kept@.len() as int) =~= kept@);

        // Report the activated tracklets.
        let ghost all_tracked = new_tracked@;
        proof {
            assert(all_tracked =~= updated_tracks(pool_s, m1, f) + updated_tracks(pool_s, m2, f)
                + spawned_tracks(high_classes@, sp, f, first_id));
            assert forall|x: int| 0 <= x < all_tracked.len() implies (#[trigger] all_tracked[x]).is_activated
                && all_tracked[x].state == TrackState::Active by {
                let a = updated_tracks(pool_s, m1, f);
                let b = updated_tracks(pool_s, m2, f);
                if x < a.len() {
                    assert(all_tracked[x] == a[x]);
                } else if x < a.len() + b.len() {
                    assert(all_tracked[x] == b[x - a.len()]);
                } else {
                    assert(all_tracked[x] == spawned_tracks(high_classes@, sp, f, first_id)[x - a.len() - b.len()]);
                }
            }
        }
        let mut active: Vec<STrack> = Vec::new();
        let mut j: usize = 0;
        while j < new_tracked.len()
            invariant
                j <= all_tracked.len(),
                new_tracked@ == all_tracked,
                forall|x: int| 0 <= x < all_tracked.len() ==> (#[trigger] all_tracked[x]).is_activated,
                active@ == all_tracked.take(j as int),
            decreases all_tracked.len() - j,
        {
            if new_tracked[j].is_activated {
                active.push(new_tracked[j]);
            }
            j = j + 1;
            assert(active@ =~= all_tracked.take(j as int));
        }
        assert(all_tracked.take(all_tracked.len() as int) =~= all_tracked);

        self.tracked_stracks = new_tracked;
        self.lost_stracks = new_lost;
        self.lost_ids = lost_ids;
        proof {
            lemma_indices_where_increasing(n_pool as nat, newly_p);
            lemma_indices_where_increasing(n_pool as nat, still_p);
            assert(lost_idx@.no_duplicates()) by {
                let a = newly;
                let b = indices_where(n_pool as nat, still_p);
                assert forall|x: int, y: int| 0 <= x < lost_idx@.len() && 0 <= y < lost_idx@.len() && x != y
                    implies lost_idx@[x] != lost_idx@[y] by {
                    if x < a.len() && y < a.len() {
                    } else if x >= a.len() && y >= a.len() {
                        assert(lost_idx@[x] == b[x - a.len()]);
                        assert(lost_idx@[y] == b[y - a.len()]);
                    } else if x < a.len() {
                        assert(newly_p(a[x] as int));
                        assert(still_p(b[y - a.len()] as int));
                        assert(lost_idx@[y] == b[y - a.len()]);
                    } else {
                        assert(newly_p(a[y] as int));
                        assert(still_p(b[x - a.len()] as int));
                        assert(lost_idx@[x] == b[x - a.len()]);
                    }
                }
            }
            lemma_keep_recent_no_duplicates(lost_idx@, pool_s, f as int, self.track_buffer as int);
            assert forall|k: int, j: int| 0 <= k < kept@.len() && 0 <= j < m1.len()
                implies (#[trigger] kept@[k]) != (#[trigger] m1[j]).track by {
                assert(lost_idx@.contains(kept@[k]));
                let x = choose|x: int| 0 <= x < lost_idx@.len() && lost_idx@[x] == kept@[k];
                if x < newly.len() {
                    assert(newly_p(newly[x] as int));
                } else {
                    assert(lost_idx@[x] == indices_where(n_pool as nat, still_p)[x - newly.len()]);
                    assert(still_p(lost_idx@[x] as int));
                }
            }
            assert forall|k: int, j: int| 0 <= k < kept@.len() && 0 <= j < m2.len()
                implies (#[trigger] kept@[k]) != (#[trigger] m2[j]).track by {
                assert(lost_idx@.contains(kept@[k]));
                let x = choose|x: int| 0 <= x < lost_idx@.len() && lost_idx@[x] == kept@[k];
                assert(second_p(m2[j].track as int));
                if x < newly.len() {
                    assert(newly_p(newly[x] as int));
                } else {
                    assert(lost_idx@[x] == indices_where(n_pool as nat, still_p)[x - newly.len()]);
                    assert(still_p(lost_idx@[x] as int));
                }
            }
            assert forall|k1: int, k2: int| 0 <= k1 < m1.len() && 0 <= k2 < m2.len()
                implies (#[trigger] m1[k1]).track != (#[trigger] m2[k2]).track by {
                assert(second_p(m2[k2].track as int));
            }
            lemma_update_keeps_wf(old_self, *self, pool_s, m1, m2, high_classes@, sp, kept@, f, first_id);
            lemma_update_ids(old_self, *self, pool_s, m1, m2, high_classes@, sp, f, first_id);
            lemma_lost_ids_dropped(old_self, pool_s, m1, m2, high_classes@, sp, f, first_id, self.active_seq(), newly);
            assert(newly.no_duplicates());
            assert(lost_ids@.no_duplicates()) by {
                assert forall|x: int, y: int| 0 <= x < lost_ids@.len() && 0 <= y < lost_ids@.len() && x != y
                    implies lost_ids@[x] != lost_ids@[y] by {
                    let px = newly[x] as int;
                    let py = newly[y] as int;
                    assert(pool_s[px] == old_self.pool()[px]);
                    assert(pool_s[py] == old_self.pool()[py]);
                    if px < py {
                        assert(old_self.pool()[px].track_id != old_self.pool()[py].track_id);
                    } else {
                        assert(old_self.pool()[py].track_id != old_self.pool()[px].track_id);
                    }
                }
            }
        }
        proof {
            assert forall|i: int| 0 <= i < self.lost_stracks@.len() implies f - (#[trigger] self.lost_stracks@[i]).frame_id <= self.track_buffer by {
                assert(self.lost_stracks@[i].frame_id == pool_s[kept@[i] as int].frame_id);
            }
        }
        FrameReport {
            active,
            matches_high: first.matches,
            matches_low: second_assoc.matches,
            spawned: first.unmatched_dets,
            lost_from: kept,
        }
    }
}


/// Some tracklet of `s` has id `id`.
pub open spec fn seq_has_id(s: Seq<STrack>, id: u64) -> bool {
    exists|i: int| 0 <= i < s.len() && (#[trigger] s[i]).track_id == id
}

/// How one frame of tracking hands out ids: the next id never decreases;
/// every reported id was handed out (it is at least 1 and below the next
/// id); a reported id below the previous next id belongs to a tracklet of
/// the previous pool; and every id handed out in the frame is reported in
/// it, by a tracklet started in the frame.
pub open spec fn ids_step(old: ByteTrack, new: ByteTrack, active: Seq<STrack>) -> bool {
    &&& new.next_track_id() >= old.next_track_id()
    &&& forall|i: int| 0 <= i < active.len() ==> 1 <= (#[trigger] active[i]).track_id < new.next_track_id()
    &&& forall|i: int| 0 <= i < active.len() && (#[trigger] active[i]).track_id < old.next_track_id() ==> seq_has_id(
        old.pool(),
        active[i].track_id,
    )
    &&& forall|id: u64| old.next_track_id() <= id < new.next_track_id() ==> #[trigger] reported_fresh(active, id)
}

/// Some tracklet of `s` started in its frame has id `id`.
pub open spec fn reported_fresh(s: Seq<STrack>, id: u64) -> bool {
    exists|i: int| 0 <= i < s.len() && (#[trigger] s[i]).track_id == id && is_fresh(s[i])
}

/// Some report of `reports` holds a tracklet with id `id`.
pub open spec fn ever_reported(reports: Seq<Seq<STrack>>, id: u64) -> bool {
    exists|k: int, i: int| 0 <= k < reports.len() && 0 <= i < reports[k].len() && (#[trigger] reports[k][i]).track_id == id
}

/// Ids over a run of frames: starting from a new tracker (next id 1), the
/// ids handed out are exactly 1, 2, ... below the last next id, each is
/// reported in the frame that hands it out, and an id handed out in one
/// frame was never reported in an earlier frame.
pub proof fn lemma_ids_never_reused(states: Seq<ByteTrack>, reports: Seq<Seq<STrack>>)
    requires
        states.len() == reports.len() + 1,
        states[0].next_track_id() == 1,
        forall|k: int| 0 <= k < reports.len() ==> ids_step(states[k], #[trigger] states[k + 1], reports[k]),
    ensures
        forall|k1: int, k2: int, i1: int, i2: int|
            0 <= k1 < k2 < reports.len() && 0 <= i1 < reports[k1].len() && 0 <= i2 < reports[k2].len()
                && (#[trigger] reports[k2][i2]).track_id >= states[k2].next_track_id()
                ==> (#[trigger] reports[k1][i1]).track_id != reports[k2][i2].track_id,
        forall|id: u64| 1 <= id < states.last().next_track_id() ==> #[trigger] ever_reported(reports, id),
{
    assert forall|a: int, b: int| 0 <= a <= b < states.len() implies (#[trigger] states[a]).next_track_id()
        <= (#[trigger] states[b]).next_track_id() by {
        lemma_next_id_monotone(states, reports, a, b);
    }
    assert forall|k1: int, k2: int, i1: int, i2: int|
        0 <= k1 < k2 < reports.len() && 0 <= i1 < reports[k1].len() && 0 <= i2 < reports[k2].len()
            && (#[trigger] reports[k2][i2]).track_id >= states[k2].next_track_id()
        implies (#[trigger] reports[k1][i1]).track_id != reports[k2][i2].track_id by {
        assert(ids_step(states[k1], states[k1 + 1], reports[k1]));
        assert(states[k1 + 1].next_track_id() <= states[k2].next_track_id());
    }
    assert forall|id: u64| 1 <= id < states.last().next_track_id() implies #[trigger] ever_reported(reports, id) by {
        lemma_id_handed_out(states, reports, id, reports.len() as int);
    }
}

proof fn lemma_next_id_monotone(states: Seq<ByteTrack>, reports: Seq<Seq<STrack>>, a: int, b: int)
    requires
        states.len() == reports.len() + 1,
        forall|k: int| 0 <= k < reports.len() ==> ids_step(states[k], #[trigger] states[k + 1], reports[k]),
        0 <= a <= b < states.len(),
    ensures
        states[a].next_track_id() <= states[b].next_track_id(),
    decreases b - a,
{
    if a < b {
        lemma_next_id_monotone(states, reports, a, b - 1);
        let k = b - 1;
        assert(ids_step(states[k], states[k + 1], reports[k]));
    }
}

proof fn lemma_id_handed_out(states: Seq<ByteTrack>, reports: Seq<Seq<STrack>>, id: u64, n: int)
    requires
        states.len() == reports.len() + 1,
        states[0].next_track_id() == 1,
        forall|k: int| 0 <= k < reports.len() ==> ids_step(states[k], #[trigger] states[k + 1], reports[k]),
        0 <= n <= reports.len(),
        1 <= id < states[n].next_track_id(),
    ensures
        ever_reported(reports, id),
    decreases n,
{
    if n > 0 {
        let k = n - 1;
        assert(ids_step(states[k], states[k + 1], reports[k]));
        if id >= states[n - 1].next_track_id() {
            assert(reported_fresh(reports[n - 1], id));
            let i = choose|i: int| 0 <= i < reports[n - 1].len() && (#[trigger] reports[n - 1][i]).track_id == id && is_fresh(reports[n - 1][i]);
            assert(reports[n - 1][i].track_id == id);
        } else {
            lemma_id_handed_out(states, reports, id, n - 1);
        }
    }
}

/// `indices_where` lists every index below the bound that satisfies the
/// predicate.
proof fn lemma_indices_where_complete(n: nat, p: spec_fn(int) -> bool, x: int)
    requires
        n <= usize::MAX,
        0 <= x < n,
        p(x),
    ensures
        indices_where(n, p).contains(x as usize),
    decreases n,
{
    let r = indices_where((n - 1) as nat, p);
    if x == n - 1 {
        assert(indices_where(n, p) == r.push((n - 1) as usize));
        assert(indices_where(n, p)[r.len() as int] == x as usize);
    } else {
        lemma_indices_where_complete((n - 1) as nat, p, x);
        let j = choose|j: int| 0 <= j < r.len() && r[j] == x as usize;
        if p(n - 1) {
            assert(indices_where(n, p) == r.push((n - 1) as usize));
            assert(indices_where(n, p)[j] == x as usize);
        } else {
            assert(indices_where(n, p) == r);
        }
    }
}

/// The ids that `update` hands out and reports satisfy `ids_step`, and the
/// reported tracklets started in the frame are exactly the new ones.
proof fn lemma_update_ids(
    old_self: ByteTrack,
    new_self: ByteTrack,
    pool: Seq<STrack>,
    m1: Seq<Candidate>,
    m2: Seq<Candidate>,
    classes: Seq<i64>,
    sp: Seq<usize>,
    f: usize,
    first_id: u64,
)
    requires
        old_self.wf(),
        pool == old_self.pool(),
        f == old_self.frame() + 1,
        first_id == old_self.next_track_id(),
        new_self.next_track_id() == first_id + sp.len(),
        forall|k: int| 0 <= k < m1.len() ==> (#[trigger] m1[k]).track < pool.len(),
        forall|k: int| 0 <= k < m2.len() ==> (#[trigger] m2[k]).track < pool.len(),
        new_self.active_seq() == updated_tracks(pool, m1, f) + updated_tracks(pool, m2, f) + spawned_tracks(
            classes,
            sp,
            f,
            first_id,
        ),
    ensures
        ids_step(old_self, new_self, new_self.active_seq()),
        forall|i: int| 0 <= i < new_self.active_seq().len() ==> (is_fresh(#[trigger] new_self.active_seq()[i]) <==> i
            >= m1.len() + m2.len()),
{
    let a = updated_tracks(pool, m1, f);
    let b = updated_tracks(pool, m2, f);
    let c = spawned_tracks(classes, sp, f, first_id);
    let act = new_self.active_seq();
    assert forall|i: int| 0 <= i < act.len() implies {
        &&& 1 <= (#[trigger] act[i]).track_id < new_self.next_track_id()
        &&& (act[i].track_id < old_self.next_track_id() ==> seq_has_id(old_self.pool(), act[i].track_id))
        &&& (is_fresh(act[i]) <==> i >= a.len() + b.len())
    } by {
        if i < a.len() {
            assert(act[i] == a[i]);
            let t = m1[i].track as int;
            assert(pool[t] == old_self.pool()[t]);
            assert(old_self.pool()[t].tracklet_len <= old_self.pool()[t].frame_id - old_self.pool()[t].start_frame);
        } else if i < a.len() + b.len() {
            assert(act[i] == b[i - a.len()]);
            let t = m2[i - a.len()].track as int;
            assert(pool[t] == old_self.pool()[t]);
            assert(old_self.pool()[t].tracklet_len <= old_self.pool()[t].frame_id - old_self.pool()[t].start_frame);
        } else {
            assert(act[i] == c[i - a.len() - b.len()]);
        }
    }
    assert forall|id: u64| old_self.next_track_id() <= id < new_self.next_track_id() implies #[trigger] reported_fresh(act, id) by {
        let k = id - first_id;
        let i = a.len() + b.len() + k;
        assert(act[i] == c[k]);
    }
}

/// The ids reported lost in a frame are exactly those of the tracklets
/// active before the frame that are not active after it.
proof fn lemma_lost_ids_dropped(
    old_self: ByteTrack,
    pool: Seq<STrack>,
    m1: Seq<Candidate>,
    m2: Seq<Candidate>,
    classes: Seq<i64>,
    sp: Seq<usize>,
    f: usize,
    first_id: u64,
    new_active: Seq<STrack>,
    newly: Seq<usize>,
)
    requires
        old_self.wf(),
        pool == old_self.pool(),
        pool.len() <= usize::MAX,
        first_id == old_self.next_track_id(),
        first_id + sp.len() <= u64::MAX,
        forall|k: int| 0 <= k < m1.len() ==> (#[trigger] m1[k]).track < pool.len(),
        forall|k: int| 0 <= k < m2.len() ==> (#[trigger] m2[k]).track < pool.len(),
        new_active == updated_tracks(pool, m1, f) + updated_tracks(pool, m2, f) + spawned_tracks(classes, sp, f, first_id),
        newly == indices_where(pool.len(), |t: int| in_second_stage(pool, m1, t) && !track_used(m2, t)),
    ensures
        forall|id: u64| #[trigger] track_ids(pool, newly).contains(id) <==> (seq_has_id(old_self.active_seq(), id)
            && !seq_has_id(new_active, id)),
{
    let np = |t: int| in_second_stage(pool, m1, t) && !track_used(m2, t);
    let a = updated_tracks(pool, m1, f);
    let b = updated_tracks(pool, m2, f);
    let c = spawned_tracks(classes, sp, f, first_id);
    let nt = old_self.active_seq().len();
    lemma_indices_where_bounded(pool.len(), np);
    // Two pool positions with one id are the same position.
    assert forall|x: int, y: int| 0 <= x < pool.len() && 0 <= y < pool.len() && (#[trigger] pool[x]).track_id
        == (#[trigger] pool[y]).track_id implies x == y by {
        if x < y {
            assert(old_self.pool()[x].track_id != old_self.pool()[y].track_id);
        } else if y < x {
            assert(old_self.pool()[y].track_id != old_self.pool()[x].track_id);
        }
    }
    // Where an id of the new active tracklets comes from.
    assert forall|x: int, t: int| 0 <= x < new_active.len() && 0 <= t < pool.len() && np(t)
        && (#[trigger] new_active[x]).track_id == (#[trigger] pool[t]).track_id implies false by {
        if x < a.len() {
            assert(new_active[x] == a[x]);
            assert(pool[m1[x].track as int].track_id == pool[t].track_id);
            assert(m1[x].track == t);
            assert(track_used(m1, t));
        } else if x < a.len() + b.len() {
            assert(new_active[x] == b[x - a.len()]);
            assert(pool[m2[x - a.len()].track as int].track_id == pool[t].track_id);
            assert(m2[x - a.len()].track == t);
            assert(track_used(m2, t));
        } else {
            let k = x - a.len() - b.len();
            assert(new_active[x] == c[k]);
            assert(c[k].track_id == (first_id + k) as u64);
            assert(pool[t] == old_self.pool()[t]);
            assert(old_self.pool()[t].track_id < first_id);
        }
    }
    assert forall|id: u64| #[trigger] track_ids(pool, newly).contains(id) implies (seq_has_id(old_self.active_seq(), id)
        && !seq_has_id(new_active, id)) by {
        let k = choose|k: int| 0 <= k < track_ids(pool, newly).len() && track_ids(pool, newly)[k] == id;
        let t = newly[k] as int;
        assert(np(t));
        assert(pool[t].state == TrackState::Active);
        assert(t < nt) by {
            if t >= nt {
                assert(pool[t] == old_self.lost()[t - nt]);
            }
        }
        assert(old_self.active_seq()[t] == pool[t]);
        if seq_has_id(new_active, id) {
            let x = choose|x: int| 0 <= x < new_active.len() && (#[trigger] new_active[x]).track_id == id;
            assert(new_active[x].track_id == pool[t].track_id);
        }
    }
    assert forall|id: u64| seq_has_id(old_self.active_seq(), id) && !seq_has_id(new_active, id)
        implies #[trigger] track_ids(pool, newly).contains(id) by {
        let i = choose|i: int| 0 <= i < nt && (#[trigger] old_self.active_seq()[i]).track_id == id;
        assert(pool[i] == old_self.active_seq()[i]);
        assert(pool[i].state == TrackState::Active);
        assert(!track_used(m1, i)) by {
            if track_used(m1, i) {
                let k = choose|k: int| 0 <= k < m1.len() && (#[trigger] m1[k]).track == i;
                assert(new_active[k] == a[k]);
                assert(new_active[k].track_id == id);
            }
        }
        assert(!track_used(m2, i)) by {
            if track_used(m2, i) {
                let k = choose|k: int| 0 <= k < m2.len() && (#[trigger] m2[k]).track == i;
                assert(new_active[a.len() + k] == b[k]);
                assert(new_active[a.len() + k].track_id == id);
            }
        }
        assert(np(i));
        lemma_indices_where_complete(pool.len(), np, i);
        let j = choose|j: int| 0 <= j < newly.len() && newly[j] == i as usize;
        assert(track_ids(pool, newly)[j] == id);
    }
}

/// Every index listed by `indices_where` is below the bound.
proof fn lemma_indices_where_bounded(n: nat, p: spec_fn(int) -> bool)
    requires
        n <= usize::MAX,
    ensures
        indices_where(n, p).len() <= n,
        forall|x: int| 0 <= x < indices_where(n, p).len() ==> (#[trigger] indices_where(n, p)[x]) < n,
        forall|x: int| 0 <= x < indices_where(n, p).len() ==> p(#[trigger] indices_where(n, p)[x] as int),
    decreases n,
{
    if n > 0 {
        lemma_indices_where_bounded((n - 1) as nat, p);
        let r = indices_where((n - 1) as nat, p);
        if p(n - 1) {
            assert(indices_where(n, p) == r.push((n - 1) as usize));
        } else {
            assert(indices_where(n, p) == r);
        }
        assert forall|x: int| 0 <= x < indices_where(n, p).len() implies (#[trigger] indices_where(n, p)[x]) < n
            && p(indices_where(n, p)[x] as int) by {
            if x < r.len() {
                assert(indices_where(n, p)[x] == r[x]);
            }
        }
    }
}

/// `indices_where` lists its indices in strictly increasing order.
proof fn lemma_indices_where_increasing(n: nat, p: spec_fn(int) -> bool)
    requires
        n <= usize::MAX,
    ensures
        forall|x: int, y: int| 0 <= x < y < indices_where(n, p).len() ==> (#[trigger] indices_where(n, p)[x])
            < (#[trigger] indices_where(n, p)[y]),
        indices_where(n, p).no_duplicates(),
    decreases n,
{
    lemma_indices_where_bounded(n, p);
    if n > 0 {
        lemma_indices_where_increasing((n - 1) as nat, p);
        lemma_indices_where_bounded((n - 1) as nat, p);
        let r = indices_where((n - 1) as nat, p);
        let s = indices_where(n, p);
        if p(n - 1) {
            assert(s == r.push((n - 1) as usize));
        } else {
            assert(s == r);
        }
        assert forall|x: int, y: int| 0 <= x < y < s.len() implies (#[trigger] s[x]) < (#[trigger] s[y]) by {
            if y < r.len() {
                assert(s[x] == r[x] && s[y] == r[y]);
            } else {
                assert(s[x] == r[x]);
            }
        }
        assert forall|x: int, y: int| 0 <= x < s.len() && 0 <= y < s.len() && x != y implies s[x] != s[y] by {
            if x < y {
                assert(s[x] < s[y]);
            } else {
                assert(s[y] < s[x]);
            }
        }
    }
}

/// `keep_recent` of indices without repetition has none either.
proof fn lemma_keep_recent_no_duplicates(idx: Seq<usize>, pool: Seq<STrack>, frame: int, buffer: int)
    requires
        idx.no_duplicates(),
    ensures
        keep_recent(idx, pool, frame, buffer).no_duplicates(),
    decreases idx.len(),
{
    if idx.len() > 0 {
        let rest = idx.drop_last();
        assert(rest.no_duplicates()) by {
            assert forall|x: int, y: int| 0 <= x < rest.len() && 0 <= y < rest.len() && x != y implies rest[x] != rest[y] by {
                assert(rest[x] == idx[x] && rest[y] == idx[y]);
            }
        }
        lemma_keep_recent_no_duplicates(rest, pool, frame, buffer);
        lemma_keep_recent_subset(rest, pool, frame, buffer);
        let r = keep_recent(rest, pool, frame, buffer);
        let k = keep_recent(idx, pool, frame, buffer);
        if frame - pool[idx.last() as int].frame_id <= buffer {
            assert(k == r.push(idx.last()));
            assert(!r.contains(idx.last())) by {
                if r.contains(idx.last()) {
                    let x = choose|x: int| 0 <= x < r.len() && r[x] == idx.last();
                    assert(rest.contains(r[x]));
                    let y = choose|y: int| 0 <= y < rest.len() && rest[y] == r[x];
                    assert(idx[y] == idx[idx.len() - 1]);
                }
            }
            assert forall|x: int, y: int| 0 <= x < k.len() && 0 <= y < k.len() && x != y implies k[x] != k[y] by {
                if x < r.len() && y < r.len() {
                    assert(k[x] == r[x] && k[y] == r[y]);
                } else if x < r.len() {
                    assert(k[x] == r[x]);
                } else {
                    assert(k[y] == r[y]);
                }
            }
        } else {
            assert(k == r);
        }
    }
}

/// `keep_recent` keeps only indices it was given, each within the window.
proof fn lemma_keep_recent_subset(idx: Seq<usize>, pool: Seq<STrack>, frame: int, buffer: int)
    ensures
        forall|x: int| 0 <= x < keep_recent(idx, pool, frame, buffer).len() ==> idx.contains(
            #[trigger] keep_recent(idx, pool, frame, buffer)[x],
        ),
        forall|x: int| 0 <= x < keep_recent(idx, pool, frame, buffer).len() ==> frame - pool[
            #[trigger] keep_recent(idx, pool, frame, buffer)[x] as int].frame_id <= buffer,
    decreases idx.len(),
{
    if idx.len() > 0 {
        let rest = idx.drop_last();
        lemma_keep_recent_subset(rest, pool, frame, buffer);
        let r = keep_recent(rest, pool, frame, buffer);
        let k = keep_recent(idx, pool, frame, buffer);
        assert forall|x: int| 0 <= x < k.len() implies idx.contains(#[trigger] k[x]) && frame - pool[k[x] as int].frame_id <= buffer by {
            if x < r.len() {
                assert(k[x] == r[x]);
                let j = choose|j: int| 0 <= j < rest.len() && rest[j] == r[x];
                assert(idx[j] == r[x]);
            } else {
                assert(k[x] == idx.last());
                assert(idx[idx.len() - 1] == idx.last());
            }
        }
    }
}

/// The state that `update` builds satisfies the tracker's invariant.
proof fn lemma_update_keeps_wf(
    old_self: ByteTrack,
    new_self: ByteTrack,
    pool: Seq<STrack>,
    m1: Seq<Candidate>,
    m2: Seq<Candidate>,
    classes: Seq<i64>,
    sp: Seq<usize>,
    kept: Seq<usize>,
    f: usize,
    first_id: u64,
)
    requires
        old_self.wf(),
        pool == old_self.pool(),
        f == old_self.frame() + 1,
        first_id == old_self.next_track_id(),
        new_self.next_track_id() == first_id + sp.len(),
        new_self.frame() == f,
        forall|k: int| 0 <= k < m1.len() ==> (#[trigger] m1[k]).track < pool.len(),
        forall|k: int| 0 <= k < m2.len() ==> (#[trigger] m2[k]).track < pool.len(),
        forall|k: int| 0 <= k < kept.len() ==> (#[trigger] kept[k]) < pool.len(),
        forall|k1: int, k2: int| 0 <= k1 < k2 < m1.len() ==> (#[trigger] m1[k1]).track != (#[trigger] m1[k2]).track,
        forall|k1: int, k2: int| 0 <= k1 < k2 < m2.len() ==> (#[trigger] m2[k1]).track != (#[trigger] m2[k2]).track,
        forall|k1: int, k2: int| 0 <= k1 < m1.len() && 0 <= k2 < m2.len() ==> (#[trigger] m1[k1]).track != (#[trigger] m2[k2]).track,
        forall|k: int, j: int| 0 <= k < kept.len() && 0 <= j < m1.len() ==> (#[trigger] kept[k]) != (#[trigger] m1[j]).track,
        forall|k: int, j: int| 0 <= k < kept.len() && 0 <= j < m2.len() ==> (#[trigger] kept[k]) != (#[trigger] m2[j]).track,
        kept.no_duplicates(),
        new_self.active_seq() == updated_tracks(pool, m1, f) + updated_tracks(pool, m2, f) + spawned_tracks(
            classes,
            sp,
            f,
            first_id,
        ),
        new_self.lost() == lost_tracks(pool, kept),
    ensures
        new_self.wf(),
{
    let a = updated_tracks(pool, m1, f);
    let b = updated_tracks(pool, m2, f);
    let c = spawned_tracks(classes, sp, f, first_id);
    let act = new_self.active_seq();
    let lost = new_self.lost();
    assert forall|i: int| 0 <= i < new_self.pool().len() implies {
        let t = #[trigger] new_self.pool()[i];
        &&& 1 <= t.track_id < new_self.next_track_id()
        &&& t.start_frame <= t.frame_id <= new_self.frame()
        &&& t.tracklet_len <= t.frame_id - t.start_frame
    } by {
        let t = new_self.pool()[i];
        if i < act.len() {
            assert(t == act[i]);
            if i < a.len() {
                assert(act[i] == a[i]);
                let q = pool[m1[i].track as int];
                assert(q == old_self.pool()[m1[i].track as int]);
            } else if i < a.len() + b.len() {
                assert(act[i] == b[i - a.len()]);
                let q = pool[m2[i - a.len()].track as int];
                assert(q == old_self.pool()[m2[i - a.len()].track as int]);
            } else {
                assert(act[i] == c[i - a.len() - b.len()]);
            }
        } else {
            assert(t == lost[i - act.len()]);
            let q = pool[kept[i - act.len()] as int];
            assert(q == old_self.pool()[kept[i - act.len()] as int]);
        }
    }
    let np = new_self.pool();
    // Where each tracklet of the new pool comes from: a pool index, or the
    // k-th new tracklet (encoded as -1 - k).
    let src = |i: int| if i < a.len() {
        m1[i].track as int
    } else if i < a.len() + b.len() {
        m2[i - a.len()].track as int
    } else if i < act.len() {
        -1 - (i - a.len() - b.len())
    } else {
        kept[i - act.len()] as int
    };
    assert forall|i: int| 0 <= i < np.len() implies (src(i) >= 0 ==> src(i) < pool.len() && (#[trigger] np[i]).track_id == pool[src(i)].track_id)
        && (src(i) < 0 ==> np[i].track_id == first_id + (-1 - src(i)) && -1 - src(i) < sp.len()) by {
        if i < act.len() {
            assert(np[i] == act[i]);
            if i < a.len() {
                assert(act[i] == a[i]);
            } else if i < a.len() + b.len() {
                assert(act[i] == b[i - a.len()]);
            } else {
                assert(act[i] == c[i - a.len() - b.len()]);
            }
        } else {
            assert(np[i] == lost[i - act.len()]);
        }
    }
    assert forall|i: int, j: int| #![trigger np[i], np[j]] 0 <= i < j < np.len() implies src(i) != src(j) by {
        if j < a.len() {
        } else if j < a.len() + b.len() {
        } else if j < act.len() {
        } else {
            let kj = j - act.len();
            if i >= act.len() {
                let ki = i - act.len();
                assert(kept[ki] != kept[kj]);
            } else if i < a.len() {
                assert(kept[kj] != m1[i].track);
            } else if i < a.len() + b.len() {
                assert(kept[kj] != m2[i - a.len()].track);
            }
        }
    }
    assert forall|i: int, j: int| 0 <= i < j < np.len() implies (#[trigger] np[i]).track_id != (#[trigger] np[j]).track_id by {
        let si = src(i);
        let sj = src(j);
        if si >= 0 && sj >= 0 {
            let op = old_self.pool();
            assert(pool[si] == op[si]);
            assert(pool[sj] == op[sj]);
            if si < sj {
                assert(op[si].track_id != op[sj].track_id);
            } else {
                assert(op[sj].track_id != op[si].track_id);
            }
        } else if si >= 0 {
            assert(pool[si] == old_self.pool()[si]);
        } else if sj >= 0 {
            assert(pool[sj] == old_self.pool()[sj]);
        }
    }
    assert forall|i: int| 0 <= i < act.len() implies (#[trigger] act[i]).state == TrackState::Active
        && act[i].is_activated by {
        if i < a.len() {
            assert(act[i] == a[i]);
        } else if i < a.len() + b.len() {
            assert(act[i] == b[i - a.len()]);
        } else {
            assert(act[i] == c[i - a.len() - b.len()]);
        }
    }
}

proof fn lemma_restrict_in_range(cands: Seq<Candidate>, p: spec_fn(int) -> bool, n_tracks: nat, n_dets: nat)
    requires
        cands_in_range(cands, n_tracks, n_dets),
    ensures
        cands_in_range(restrict_cands(cands, p), n_tracks, n_dets),
    decreases cands.len(),
{
    if cands.len() > 0 {
        let rest = cands.drop_last();
        assert(cands_in_range(rest, n_tracks, n_dets)) by {
            assert forall|i: int| 0 <= i < rest.len() implies (#[trigger] rest[i]).track < n_tracks && rest[i].det < n_dets by {
                assert(rest[i] == cands[i]);
            }
        }
        lemma_restrict_in_range(rest, p, n_tracks, n_dets);
        assert(cands[cands.len() - 1] == cands.last());
    }
}

proof fn lemma_restrict_kept(cands: Seq<Candidate>, p: spec_fn(int) -> bool, c: Candidate)
    requires
        restrict_cands(cands, p).contains(c),
    ensures
        p(c.track as int),
        cands.contains(c),
    decreases cands.len(),
{
    if cands.len() > 0 {
        let rest = cands.drop_last();
        if p(cands.last().track as int) && c == cands.last() {
            assert(cands[cands.len() - 1] == c);
        } else {
            if p(cands.last().track as int) {
                let r = restrict_cands(rest, p);
                let j = choose|j: int| 0 <= j < r.push(cands.last()).len() && r.push(cands.last())[j] == c;
                assert(j < r.len());
                assert(r[j] == c);
            }
            lemma_restrict_kept(rest, p, c);
            let j = choose|j: int| 0 <= j < rest.len() && rest[j] == c;
            assert(cands[j] == c);
        }
    }
}

} // verus!
