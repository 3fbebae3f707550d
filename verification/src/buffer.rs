//! A bounded frame buffer that schedules frames by priority.
use std::collections::VecDeque;
use vstd::prelude::*;
use crate::frame::{frame_priority, spec_frame_priority, PriorityLevel, RingilFrame};

verus! {

broadcast use vstd::std_specs::vecdeque::group_vec_dequeue_axioms;

/// What a [`PriorityFrameBuffer`] holds: one FIFO queue per priority level,
/// its capacity, and the number of frames as the buffer counts them.
pub struct BufferState {
    pub critical: Seq<RingilFrame>,
    pub high: Seq<RingilFrame>,
    pub medium: Seq<RingilFrame>,
    pub low: Seq<RingilFrame>,
    pub capacity: nat,
    pub count: nat,
}

impl BufferState {
    /// The queue of level `l`.
    pub open spec fn queue(self, l: PriorityLevel) -> Seq<RingilFrame> {
        match l {
            PriorityLevel::Critical => self.critical,
            PriorityLevel::High => self.high,
            PriorityLevel::Medium => self.medium,
            PriorityLevel::Low => self.low,
        }
    }

    /// The same state with the queue of level `l` replaced by `q`.
    pub open spec fn with_queue(self, l: PriorityLevel, q: Seq<RingilFrame>) -> BufferState {
        match l {
            PriorityLevel::Critical => BufferState { critical: q, ..self },
            PriorityLevel::High => BufferState { high: q, ..self },
            PriorityLevel::Medium => BufferState { medium: q, ..self },
            PriorityLevel::Low => BufferState { low: q, ..self },
        }
    }

    /// Number of frames held in the four queues.
    pub open spec fn total(self) -> nat {
        self.critical.len() + self.high.len() + self.medium.len() + self.low.len()
    }

    /// The counter agrees with the frames actually held.
    pub open spec fn consistent(self) -> bool {
        self.count == self.total()
    }

    /// The counter says the buffer is full.
    pub open spec fn full(self) -> bool {
        self.count >= self.capacity
    }

    /// On a full buffer, `frame` is refused when nothing can make room for
    /// it: no Low frame is held, no Medium frame is held that a High or
    /// Critical `frame` could replace, and either `frame` is itself Medium or
    /// Low, or no frame of its own level is held to be replaced.
    pub open spec fn refuses(self, frame: RingilFrame) -> bool {
        let p = spec_frame_priority(frame);
        &&& self.full()
        &&& self.low.len() == 0
        &&& !(self.medium.len() > 0 && p.rank() >= 2)
        &&& (p.rank() <= 1 || self.queue(p).len() == 0)
    }

    /// The buffer's invariant: the counter agrees with the frames held,
    /// which never exceed the capacity, and every queue holds only frames of
    /// its own level.
    pub open spec fn wf(self) -> bool {
        &&& self.consistent()
        &&& self.total() <= self.capacity
        &&& self.classified()
    }

    /// Every queue holds only frames of its own level.
    pub open spec fn classified(self) -> bool {
        forall|l: PriorityLevel, i: int|
            0 <= i < self.queue(l).len() ==> #[trigger] spec_frame_priority(self.queue(l)[i]) == l
    }

    /// `frame` appended to the queue of its level, the counter raised by one.
    pub open spec fn appended(self, frame: RingilFrame) -> BufferState {
        let p = spec_frame_priority(frame);
        BufferState { count: self.count + 1, ..self.with_queue(p, self.queue(p).push(frame)) }
    }

    /// The state after pushing `frame`. When the buffer is full, room is
    /// made first: the oldest Low frame goes; failing that, the oldest Medium
    /// frame goes if `frame` is High or Critical; failing that, a High or
    /// Critical `frame` replaces the oldest frame of its own level; when none
    /// of these applies `frame` is refused and nothing changes.
    pub open spec fn pushed(self, frame: RingilFrame) -> BufferState {
        let p = spec_frame_priority(frame);
        if !self.full() {
            self.appended(frame)
        } else if self.low.len() > 0 {
            BufferState { low: self.low.drop_first(), count: (self.count - 1) as nat, ..self }.appended(frame)
        } else if self.medium.len() > 0 && p.rank() >= 2 {
            BufferState { medium: self.medium.drop_first(), count: (self.count - 1) as nat, ..self }.appended(frame)
        } else if p.rank() <= 1 || self.queue(p).len() == 0 {
            self
        } else {
            BufferState {
                count: (self.count - 1) as nat,
                ..self.with_queue(p, self.queue(p).drop_first())
            }.appended(frame)
        }
    }

    /// The level served by a pop: the most urgent one with a frame, if any.
    pub open spec fn served_level(self) -> Option<PriorityLevel> {
        if self.critical.len() > 0 {
            Some(PriorityLevel::Critical)
        } else if self.high.len() > 0 {
            Some(PriorityLevel::High)
        } else if self.medium.len() > 0 {
            Some(PriorityLevel::Medium)
        } else if self.low.len() > 0 {
            Some(PriorityLevel::Low)
        } else {
            None
        }
    }

    /// The frame a pop returns: the oldest frame of the served level.
    pub open spec fn front(self) -> Option<RingilFrame> {
        match self.served_level() {
            Some(l) => Some(self.queue(l)[0]),
            None => None,
        }
    }

    /// The state after a pop: the front frame removed and the counter
    /// lowered by one, or the state unchanged when every queue is empty.
    pub open spec fn popped(self) -> BufferState {
        match self.served_level() {
            Some(l) => BufferState {
                count: (self.count - 1) as nat,
                ..self.with_queue(l, self.queue(l).drop_first())
            },
            None => self,
        }
    }
}

/// The state of a new buffer of capacity `capacity`.
pub open spec fn empty_buffer(capacity: nat) -> BufferState {
    BufferState {
        critical: Seq::empty(),
        high: Seq::empty(),
        medium: Seq::empty(),
        low: Seq::empty(),
        capacity,
        count: 0,
    }
}

/// A new buffer holds no frame and satisfies the invariant.
pub proof fn lemma_new_is_empty(capacity: nat)
    ensures
        empty_buffer(capacity).wf(),
        empty_buffer(capacity).total() == 0,
{
}

/// Push and pop keep every frame in the queue of its own level.
pub proof fn lemma_classified_preserved(s: BufferState, frame: RingilFrame)
    requires
        s.classified(),
    ensures
        s.pushed(frame).classified(),
        s.popped().classified(),
{
    let p = spec_frame_priority(frame);
    let t = s.pushed(frame);
    assert forall|l: PriorityLevel, i: int| 0 <= i < t.queue(l).len() implies #[trigger] spec_frame_priority(t.queue(l)[i]) == l by {
        if !s.refuses(frame) {
            if l == p && i == t.queue(l).len() - 1 {
            } else if l == p || (s.full() && s.low.len() > 0 && l == PriorityLevel::Low)
                || (s.full() && s.low.len() == 0 && s.medium.len() > 0 && p.rank() >= 2 && l == PriorityLevel::Medium) {
                if s.full() && (s.low.len() > 0 && l == PriorityLevel::Low
                    || s.low.len() == 0 && s.medium.len() > 0 && p.rank() >= 2 && l == PriorityLevel::Medium
                    || s.low.len() == 0 && !(s.medium.len() > 0 && p.rank() >= 2) && l == p) {
                    assert(t.queue(l)[i] == s.queue(l)[i + 1]);
                } else {
                    assert(t.queue(l)[i] == s.queue(l)[i]);
                }
            } else {
                assert(t.queue(l)[i] == s.queue(l)[i]);
            }
        }
    }
    let u = s.popped();
    assert forall|l: PriorityLevel, i: int| 0 <= i < u.queue(l).len() implies #[trigger] spec_frame_priority(u.queue(l)[i]) == l by {
        if s.served_level() == Some(l) {
            assert(u.queue(l)[i] == s.queue(l)[i + 1]);
        } else {
            assert(u.queue(l)[i] == s.queue(l)[i]);
        }
    }
}

/// Strict priority: a pop serves the oldest frame of the most urgent
/// non-empty level, and no frame left in the buffer is more urgent than it.
pub proof fn lemma_pop_serves_most_urgent(s: BufferState)
    requires
        s.classified(),
    ensures
        s.front() is None <==> s.total() == 0,
        s.front() matches Some(f) ==> forall|l: PriorityLevel|
            #[trigger] s.queue(l).len() > 0 ==> spec_frame_priority(f).rank() >= l.rank(),
        s.front() matches Some(f) ==> f == s.queue(spec_frame_priority(f))[0],
{
    if let Some(l) = s.served_level() {
        assert(spec_frame_priority(s.queue(l)[0]) == l);
    }
}

/// Pushing never evicts a frame more urgent than the pushed one: the queues
/// of all more urgent levels are left as they were.
pub proof fn lemma_push_spares_more_urgent(s: BufferState, frame: RingilFrame, l: PriorityLevel)
    requires
        l.rank() > spec_frame_priority(frame).rank(),
    ensures
        s.pushed(frame).queue(l) == s.queue(l),
{
}

/// Frames of one level leave in arrival order: a push appends the frame to
/// the end of its level's queue, keeping what was there in order (less at
/// most its oldest frame), and a pop removes only the oldest frame.
pub proof fn lemma_fifo_within_level(s: BufferState, frame: RingilFrame)
    requires
        !s.refuses(frame),
    ensures
        ({
            let p = spec_frame_priority(frame);
            let q = s.pushed(frame).queue(p);
            &&& q.last() == frame
            &&& (q.drop_last() == s.queue(p) || q.drop_last() == s.queue(p).drop_first())
        }),
        s.served_level() matches Some(l) ==> s.popped().queue(l) == s.queue(l).drop_first(),
{
}

/// Overflow eviction, queue by queue. A push onto a buffer with room appends
/// the frame to its level's queue. On a full buffer the oldest Low frame goes
/// first, whatever the pushed frame; only when no Low frame is held does the
/// oldest Medium frame go, and only for a High or Critical frame; only when
/// neither is held does a High or Critical frame replace the oldest frame of
/// its own level; otherwise the frame is refused and nothing changes. In
/// each case every other queue keeps its frames, and the pushed frame goes to
/// the back of its own level's queue.
pub proof fn lemma_push_eviction_order(s: BufferState, frame: RingilFrame)
    requires
        s.wf(),
    ensures
        ({
            let p = spec_frame_priority(frame);
            let t = s.pushed(frame);
            let urgent = p == PriorityLevel::High || p == PriorityLevel::Critical;
            // The queues after the eviction, before the frame is appended.
            let (lo, me, hi, cr) = if !s.full() {
                (s.low, s.medium, s.high, s.critical)
            } else if s.low.len() > 0 {
                (s.low.drop_first(), s.medium, s.high, s.critical)
            } else if s.medium.len() > 0 && urgent {
                (s.low, s.medium.drop_first(), s.high, s.critical)
            } else if p == PriorityLevel::High && s.high.len() > 0 {
                (s.low, s.medium, s.high.drop_first(), s.critical)
            } else if p == PriorityLevel::Critical && s.critical.len() > 0 {
                (s.low, s.medium, s.high, s.critical.drop_first())
            } else {
                (s.low, s.medium, s.high, s.critical)
            };
            let refused = s.full() && s.low.len() == 0 && !(s.medium.len() > 0 && urgent) && !(p
                == PriorityLevel::High && s.high.len() > 0) && !(p == PriorityLevel::Critical && s.critical.len()
                > 0);
            &&& refused ==> t == s
            &&& !refused ==> {
                &&& t.low == (if p == PriorityLevel::Low { lo.push(frame) } else { lo })
                &&& t.medium == (if p == PriorityLevel::Medium { me.push(frame) } else { me })
                &&& t.high == (if p == PriorityLevel::High { hi.push(frame) } else { hi })
                &&& t.critical == (if p == PriorityLevel::Critical { cr.push(frame) } else { cr })
                &&& t.capacity == s.capacity
                &&& t.count == (if s.full() { s.count } else { s.count + 1 })
            }
        }),
{
    let p = spec_frame_priority(frame);
    match p {
        PriorityLevel::Low => {},
        PriorityLevel::Medium => {},
        PriorityLevel::High => {},
        PriorityLevel::Critical => {},
    }
}

/// Capacity: push keeps the invariant; the counter agrees with the frames
/// held, which never exceed the capacity.
pub proof fn lemma_push_respects_capacity(s: BufferState, frame: RingilFrame)
    requires
        s.wf(),
    ensures
        s.pushed(frame).wf(),
        s.pushed(frame).total() <= s.capacity,
        s.pushed(frame).capacity == s.capacity,
        s.refuses(frame) ==> s.pushed(frame) == s,
        !s.refuses(frame) ==> s.pushed(frame).total() == (if s.full() { s.total() } else { s.total() + 1 }),
{
    lemma_classified_preserved(s, frame);
}

/// A pop keeps the invariant and takes one frame when there is one.
pub proof fn lemma_pop_keeps_count(s: BufferState)
    requires
        s.wf(),
    ensures
        s.popped().wf(),
        s.popped().total() + (if s.total() > 0 { 1int } else { 0int }) == s.total(),
{
    lemma_classified_preserved(s, arbitrary_frame());
}

/// Some frame (any will do).
spec fn arbitrary_frame() -> RingilFrame {
    RingilFrame { source_node_id: 0, timestamp_us: 0, hop_limit: 0, payload: None }
}


/// The state after pushing the frames of `fs` in order.
pub open spec fn push_all(s: BufferState, fs: Seq<RingilFrame>) -> BufferState
    decreases fs.len(),
{
    if fs.len() == 0 {
        s
    } else {
        push_all(s, fs.drop_last()).pushed(fs.last())
    }
}

/// The state after `k` pops.
pub open spec fn pop_times(s: BufferState, k: nat) -> BufferState
    decreases k,
{
    if k == 0 {
        s
    } else {
        pop_times(s, (k - 1) as nat).popped()
    }
}

/// Only the queue of level `p` holds frames, and it holds `q`.
pub open spec fn holds_only(s: BufferState, p: PriorityLevel, q: Seq<RingilFrame>) -> bool {
    &&& s.queue(p) == q
    &&& forall|l: PriorityLevel| l != p ==> (#[trigger] s.queue(l)).len() == 0
}

proof fn lemma_push_all_one_level(capacity: nat, fs: Seq<RingilFrame>, p: PriorityLevel)
    requires
        fs.len() <= capacity,
        forall|i: int| 0 <= i < fs.len() ==> spec_frame_priority(#[trigger] fs[i]) == p,
    ensures
        holds_only(push_all(empty_buffer(capacity), fs), p, fs),
        push_all(empty_buffer(capacity), fs).count == fs.len(),
        push_all(empty_buffer(capacity), fs).capacity == capacity,
    decreases fs.len(),
{
    if fs.len() == 0 {
        assert(empty_buffer(capacity).queue(p) =~= fs);
    } else {
        let rest = fs.drop_last();
        assert forall|i: int| 0 <= i < rest.len() implies spec_frame_priority(#[trigger] rest[i]) == p by {
            assert(rest[i] == fs[i]);
        }
        lemma_push_all_one_level(capacity, rest, p);
        assert(spec_frame_priority(fs.last()) == p) by {
            assert(fs[fs.len() - 1] == fs.last());
        }
        assert(rest.push(fs.last()) =~= fs);
        let u = push_all(empty_buffer(capacity), rest);
        assert(!u.full());
        let w = u.appended(fs.last());
        assert(push_all(empty_buffer(capacity), fs) == w);
        assert(forall|l: PriorityLevel| #[trigger] w.queue(l) == if l == p { u.queue(l).push(fs.last()) } else { u.queue(l) }) by {
            assert forall|l: PriorityLevel| #[trigger] w.queue(l) == if l == p { u.queue(l).push(fs.last()) } else { u.queue(l) } by {
                match p {
                    PriorityLevel::Critical => {},
                    PriorityLevel::High => {},
                    PriorityLevel::Medium => {},
                    PriorityLevel::Low => {},
                }
            }
        }
    }
}

proof fn lemma_pop_times_one_level(u: BufferState, p: PriorityLevel, q: Seq<RingilFrame>, k: nat)
    requires
        holds_only(u, p, q),
        u.count == q.len(),
        k <= q.len(),
    ensures
        holds_only(pop_times(u, k), p, q.skip(k as int)),
        pop_times(u, k).count == q.len() - k,
    decreases k,
{
    if k == 0 {
        assert(q.skip(0) =~= q);
    } else {
        lemma_pop_times_one_level(u, p, q, (k - 1) as nat);
        let v = pop_times(u, (k - 1) as nat);
        assert(v.queue(p).len() > 0);
        assert(v.served_level() == Some(p)) by {
            assert(v.queue(PriorityLevel::Critical).len() > 0 ==> p == PriorityLevel::Critical);
            assert(v.queue(PriorityLevel::High).len() > 0 ==> p == PriorityLevel::High);
            assert(v.queue(PriorityLevel::Medium).len() > 0 ==> p == PriorityLevel::Medium);
        }
        assert(q.skip((k - 1) as int).drop_first() =~= q.skip(k as int));
        let w = pop_times(u, k);
        assert forall|l: PriorityLevel| l != p implies (#[trigger] w.queue(l)).len() == 0 by {
            assert(v.queue(l).len() == 0);
        }
    }
}

/// Round trip within one level: pushing frames of one level into a new
/// buffer with room for them all, then popping, gives them back in arrival
/// order, after which the buffer is empty.
pub proof fn lemma_fifo_run(capacity: nat, fs: Seq<RingilFrame>)
    requires
        fs.len() <= capacity,
        forall|i: int, j: int| 0 <= i < fs.len() && 0 <= j < fs.len() ==> spec_frame_priority(#[trigger] fs[i])
            == spec_frame_priority(#[trigger] fs[j]),
    ensures
        push_all(empty_buffer(capacity), fs).wf(),
        forall|i: int| 0 <= i < fs.len() ==> #[trigger] pop_times(push_all(empty_buffer(capacity), fs), i as nat).front()
            == Some(fs[i]),
        pop_times(push_all(empty_buffer(capacity), fs), fs.len()).front() is None,
        pop_times(push_all(empty_buffer(capacity), fs), fs.len()).total() == 0,
{
    let p = if fs.len() > 0 { spec_frame_priority(fs[0]) } else { PriorityLevel::Low };
    assert forall|i: int| 0 <= i < fs.len() implies spec_frame_priority(#[trigger] fs[i]) == p by {
        assert(spec_frame_priority(fs[i]) == spec_frame_priority(fs[0]));
    }
    lemma_push_all_one_level(capacity, fs, p);
    let t = push_all(empty_buffer(capacity), fs);
    assert(t.total() == fs.len()) by {
        assert(holds_only(t, p, fs));
        assert(t.queue(PriorityLevel::Critical).len() + t.queue(PriorityLevel::High).len()
            + t.queue(PriorityLevel::Medium).len() + t.queue(PriorityLevel::Low).len() == fs.len());
    }
    assert(t.classified()) by {
        assert forall|l: PriorityLevel, i: int| 0 <= i < t.queue(l).len() implies #[trigger] spec_frame_priority(t.queue(l)[i]) == l by {
            if l != p {
                assert(t.queue(l).len() == 0);
            }
        }
    }
    assert forall|i: int| 0 <= i < fs.len() implies #[trigger] pop_times(t, i as nat).front() == Some(fs[i]) by {
        lemma_pop_times_one_level(t, p, fs, i as nat);
        let v = pop_times(t, i as nat);
        assert(v.queue(p).len() > 0);
        assert(v.served_level() == Some(p)) by {
            assert(v.queue(PriorityLevel::Critical).len() > 0 ==> p == PriorityLevel::Critical);
            assert(v.queue(PriorityLevel::High).len() > 0 ==> p == PriorityLevel::High);
            assert(v.queue(PriorityLevel::Medium).len() > 0 ==> p == PriorityLevel::Medium);
        }
        assert(fs.skip(i)[0] == fs[i]);
    }
    lemma_pop_times_one_level(t, p, fs, fs.len());
    let v = pop_times(t, fs.len());
    assert forall|l: PriorityLevel| #[trigger] v.queue(l).len() == 0 by {
        if l == p {
            assert(fs.skip(fs.len() as int).len() == 0);
        }
    }
    assert(v.queue(PriorityLevel::Critical).len() == 0 && v.queue(PriorityLevel::High).len() == 0
        && v.queue(PriorityLevel::Medium).len() == 0 && v.queue(PriorityLevel::Low).len() == 0);
}

/// Priority-aware buffer: four FIFO queues served in strict priority order,
/// with eviction of lower-priority frames when the buffer is full.
pub struct PriorityFrameBuffer {
    critical_q: VecDeque<RingilFrame>,
    high_q: VecDeque<RingilFrame>,
    medium_q: VecDeque<RingilFrame>,
    low_q: VecDeque<RingilFrame>,
    max_len: usize,
    current_len: usize,
}

impl View for PriorityFrameBuffer {
    type V = BufferState;

    closed spec fn view(&self) -> BufferState {
        BufferState {
            critical: self.critical_q@,
            high: self.high_q@,
            medium: self.medium_q@,
            low: self.low_q@,
            capacity: self.max_len as nat,
            count: self.current_len as nat,
        }
    }
}

impl PriorityFrameBuffer {
    /// Create a new [`PriorityFrameBuffer`] holding at most `max_len` frames.
    pub fn new(max_len: usize) -> (r: Self)
        ensures
            r@ == empty_buffer(max_len as nat),
            r@.wf(),
    {
        proof {
            lemma_new_is_empty(max_len as nat);
        }
        Self {
            critical_q: VecDeque::new(),
            high_q: VecDeque::new(),
            medium_q: VecDeque::new(),
            low_q: VecDeque::new(),
            max_len,
            current_len: 0,
        }
    }

    /// Extract priority from frame payload type or threat level.
    pub fn get_priority(frame: &RingilFrame) -> (r: PriorityLevel)
        ensures
            r == spec_frame_priority(*frame),
    {
        frame_priority(frame)
    }

    fn enqueue(&mut self, priority: PriorityLevel, frame: RingilFrame)
        requires
            priority == spec_frame_priority(frame),
            old(self).current_len < usize::MAX,
        ensures
            final(self)@ == old(self)@.appended(frame),
    {
        match priority {
            PriorityLevel::Critical => self.critical_q.push_back(frame),
            PriorityLevel::High => self.high_q.push_back(frame),
            PriorityLevel::Medium => self.medium_q.push_back(frame),
            PriorityLevel::Low => self.low_q.push_back(frame),
        }
        self.current_len = self.current_len + 1;
    }

    /// Push frame into the appropriate queue with overflow eviction.
    pub fn push(&mut self, frame: RingilFrame)
        requires
            old(self)@.wf(),
        ensures
            final(self)@ == old(self)@.pushed(frame),
            final(self)@.wf(),
    {
        proof {
            lemma_push_respects_capacity(old(self)@, frame);
        }
        let priority = Self::get_priority(&frame);

        // Evict lower priority frames if buffer is full.
        if self.current_len >= self.max_len {
            if self.low_q.len() > 0 {
                self.low_q.pop_front();
            } else if self.medium_q.len() > 0 && priority.at_least(PriorityLevel::High) {
                self.medium_q.pop_front();
            } else if PriorityLevel::Medium.at_least(priority) {
                return;  // Drop new frame: no lower priority to evict.
            } else {
                // Buffer saturated with High/Critical: evict oldest of same
                // priority, or drop the new frame when there is none.
                match priority {
                    PriorityLevel::High => {
                        if self.high_q.len() == 0 {
                            return;
                        }
                        self.high_q.pop_front();
                    },
                    PriorityLevel::Critical => {
                        if self.critical_q.len() == 0 {
                            return;
                        }
                        self.critical_q.pop_front();
                    },
                    _ => {},
                }
            }
            self.current_len = self.current_len - 1;
        }
        self.enqueue(priority, frame);
    }

    /// Pop the highest priority frame available (Strict Priority Scheduling).
    pub fn pop(&mut self) -> (r: Option<RingilFrame>)
        requires
            old(self)@.wf(),
        ensures
            r == old(self)@.front(),
            final(self)@ == old(self)@.popped(),
            final(self)@.wf(),
    {
        proof {
            lemma_pop_keeps_count(old(self)@);
        }
        let frame = match self.critical_q.pop_front() {
            Some(f) => Some(f),
            None => match self.high_q.pop_front() {
                Some(f) => Some(f),
                None => match self.medium_q.pop_front() {
                    Some(f) => Some(f),
                    None => self.low_q.pop_front(),
                },
            },
        };
        if frame.is_some() {
            self.current_len = self.current_len - 1;
        }
        frame
    }

    /// The counter is zero.
    pub fn is_empty(&self) -> (r: bool)
        ensures
            r == (self@.count == 0),
            self@.wf() ==> (r <==> self@.total() == 0),
    {
        self.current_len == 0
    }
}

} // verus!
