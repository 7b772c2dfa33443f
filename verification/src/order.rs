//! Strictly ordered frame delivery: workers may finish frames in any order,
//! but the sink only ever receives frame `i + 1` after frame `i`.

use vstd::prelude::*;

use crate::frame::Frame;

verus! {

/// Reorder buffer between parallel frame construction and the single-writer
/// sink.  A finished frame is submitted under its index; the buffer releases
/// frames to the delivered sequence in strictly increasing index order, and
/// never holds a released frame back once its predecessors are all in.
///
/// `delivered` is the sink's view: at any point it is exactly the frames
/// with indices `0 .. next`, in index order, whatever order submissions
/// arrived in.
pub struct FrameScheduler {
    /// One slot per frame index; a slot holds a frame from submission until
    /// release.
    slots: Vec<Option<Frame>>,
    /// The next index owed to the sink.
    next: usize,
    /// Frames handed to the sink so far, in delivery order.
    delivered: Vec<Frame>,
    /// Every submission so far: frame model by index.
    completed: Ghost<Map<int, (int, int, Seq<u8>)>>,
}

impl FrameScheduler {
    /// Total number of frame indices this scheduler was built for.
    pub closed spec fn total(self) -> int {
        self.slots@.len() as int
    }

    /// The submissions seen so far, as a map from index to frame model.
    pub closed spec fn completed(self) -> Map<int, (int, int, Seq<u8>)> {
        self.completed@
    }

    /// The frames delivered to the sink so far, in delivery order.
    pub closed spec fn delivered(self) -> Seq<(int, int, Seq<u8>)> {
        self.delivered@.map_values(|f: Frame| f@)
    }

    /// Structural invariant tying the slots, the ghost record of
    /// submissions, and the delivered prefix together.
    pub closed spec fn wf(self) -> bool {
        &&& self.next as int <= self.total()
        &&& self.delivered@.len() == self.next as int
        &&& forall|i: int|
            self.completed@.contains_key(i) ==> 0 <= i < self.total()
        &&& forall|i: int|
            0 <= i < self.next as int ==> self.completed@.contains_key(i)
        &&& forall|i: int|
            0 <= i < self.next as int ==> (#[trigger] self.delivered@[i])@ == self.completed@[i]
        &&& forall|i: int|
            0 <= i < self.next as int ==> self.slots@[i] is None
        &&& forall|i: int|
            self.next as int <= i < self.total() ==> ((#[trigger] self.slots@[i]) is Some
                <==> self.completed@.contains_key(i))
        &&& forall|i: int|
            self.next as int <= i < self.total() && self.slots@[i] is Some
                ==> ((#[trigger] self.slots@[i])->Some_0)@ == self.completed@[i]
        &&& ((self.next as int) < self.total() ==> !self.completed@.contains_key(self.next as int))
    }

    /// Index of the next frame owed to the sink; everything before it has
    /// been delivered, in order.
    pub closed spec fn spec_next(self) -> int {
        self.next as int
    }

    /// Builds a scheduler for `total` frame indices, none submitted yet.
    pub fn new(total: usize) -> (s: FrameScheduler)
        ensures
            s.wf(),
            s.total() == total as int,
            s.spec_next() == 0,
            s.completed() == Map::<int, (int, int, Seq<u8>)>::empty(),
            s.delivered() == Seq::<(int, int, Seq<u8>)>::empty(),
    {
        let mut slots: Vec<Option<Frame>> = Vec::new();
        let mut i: usize = 0;
        while i < total
            invariant
                i <= total,
                slots@.len() == i as int,
                forall|j: int| 0 <= j < i as int ==> slots@[j] is None,
            decreases total - i,
        {
            slots.push(None);
            i = i + 1;
        }
        let s = FrameScheduler {
            slots,
            next: 0,
            delivered: Vec::new(),
            completed: Ghost(Map::empty()),
        };
        proof {
            assert(s.delivered() =~= Seq::<(int, int, Seq<u8>)>::empty());
        }
        s
    }

    /// How many frames have been delivered to the sink.
    pub fn delivered_len(&self) -> (n: usize)
        ensures
            n as int == self.delivered().len(),
    {
        self.delivered.len()
    }

    /// Read access to the delivered frames, in delivery order.
    pub fn delivered_frames(&self) -> (frames: &Vec<Frame>)
        ensures
            frames@.map_values(|f: Frame| f@) == self.delivered(),
    {
        &self.delivered
    }

    /// Hands over the delivered frames, consuming the scheduler.
    pub fn into_delivered(self) -> (frames: Vec<Frame>)
        ensures
            frames@.map_values(|f: Frame| f@) == self.delivered(),
    {
        let FrameScheduler { slots: _, next: _, delivered, completed: _ } = self;
        delivered
    }

    /// Accepts the finished frame for index `i` and releases to the sink
    /// every frame that is now unblocked: afterwards the delivered sequence
    /// is still exactly the submitted frames `0 .. next` in index order,
    /// and `next` cannot advance further without the next submission.
    #[verifier::loop_isolation(false)]
    pub fn submit(&mut self, i: usize, frame: Frame)
        requires
            old(self).wf(),
            0 <= i < old(self).total(),
            !old(self).completed().contains_key(i as int),
        ensures
            final(self).wf(),
            final(self).total() == old(self).total(),
            final(self).completed() == old(self).completed().insert(i as int, frame@),
            final(self).spec_next() >= old(self).spec_next(),
            final(self).delivered() == Seq::new(
                final(self).spec_next() as nat,
                |k: int| final(self).completed()[k],
            ),
    {
        let ghost new_completed = self.completed@.insert(i as int, frame@);
        self.slots.set(i, Some(frame));
        proof {
            self.completed@ = new_completed;
        }
        let mut advancing: bool = true;
        while advancing && self.next < self.slots.len()
            invariant
                self.wf_except_gap(),
                self.total() == old(self).total(),
                self.completed@ == new_completed,
                !advancing ==> (self.next as int == self.total() || self.slots@[self.next as int]
                    is None),
            decreases
                    self.total() - self.next as int,
                    if advancing {
                        1int
                    } else {
                        0int
                    },
        {
            let idx: usize = self.next;
            let maybe: Option<Frame> = match &self.slots[idx] {
                Some(f) => Some(f.clone()),
                None => None,
            };
            match maybe {
                Some(f) => {
                    self.slots.set(idx, None);
                    self.delivered.push(f);
                    self.next = idx + 1;
                },
                None => {
                    advancing = false;
                },
            }
        }
        proof {
            assert(self.wf());
            assert(self.delivered() =~= Seq::new(
                self.spec_next() as nat,
                |k: int| self.completed()[k],
            ));
        }
    }

    /// The invariant minus the guarantee that the frame at `next` is absent:
    /// inside the release loop the gap may already have been filled.
    spec fn wf_except_gap(self) -> bool {
        &&& self.next as int <= self.total()
        &&& self.delivered@.len() == self.next as int
        &&& forall|i: int|
            self.completed@.contains_key(i) ==> 0 <= i < self.total()
        &&& forall|i: int|
            0 <= i < self.next as int ==> self.completed@.contains_key(i)
        &&& forall|i: int|
            0 <= i < self.next as int ==> (#[trigger] self.delivered@[i])@ == self.completed@[i]
        &&& forall|i: int|
            0 <= i < self.next as int ==> self.slots@[i] is None
        &&& forall|i: int|
            self.next as int <= i < self.total() ==> ((#[trigger] self.slots@[i]) is Some
                <==> self.completed@.contains_key(i))
        &&& forall|i: int|
            self.next as int <= i < self.total() && self.slots@[i] is Some
                ==> ((#[trigger] self.slots@[i])->Some_0)@ == self.completed@[i]
    }
}

/// Ordering law: however submissions were interleaved, what the sink has
/// received is always the index-ordered prefix of the submitted frames —
/// frame `k` stands at delivery position `k`, and no frame is delivered
/// before all of its predecessors.
pub proof fn lemma_ordered_delivery(s: FrameScheduler)
    requires
        s.wf(),
    ensures
        s.delivered().len() == s.spec_next() <= s.total(),
        forall|k: int| 0 <= k < s.delivered().len() ==> s.completed().contains_key(k),
        forall|k: int|
            0 <= k < s.delivered().len() ==> #[trigger] s.delivered()[k] == s.completed()[k],
{
}

/// Completeness of delivery: once every index has been submitted, the sink
/// has received every frame, in index order.
pub proof fn lemma_delivery_complete(s: FrameScheduler)
    requires
        s.wf(),
        forall|i: int| 0 <= i < s.total() ==> s.completed().contains_key(i),
    ensures
        s.spec_next() == s.total(),
        s.delivered().len() == s.total(),
        forall|k: int|
            0 <= k < s.total() ==> #[trigger] s.delivered()[k] == s.completed()[k],
{
    if s.spec_next() < s.total() {
        assert(s.completed().contains_key(s.spec_next()));
    }
}

} // verus!
