//! The triple-buffered frame store: three fixed-size slots, the index of the
//! last published ("ready") slot and the index of the slot last written.
use vstd::prelude::*;
use crate::detector::{calculate_motion_bbox, is_motion_report, MotionROI};

verus! {

/// Number of frame slots in the arena.
pub const SLOT_COUNT: usize = 3;

/// One frame slot: `width * height * 3` interleaved bytes.
pub struct FrameBuffer {
    pub data: Vec<u8>,
}

/// The arena as a value: the bytes of each slot, the ready slot and the
/// slot last written.
pub struct ArenaView {
    pub slots: Seq<Seq<u8>>,
    pub ready: int,
    pub write: int,
}

/// The slot the producer fills next: the one after the slot it wrote last,
/// skipping the ready slot.
pub open spec fn next_write_spec(ready: int, current: int) -> int {
    let n = (current + 1) % 3;
    if n == ready {
        (n + 1) % 3
    } else {
        n
    }
}

/// One capture cycle: fill the next write slot with `frame` and publish it.
pub open spec fn cycle(v: ArenaView, frame: Seq<u8>) -> ArenaView {
    let w = next_write_spec(v.ready, v.write);
    ArenaView { slots: v.slots.update(w, frame), ready: w, write: w }
}

/// The arena after publishing each of `frames` in turn.
pub open spec fn after_cycles(v: ArenaView, frames: Seq<Seq<u8>>) -> ArenaView
    decreases frames.len(),
{
    if frames.len() == 0 {
        v
    } else {
        cycle(after_cycles(v, frames.drop_last()), frames.last())
    }
}

/// Three slots of `frame_size` bytes and two indices below three.
pub open spec fn view_wf(v: ArenaView, frame_size: int) -> bool {
    &&& v.slots.len() == SLOT_COUNT
    &&& forall|i: int| 0 <= i < SLOT_COUNT ==> (#[trigger] v.slots[i]).len() == frame_size
    &&& 0 <= v.ready < SLOT_COUNT
    &&& 0 <= v.write < SLOT_COUNT
}

/// The slot chosen for writing is never the ready slot, nor the slot written last.
pub proof fn lemma_write_slot_is_free(ready: int, current: int)
    requires
        0 <= ready < SLOT_COUNT,
        0 <= current < SLOT_COUNT,
    ensures
        0 <= next_write_spec(ready, current) < SLOT_COUNT,
        next_write_spec(ready, current) != ready,
        next_write_spec(ready, current) != current,
{
}

/// Over any sequence of publish cycles the arena stays well formed, no cycle
/// writes into the slot that is ready while it writes, and after at least one
/// cycle the ready slot holds exactly the frame published last.
pub proof fn lemma_publish_cycles(v: ArenaView, frames: Seq<Seq<u8>>, frame_size: int)
    requires
        view_wf(v, frame_size),
        forall|k: int| 0 <= k < frames.len() ==> (#[trigger] frames[k]).len() == frame_size,
    ensures
        view_wf(after_cycles(v, frames), frame_size),
        forall|k: int|
            0 <= k < frames.len() ==> {
                let before = #[trigger] after_cycles(v, frames.take(k));
                next_write_spec(before.ready, before.write) != before.ready
            },
        frames.len() > 0 ==> after_cycles(v, frames).slots[after_cycles(v, frames).ready] == frames.last(),
    decreases frames.len(),
{
    if frames.len() > 0 {
        let init = frames.drop_last();
        assert forall|k: int| 0 <= k < init.len() implies (#[trigger] init[k]).len() == frame_size by {
            assert(init[k] == frames[k]);
        }
        lemma_publish_cycles(v, init, frame_size);
        let prev = after_cycles(v, init);
        lemma_write_slot_is_free(prev.ready, prev.write);
        assert forall|k: int| 0 <= k < frames.len() implies {
            let before = #[trigger] after_cycles(v, frames.take(k));
            next_write_spec(before.ready, before.write) != before.ready
        } by {
            assert(frames.take(k) == init.take(k) || k == init.len());
            if k == init.len() {
                assert(frames.take(k) == init);
            } else {
                assert(frames.take(k) == init.take(k));
            }
        }
    }
}

/// The first slot, in index order, that is neither `ready` nor `write`.
pub open spec fn reference_index_spec(ready: int, write: int) -> int {
    if ready != 0 && write != 0 {
        0
    } else if ready != 1 && write != 1 {
        1
    } else {
        2
    }
}

/// The cold slot for a ready slot and a slot last written: the first one
/// that is neither.
pub fn reference_index(ready: usize, write: usize) -> (r: usize)
    requires
        ready < SLOT_COUNT,
        write < SLOT_COUNT,
    ensures
        r == reference_index_spec(ready as int, write as int),
        r < SLOT_COUNT,
        r != ready,
        r != write,
        r == 1 ==> ready == 0 || write == 0,
        r == 2 ==> (ready == 0 || write == 0) && (ready == 1 || write == 1),
{
    if ready != 0 && write != 0 {
        0
    } else if ready != 1 && write != 1 {
        1
    } else {
        2
    }
}

/// The slot the producer fills after writing `current` while `ready` is published.
pub fn next_write_index(ready: usize, current: usize) -> (r: usize)
    requires
        ready < SLOT_COUNT,
        current < SLOT_COUNT,
    ensures
        r == next_write_spec(ready as int, current as int),
        r < SLOT_COUNT,
        r != ready,
        r != current,
{
    let n = (current + 1) % SLOT_COUNT;
    if n == ready {
        (n + 1) % SLOT_COUNT
    } else {
        n
    }
}

/// The arena: three slots, the ready index and the index last written.
pub struct TripleBufferState {
    pub slots: Vec<FrameBuffer>,
    pub write_idx: usize,
    pub ready_idx: usize,
    pub frame_size: usize,
}

impl TripleBufferState {
    pub open spec fn view(&self) -> ArenaView {
        ArenaView {
            slots: Seq::new(self.slots@.len(), |i: int| self.slots@[i].data@),
            ready: self.ready_idx as int,
            write: self.write_idx as int,
        }
    }

    pub open spec fn wf(&self) -> bool {
        view_wf(self.view(), self.frame_size as int)
    }

    /// An arena of three zeroed slots of `frame_size` bytes, slot 2 ready and
    /// slot 0 last written.
    pub fn new(frame_size: usize) -> (r: Self)
        ensures
            r.wf(),
            r.frame_size == frame_size,
            r.ready_idx == 2,
            r.write_idx == 0,
            forall|i: int| 0 <= i < SLOT_COUNT ==> #[trigger] r.view().slots[i] == Seq::new(frame_size as nat, |j: int| 0u8),
    {
        let mut slots: Vec<FrameBuffer> = Vec::new();
        let mut k: usize = 0;
        while k < SLOT_COUNT
            invariant
                k <= SLOT_COUNT,
                slots@.len() == k,
                forall|i: int| 0 <= i < k ==> #[trigger] slots@[i].data@ == Seq::new(frame_size as nat, |j: int| 0u8),
            decreases SLOT_COUNT - k,
        {
            let data = vec![0u8; frame_size];
            proof {
                assert(data@ == Seq::new(frame_size as nat, |j: int| 0u8));
            }
            slots.push(FrameBuffer { data });
            k = k + 1;
        }
        let r = TripleBufferState { slots, write_idx: 0, ready_idx: 2, frame_size };
        proof {
            assert forall|i: int| 0 <= i < SLOT_COUNT implies #[trigger] r.view().slots[i] == Seq::new(frame_size as nat, |j: int| 0u8) by {}
        }
        r
    }

    /// The slot the next capture cycle fills: never the ready slot.
    pub fn acquire_write_index(&self) -> (r: usize)
        requires
            self.wf(),
        ensures
            r == next_write_spec(self.ready_idx as int, self.write_idx as int),
            r < SLOT_COUNT,
            r != self.ready_idx,
    {
        next_write_index(self.ready_idx, self.write_idx)
    }

    /// One capture cycle with a complete frame: copies `frame` into the slot
    /// chosen by `acquire_write_index`, then publishes that slot.
    pub fn publish_frame(&mut self, frame: &[u8])
        requires
            old(self).wf(),
            frame@.len() == old(self).frame_size,
        ensures
            final(self).wf(),
            final(self).frame_size == old(self).frame_size,
            final(self).view() == cycle(old(self).view(), frame@),
    {
        let w = self.acquire_write_index();
        proof {
            assert(self.view().slots[w as int].len() == self.frame_size);
        }
        let mut data: Vec<u8> = Vec::new();
        std::mem::swap(&mut data, &mut self.slots[w].data);
        let mut i: usize = 0;
        while i < frame.len()
            invariant
                i <= frame@.len(),
                data@.len() == frame@.len(),
                forall|j: int| 0 <= j < i ==> data@[j] == frame@[j],
            decreases frame@.len() - i,
        {
            data.set(i, frame[i]);
            i = i + 1;
        }
        std::mem::swap(&mut data, &mut self.slots[w].data);
        self.ready_idx = w;
        self.write_idx = w;
        proof {
            assert(self.slots@[w as int].data@ =~= frame@);
            assert(self.view().slots =~= cycle(old(self).view(), frame@).slots);
        }
    }

    /// A copy of the ready slot.
    pub fn read_latest(&self) -> (r: Vec<u8>)
        requires
            self.wf(),
        ensures
            r@ == self.view().slots[self.ready_idx as int],
    {
        let src = &self.slots[self.ready_idx].data;
        let mut out: Vec<u8> = Vec::with_capacity(src.len());
        let mut i: usize = 0;
        while i < src.len()
            invariant
                i <= src@.len(),
                out@ == src@.take(i as int),
            decreases src@.len() - i,
        {
            out.push(src[i]);
            i = i + 1;
            proof {
                assert(out@ =~= src@.take(i as int));
            }
        }
        proof {
            assert(out@ =~= src@);
        }
        out
    }

    /// The cold slot: the first that is neither ready nor last written.
    pub fn cold_index(&self) -> (r: usize)
        requires
            self.wf(),
        ensures
            r == reference_index_spec(self.ready_idx as int, self.write_idx as int),
            r < SLOT_COUNT,
            r != self.ready_idx,
            r != self.write_idx,
    {
        reference_index(self.ready_idx, self.write_idx)
    }

    /// The watchdog on the ready slot against the cold slot.
    pub fn detect_motion(&self, width: usize, height: usize, step: usize) -> (r: Option<MotionROI>)
        requires
            self.wf(),
            width > 0,
            step > 0,
            step * 3 <= usize::MAX,
            self.frame_size <= u32::MAX,
        ensures
            is_motion_report(
                self.view().slots[self.ready_idx as int],
                self.view().slots[reference_index_spec(self.ready_idx as int, self.write_idx as int)],
                width as int,
                step as int,
                r,
            ),
    {
        let c = self.cold_index();
        proof {
            assert(self.view().slots[self.ready_idx as int].len() == self.frame_size);
        }
        calculate_motion_bbox(self.slots[self.ready_idx].data.as_slice(), self.slots[c].data.as_slice(), width, height, step)
    }
}

} // verus!
