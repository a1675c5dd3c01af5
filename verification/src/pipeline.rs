//! The buffering half of the real-time audio pipeline.
//!
//! Each tick, the engine drains every audio-out module's frames, mixes
//! them (the mixing arithmetic is the embedder's, on the engine thread),
//! and hands the mixed frames here. Whenever the partial block grows to
//! exactly [`BLOCK_SIZE`] frames it is handed back whole for the
//! dynamic-range compression stage, and the compressed block is enqueued
//! on a bounded ring consumed by the hardware output callback; partial
//! blocks persist across ticks. When engine ticks outpace the hardware
//! drain, the oldest pending frames are overwritten rather than ever
//! blocking the real-time thread.

use vstd::prelude::*;

use crate::sample::Frame;

verus! {

/// Frames per compressed block.
pub const BLOCK_SIZE: usize = 512;

/// Capacity, in frames, of the ring consumed by the output callback.
pub const STREAM_CAPACITY: usize = 16384;

/// `j` reduced into `[0, cap)`, for `j < 2 * cap`.
pub open spec fn wrap_index(j: int, cap: int) -> int {
    if j >= cap {
        j - cap
    } else {
        j
    }
}

/// Append to a bounded sequence: on overflow the oldest entry leaves.
pub open spec fn bounded_append(v: Seq<Frame>, f: Frame, cap: int) -> Seq<Frame> {
    if v.len() < cap {
        v.push(f)
    } else {
        v.skip(1).push(f)
    }
}

/// `bounded_append`, frame by frame.
pub open spec fn bounded_extend(v: Seq<Frame>, s: Seq<Frame>, cap: int) -> Seq<Frame>
    decreases s.len(),
{
    if s.len() == 0 {
        v
    } else {
        bounded_append(bounded_extend(v, s.drop_last(), cap), s.last(), cap)
    }
}

/// A bounded sequence holds the newest `cap` frames: extending it keeps
/// exactly the tail of the concatenation.
pub proof fn lemma_bounded_extend_tail(v: Seq<Frame>, s: Seq<Frame>, cap: int)
    requires
        cap >= 1,
        v.len() <= cap,
    ensures
        bounded_extend(v, s, cap) =~= (v + s).skip(
            if v.len() + s.len() > cap {
                v.len() + s.len() - cap
            } else {
                0
            },
        ),
    decreases s.len(),
{
    if s.len() == 0 {
        assert((v + s) =~= v);
    } else {
        lemma_bounded_extend_tail(v, s.drop_last(), cap);
        let a = if v.len() + s.len() - 1 > cap {
            v.len() + s.len() - 1 - cap
        } else {
            0
        };
        let t = bounded_extend(v, s.drop_last(), cap);
        assert(t =~= (v + s.drop_last()).skip(a));
        if t.len() < cap {
            assert(bounded_extend(v, s, cap) =~= (v + s.drop_last()).skip(a).push(s.last()));
            assert((v + s.drop_last()).skip(a).push(s.last()) =~= (v + s).skip(a));
        } else {
            assert(bounded_extend(v, s, cap) =~= (v + s.drop_last()).skip(a).skip(1).push(
                s.last(),
            ));
            assert((v + s.drop_last()).skip(a).skip(1) =~= (v + s.drop_last()).skip(a + 1));
            assert((v + s.drop_last()).skip(a + 1).push(s.last()) =~= (v + s).skip(a + 1));
        }
    }
}

/// A bounded ring of stereo frames, oldest first. Pushing onto a full
/// ring overwrites the oldest frame; the hardware callback pops from the
/// front.
pub struct RingBuffer {
    data: Vec<Frame>,
    head: usize,
    count: usize,
}

impl View for RingBuffer {
    type V = Seq<Frame>;

    closed spec fn view(&self) -> Seq<Frame> {
        Seq::new(
            self.count as nat,
            |i: int| self.data@[wrap_index(self.head + i, self.data@.len() as int)],
        )
    }
}

impl RingBuffer {
    /// The fixed capacity.
    pub closed spec fn cap(&self) -> int {
        self.data@.len() as int
    }

    pub closed spec fn wf(&self) -> bool {
        &&& 1 <= self.data@.len()
        &&& self.data@.len() <= (usize::MAX as int) / 2
        &&& (self.head as int) < self.data@.len()
        &&& self.count <= self.data@.len()
    }

    /// An empty ring of capacity `cap`.
    pub fn new(cap: usize) -> (r: RingBuffer)
        requires
            1 <= cap <= usize::MAX / 2,
        ensures
            r.wf(),
            r.cap() == cap,
            r@ =~= Seq::<Frame>::empty(),
    {
        let mut data: Vec<Frame> = Vec::new();
        let mut i: usize = 0;
        while i < cap
            invariant
                data@.len() == i,
                0 <= i <= cap,
            decreases cap - i,
        {
            data.push(Frame { left: crate::sample::Sample { bits: 0 }, right: crate::sample::Sample { bits: 0 } });
            i = i + 1;
        }
        RingBuffer { data, head: 0, count: 0 }
    }

    /// Number of frames waiting.
    pub fn len(&self) -> (n: usize)
        ensures
            n == self@.len(),
    {
        self.count
    }

    /// The fixed capacity.
    pub fn capacity(&self) -> (n: usize)
        ensures
            n == self.cap(),
    {
        self.data.len()
    }

    /// Append one frame; a full ring drops its oldest frame to make room.
    pub fn push(&mut self, f: Frame)
        requires
            old(self).wf(),
        ensures
            final(self).wf(),
            final(self).cap() == old(self).cap(),
            final(self)@ =~= bounded_append(old(self)@, f, old(self).cap()),
    {
        let cap = self.data.len();
        let mut pos = self.head + self.count;
        if pos >= cap {
            pos = pos - cap;
        }
        if self.count == cap {
            self.data[pos] = f;
            self.head = if self.head + 1 == cap {
                0
            } else {
                self.head + 1
            };
            proof {
                assert forall|i: int| 0 <= i < self@.len() implies self@[i] == bounded_append(
                    old(self)@,
                    f,
                    old(self).cap(),
                )[i] by {
                    let c = old(self).cap();
                    let h = old(self).head as int;
                    if i < c - 1 {
                        assert(wrap_index(self.head + i, c) == wrap_index(h + 1 + i, c));
                        assert(wrap_index(h + 1 + i, c) != h);
                        assert(old(self)@[i + 1] == old(self).data@[wrap_index(h + i + 1, c)]);
                    } else {
                        assert(wrap_index(self.head + i, c) == h);
                    }
                }
            }
        } else {
            self.data[pos] = f;
            self.count = self.count + 1;
            proof {
                assert forall|i: int| 0 <= i < self@.len() implies self@[i] == bounded_append(
                    old(self)@,
                    f,
                    old(self).cap(),
                )[i] by {
                    let c = old(self).cap();
                    let h = old(self).head as int;
                    let n0 = old(self).count as int;
                    if i < n0 {
                        assert(wrap_index(h + i, c) != wrap_index(h + n0, c));
                    } else {
                        assert(wrap_index(h + i, c) == pos as int);
                    }
                }
            }
        }
    }

    /// Take the oldest frame, if any.
    pub fn pop(&mut self) -> (r: Option<Frame>)
        requires
            old(self).wf(),
        ensures
            final(self).wf(),
            final(self).cap() == old(self).cap(),
            match r {
                Some(f) => old(self)@.len() > 0 && f == old(self)@[0]
                    && final(self)@ =~= old(self)@.skip(1),
                None => old(self)@.len() == 0 && final(self)@ =~= old(self)@,
            },
    {
        if self.count == 0 {
            return None;
        }
        let f = self.data[self.head];
        self.head = if self.head + 1 == self.data.len() {
            0
        } else {
            self.head + 1
        };
        self.count = self.count - 1;
        proof {
            assert forall|i: int| 0 <= i < self@.len() implies self@[i] == old(self)@.skip(1)[i] by {
                let c = old(self).cap();
                let h = old(self).head as int;
                assert(wrap_index(self.head + i, c) == wrap_index(h + 1 + i, c));
                assert(old(self)@[i + 1] == old(self).data@[wrap_index(h + i + 1, c)]);
            }
        }
        Some(f)
    }
}

/// The engine-side state of the audio output path: the partial block
/// being accumulated, and the bounded ring the device callback drains.
pub struct AudioPipeline {
    pending: Vec<Frame>,
    stream: RingBuffer,
}

impl AudioPipeline {
    /// The partial block accumulated so far.
    pub closed spec fn pending_view(&self) -> Seq<Frame> {
        self.pending@
    }

    /// The compressed frames waiting for the device callback.
    pub closed spec fn stream_view(&self) -> Seq<Frame> {
        self.stream@
    }

    pub closed spec fn wf(&self) -> bool {
        self.stream.wf() && self.stream.cap() == STREAM_CAPACITY
    }

    /// An empty pipeline.
    pub fn new() -> (r: AudioPipeline)
        ensures
            r.wf(),
            r.pending_view() =~= Seq::<Frame>::empty(),
            r.stream_view() =~= Seq::<Frame>::empty(),
    {
        AudioPipeline { pending: Vec::new(), stream: RingBuffer::new(STREAM_CAPACITY) }
    }

    /// Frames in the partial block.
    pub fn pending_len(&self) -> (n: usize)
        ensures
            n == self.pending_view().len(),
    {
        self.pending.len()
    }

    /// Frames waiting for the device callback.
    pub fn stream_len(&self) -> (n: usize)
        ensures
            n == self.stream_view().len(),
    {
        self.stream.len()
    }

    /// Accumulate this tick's mixed frames. Exactly when the partial
    /// block thereby reaches [`BLOCK_SIZE`] frames, it is returned whole
    /// for compression and the accumulator resets; otherwise the frames
    /// simply join the partial block, which persists across ticks.
    pub fn push_frames(&mut self, mixed: &Vec<Frame>) -> (block: Option<Vec<Frame>>)
        requires
            old(self).wf(),
            old(self).pending_view().len() + mixed@.len() <= usize::MAX,
        ensures
            final(self).wf(),
            final(self).stream_view() == old(self).stream_view(),
            old(self).pending_view().len() + mixed@.len() == BLOCK_SIZE ==> (block matches Some(b)
                && b@ =~= old(self).pending_view() + mixed@ && final(self).pending_view().len()
                == 0),
            old(self).pending_view().len() + mixed@.len() != BLOCK_SIZE ==> (block is None
                && final(self).pending_view() =~= old(self).pending_view() + mixed@),
    {
        let n = mixed.len();
        let mut i: usize = 0;
        while i < n
            invariant
                n == mixed@.len(),
                0 <= i <= n,
                self.pending@.len() + n <= usize::MAX + i,
                self.pending@ == old(self).pending_view() + mixed@.take(i as int),
                self.stream == old(self).stream,
                self.wf(),
            decreases n - i,
        {
            self.pending.push(mixed[i]);
            proof {
                assert(old(self).pending_view() + mixed@.take(i + 1) =~= (old(
                    self,
                ).pending_view() + mixed@.take(i as int)).push(mixed@[i as int]));
            }
            i = i + 1;
        }
        proof {
            assert(mixed@.take(n as int) =~= mixed@);
        }
        if self.pending.len() == BLOCK_SIZE {
            let m = self.pending.len();
            let mut b: Vec<Frame> = Vec::new();
            let mut j: usize = 0;
            while j < m
                invariant
                    m == self.pending@.len(),
                    0 <= j <= m,
                    b@ == self.pending@.take(j as int),
                    self.stream == old(self).stream,
                    self.wf(),
                decreases m - j,
            {
                b.push(self.pending[j]);
                proof {
                    assert(self.pending@.take(j + 1) =~= self.pending@.take(j as int).push(
                        self.pending@[j as int],
                    ));
                }
                j = j + 1;
            }
            proof {
                assert(self.pending@.take(m as int) =~= self.pending@);
            }
            self.pending.clear();
            Some(b)
        } else {
            None
        }
    }

    /// Enqueue one compressed block for the device callback; when the
    /// ring is full, the oldest pending output is overwritten rather
    /// than ever blocking.
    pub fn enqueue_block(&mut self, block: &Vec<Frame>)
        requires
            old(self).wf(),
        ensures
            final(self).wf(),
            final(self).pending_view() == old(self).pending_view(),
            final(self).stream_view() =~= bounded_extend(
                old(self).stream_view(),
                block@,
                STREAM_CAPACITY as int,
            ),
    {
        let n = block.len();
        let mut i: usize = 0;
        while i < n
            invariant
                n == block@.len(),
                0 <= i <= n,
                self.wf(),
                self.pending == old(self).pending,
                self.stream@ =~= bounded_extend(
                    old(self).stream_view(),
                    block@.take(i as int),
                    STREAM_CAPACITY as int,
                ),
            decreases n - i,
        {
            self.stream.push(block[i]);
            proof {
                assert(block@.take(i + 1).drop_last() =~= block@.take(i as int));
                assert(block@.take(i + 1).last() == block@[i as int]);
            }
            i = i + 1;
        }
        proof {
            assert(block@.take(n as int) =~= block@);
        }
    }

    /// Hand the oldest compressed frame to the device callback, if one
    /// waits; the hardware underruns to silence on an empty ring rather
    /// than ever blocking the tick loop.
    pub fn pop_frame(&mut self) -> (r: Option<Frame>)
        requires
            old(self).wf(),
        ensures
            final(self).wf(),
            final(self).pending_view() == old(self).pending_view(),
            match r {
                Some(f) => old(self).stream_view().len() > 0 && f == old(self).stream_view()[0]
                    && final(self).stream_view() =~= old(self).stream_view().skip(1),
                None => old(self).stream_view().len() == 0
                    && final(self).stream_view() =~= old(self).stream_view(),
            },
    {
        self.stream.pop()
    }
}

} // verus!
