//! The single-track animation player: an immutable, non-empty timeline of
//! (value, duration) frames and a mutable playback cursor.

use vstd::prelude::*;

use crate::cursor::{
    cursor_wf, find_frame, init_cursor, lemma_find_frame_char, lemma_prefix_sum_agree,
    lemma_prefix_sum_monotone, lemma_prefix_sum_nonneg, lemma_step_preserves_wf, prefix_sum,
    step, total_duration, Cursor,
};

verus! {

/// Why a timeline could not be constructed.
#[derive(Clone, Copy, Debug, PartialEq, Eq, Structural)]
pub enum TimelineError {
    /// The timeline would hold no frames; a timeline must hold at least one.
    EmptyTimeline,
    /// A frame's interpolation duration exceeds the frame's own duration.
    InterpolationTooLong,
}

/// One (value, duration) unit of a timeline. The duration is the amount of
/// elapsed time the frame is displayed before the cursor advances past it.
#[derive(Clone, Debug)]
pub struct Frame<T> {
    pub value: T,
    pub duration: u64,
}

/// A single animation track: a non-empty timeline of frames, fixed at
/// construction, and a playback cursor driven by [`Animation::update`] and
/// [`Animation::reset`].
#[derive(Clone, Debug)]
pub struct Animation<T> {
    frames: Vec<Frame<T>>,
    total: u64,
    current_frame: usize,
    time_elapsed: u64,
    finished: bool,
    done: bool,
    auto_reset: bool,
}

impl<T> Animation<T> {
    /// The durations of the frames, in timeline order.
    pub closed spec fn durations(self) -> Seq<u64> {
        self.frames@.map(|_i: int, f: Frame<T>| f.duration)
    }

    /// The values of the frames, in timeline order.
    pub closed spec fn values(self) -> Seq<T> {
        self.frames@.map(|_i: int, f: Frame<T>| f.value)
    }

    /// The playback cursor.
    pub closed spec fn cursor(self) -> Cursor {
        Cursor {
            idx: self.current_frame as int,
            elapsed: self.time_elapsed as int,
            finished: self.finished,
            done: self.done,
        }
    }

    /// Whether the track restarts at frame 0 on the tick that reaches its
    /// terminal frame, rather than coming to rest there.
    pub closed spec fn is_auto_reset(self) -> bool {
        self.auto_reset
    }

    /// The sum of all frame durations.
    pub open spec fn total_time(self) -> int {
        total_duration(self.durations())
    }

    /// The track's invariant: the cached duration total is right and the
    /// cursor is well formed over the timeline.
    pub closed spec fn wf(self) -> bool {
        &&& self.total == self.total_time()
        &&& cursor_wf(self.durations(), self.cursor())
    }

    /// How a track after an `update` call with delta `dt` relates to the
    /// track before it: same timeline, same auto-reset policy, and the
    /// cursor moved by one step of the cursor state machine.
    pub open spec fn updated_from(self, pre: Animation<T>, dt: int) -> bool {
        &&& self.values() == pre.values()
        &&& self.durations() == pre.durations()
        &&& self.is_auto_reset() == pre.is_auto_reset()
        &&& self.cursor() == step(pre.durations(), pre.is_auto_reset(), pre.cursor(), dt)
    }

    /// How a track after a `reset` call relates to the track before it:
    /// same timeline, same auto-reset policy, cursor back at the start.
    pub open spec fn reset_from(self, pre: Animation<T>) -> bool {
        &&& self.values() == pre.values()
        &&& self.durations() == pre.durations()
        &&& self.is_auto_reset() == pre.is_auto_reset()
        &&& self.cursor() == init_cursor()
    }

    /// Builds a timeline that shows each value for the same `duration`.
    ///
    /// An empty value list is rejected: a timeline must hold at least one
    /// frame. The cursor starts at frame 0 with no elapsed time, and
    /// auto-reset is off.
    #[verifier::loop_isolation(false)]
    pub fn new_single_duration(frame_items: Vec<T>, duration: u64) -> (result: Result<
        Animation<T>,
        TimelineError,
    >)
        requires
            frame_items@.len() * duration <= u64::MAX,
        ensures
            match result {
                Ok(anim) => {
                    &&& anim.wf()
                    &&& anim.values() == frame_items@
                    &&& anim.durations() == Seq::new(frame_items@.len(), |_i: int| duration)
                    &&& anim.cursor() == init_cursor()
                    &&& !anim.is_auto_reset()
                },
                Err(e) => e == TimelineError::EmptyTimeline && frame_items@.len() == 0,
            },
    {
        let ghost orig = frame_items@;
        let ghost dseq = Seq::new(orig.len(), |_i: int| duration);
        if frame_items.len() == 0 {
            return Err(TimelineError::EmptyTimeline);
        }
        proof {
            lemma_const_prefix_sum(dseq, duration, dseq.len() as int);
        }
        let mut items = frame_items;
        let mut frames: Vec<Frame<T>> = Vec::new();
        let mut total: u64 = 0;
        while items.len() > 0
            invariant
                frames@.len() + items@.len() == orig.len(),
                items@ == orig.skip(frames@.len() as int),
                forall|j: int| 0 <= j < frames@.len() ==> frames@[j].value == orig[j],
                forall|j: int| 0 <= j < frames@.len() ==> frames@[j].duration == duration,
                total == prefix_sum(dseq, frames@.len() as int),
                orig.len() * duration <= u64::MAX,
                prefix_sum(dseq, dseq.len() as int) == dseq.len() * duration,
            decreases items@.len(),
        {
            let ghost k = frames@.len() as int;
            let v = items.remove(0);
            proof {
                assert(orig.skip(k)[0] == orig[k]);
                assert(items@ =~= orig.skip(k + 1));
                lemma_prefix_sum_monotone(dseq, k + 1, dseq.len() as int);
                assert(dseq[k] == duration);
            }
            frames.push(Frame { value: v, duration });
            proof {
                assert(frames@[k] == (Frame { value: v, duration }));
            }
            total = total + duration;
        }
        let anim = Animation {
            frames,
            total,
            current_frame: 0,
            time_elapsed: 0,
            finished: false,
            done: false,
            auto_reset: false,
        };
        proof {
            assert forall|j: int| 0 <= j < anim.durations().len() implies anim.durations()[j]
                == dseq[j] by {
                assert(anim.frames@[j].duration == duration);
                assert(anim.durations()[j] == anim.frames@[j].duration);
                assert(dseq[j] == duration);
            }
            assert(anim.durations() =~= dseq);
            assert forall|j: int| 0 <= j < anim.values().len() implies anim.values()[j] == orig[j] by {
                assert(anim.frames@[j].value == orig[j]);
                assert(anim.values()[j] == anim.frames@[j].value);
            }
            assert(anim.values() =~= orig);
            lemma_prefix_sum_agree(anim.durations(), dseq, dseq.len() as int);
            lemma_prefix_sum_nonneg(anim.durations(), anim.durations().len() as int);
        }
        Ok(anim)
    }

    /// Builds a timeline that pairs each value with its own duration.
    ///
    /// Pairing stops at the end of the shorter list: surplus values or
    /// surplus durations are dropped, a documented simplification. The call
    /// is rejected only when no pair at all can be formed. The cursor starts
    /// at frame 0 with no elapsed time, and auto-reset is off.
    #[verifier::loop_isolation(false)]
    pub fn new_multiple_durations(frame_items: Vec<T>, durations: Vec<u64>) -> (result: Result<
        Animation<T>,
        TimelineError,
    >)
        requires
            total_duration(
                durations@.take(
                    if frame_items@.len() <= durations@.len() {
                        frame_items@.len() as int
                    } else {
                        durations@.len() as int
                    },
                ),
            ) <= u64::MAX,
        ensures
            ({
                let m = if frame_items@.len() <= durations@.len() {
                    frame_items@.len() as int
                } else {
                    durations@.len() as int
                };
                match result {
                    Ok(anim) => {
                        &&& anim.wf()
                        &&& anim.values() == frame_items@.take(m)
                        &&& anim.durations() == durations@.take(m)
                        &&& anim.cursor() == init_cursor()
                        &&& !anim.is_auto_reset()
                    },
                    Err(e) => e == TimelineError::EmptyTimeline && m == 0,
                }
            }),
    {
        let ghost orig = frame_items@;
        let ghost odurs = durations@;
        let m: usize = if frame_items.len() <= durations.len() {
            frame_items.len()
        } else {
            durations.len()
        };
        if m == 0 {
            return Err(TimelineError::EmptyTimeline);
        }
        let ghost dseq = odurs.take(m as int);
        let mut items = frame_items;
        let mut frames: Vec<Frame<T>> = Vec::new();
        let mut total: u64 = 0;
        let mut k: usize = 0;
        while k < m
            invariant
                k <= m,
                m <= orig.len() && m <= odurs.len(),
                frames@.len() == k,
                items@ == orig.skip(k as int),
                durations@ == odurs,
                forall|j: int| 0 <= j < k ==> frames@[j].value == orig[j],
                forall|j: int| 0 <= j < k ==> frames@[j].duration == odurs[j],
                total == prefix_sum(odurs, k as int),
                total_duration(dseq) <= u64::MAX,
                dseq == odurs.take(m as int),
            decreases m - k,
        {
            let ghost ki = k as int;
            let v = items.remove(0);
            let d = durations[k];
            proof {
                assert(orig.skip(ki)[0] == orig[ki]);
                lemma_prefix_sum_agree(odurs, dseq, ki + 1);
                lemma_prefix_sum_monotone(dseq, ki + 1, m as int);
                assert(items@ =~= orig.skip(ki + 1));
                assert(dseq[ki] == odurs[ki]);
            }
            frames.push(Frame { value: v, duration: d });
            proof {
                assert(frames@[ki] == (Frame { value: v, duration: d }));
            }
            total = total + d;
            k = k + 1;
        }
        let anim = Animation {
            frames,
            total,
            current_frame: 0,
            time_elapsed: 0,
            finished: false,
            done: false,
            auto_reset: false,
        };
        proof {
            assert forall|j: int| 0 <= j < anim.durations().len() implies anim.durations()[j]
                == dseq[j] by {
                assert(anim.frames@[j].duration == odurs[j]);
                assert(anim.durations()[j] == anim.frames@[j].duration);
                assert(dseq[j] == odurs[j]);
            }
            assert(anim.durations() =~= dseq);
            assert forall|j: int| 0 <= j < anim.values().len() implies anim.values()[j] == orig.take(
                m as int,
            )[j] by {
                assert(anim.frames@[j].value == orig[j]);
                assert(anim.values()[j] == anim.frames@[j].value);
                assert(orig.take(m as int)[j] == orig[j]);
            }
            assert(anim.values() =~= orig.take(m as int));
            lemma_prefix_sum_agree(anim.durations(), odurs, m as int);
            lemma_prefix_sum_agree(odurs, dseq, m as int);
            lemma_prefix_sum_nonneg(anim.durations(), anim.durations().len() as int);
        }
        Ok(anim)
    }

    /// Advances the cursor by the elapsed-time delta `dt`.
    ///
    /// The `finished` pulse is cleared first. Then `dt` is added to the time
    /// spent in the current frame and the cursor moves past every frame whose
    /// duration is covered, carrying leftover time into the next frame.
    /// Reaching the end of the timeline pulses `finished`; the track then
    /// either restarts at frame 0 with the leftover time (auto-reset) or
    /// comes to rest on the terminal frame until it is reset.
    #[verifier::loop_isolation(false)]
    pub fn update(&mut self, dt: u64)
        requires
            old(self).wf(),
            old(self).total_time() + dt <= u64::MAX,
        ensures
            final(self).wf(),
            final(self).updated_from(*old(self), dt as int),
    {
        let ghost durs = self.durations();
        let ghost pre = self.cursor();
        proof {
            lemma_step_preserves_wf(durs, self.auto_reset, pre, dt as int);
            lemma_prefix_sum_nonneg(durs, pre.idx);
        }
        if self.done {
            self.finished = false;
            return;
        }
        let mut p: u64 = self.time_elapsed;
        let mut j: usize = 0;
        proof {
            lemma_prefix_sum_monotone(durs, pre.idx, durs.len() as int);
        }
        while j < self.current_frame
            invariant
                j <= self.current_frame,
                p == prefix_sum(durs, j as int) + self.time_elapsed,
            decreases self.current_frame - j,
        {
            proof {
                lemma_prefix_sum_monotone(durs, j + 1, pre.idx);
            }
            p = p + self.frames[j].duration;
            j = j + 1;
        }
        let r: u64 = p + dt;
        let total: u64 = self.total;
        if self.auto_reset {
            if total == 0 {
                self.current_frame = 0;
                self.time_elapsed = 0;
                self.finished = true;
                return;
            }
            self.finished = r >= total;
            let mut rem: u64 = r % total;
            let ghost rm = rem as int;
            proof {
                lemma_find_frame_char(durs, 0, rm);
            }
            let mut i: usize = 0;
            while i + 1 < self.frames.len() && rem >= self.frames[i].duration
                invariant
                    0 <= i < self.frames.len(),
                    find_frame(durs, i as int, rem as int) == find_frame(durs, 0, rm),
                decreases self.frames.len() - i,
            {
                rem = rem - self.frames[i].duration;
                i = i + 1;
            }
            self.current_frame = i;
            self.time_elapsed = rem;
        } else {
            if r >= total {
                self.current_frame = self.frames.len() - 1;
                self.time_elapsed = 0;
                self.finished = true;
                self.done = true;
                return;
            }
            self.finished = false;
            let mut rem: u64 = r;
            proof {
                lemma_find_frame_char(durs, 0, r as int);
            }
            let mut i: usize = 0;
            while i + 1 < self.frames.len() && rem >= self.frames[i].duration
                invariant
                    0 <= i < self.frames.len(),
                    find_frame(durs, i as int, rem as int) == find_frame(durs, 0, r as int),
                decreases self.frames.len() - i,
            {
                rem = rem - self.frames[i].duration;
                i = i + 1;
            }
            self.current_frame = i;
            self.time_elapsed = rem;
        }
    }

    /// Returns the cursor to the start of the timeline: frame 0, no elapsed
    /// time, no pulse. Auto-reset and the frames themselves are untouched.
    pub fn reset(&mut self)
        requires
            old(self).wf(),
        ensures
            final(self).wf(),
            final(self).reset_from(*old(self)),
    {
        proof {
            lemma_prefix_sum_nonneg(
                old(self).durations(),
                old(self).durations().len() as int,
            );
        }
        self.current_frame = 0;
        self.time_elapsed = 0;
        self.finished = false;
        self.done = false;
    }

    /// The value of the frame the cursor currently stands on.
    pub fn get_frame(&self) -> (result: &T)
        requires
            self.wf(),
        ensures
            *result == self.values()[self.cursor().idx],
    {
        &self.frames[self.current_frame].value
    }

    /// Whether the terminal frame was reached on the most recent `update`
    /// call. A one-tick pulse: it must be sampled right after that call.
    pub fn is_finished(&self) -> (result: bool)
        ensures
            result == self.cursor().finished,
    {
        self.finished
    }

    /// The index of the frame the cursor currently stands on.
    pub fn current_index(&self) -> (result: usize)
        ensures
            result == self.cursor().idx,
    {
        self.current_frame
    }

    /// Whether the track restarts at frame 0 upon reaching its terminal
    /// frame.
    pub fn auto_reset(&self) -> (result: bool)
        ensures
            result == self.is_auto_reset(),
    {
        self.auto_reset
    }

    /// Turns auto-reset on or off. The timeline and the cursor are untouched.
    pub fn set_auto_reset(&mut self, auto_reset: bool)
        requires
            old(self).wf(),
        ensures
            final(self).wf(),
            final(self).is_auto_reset() == auto_reset,
            final(self).values() == old(self).values(),
            final(self).durations() == old(self).durations(),
            final(self).cursor() == old(self).cursor(),
    {
        self.auto_reset = auto_reset;
    }
}

/// A prefix sum over a timeline whose durations are all equal is a product.
pub(crate) proof fn lemma_const_prefix_sum(durs: Seq<u64>, duration: u64, i: int)
    requires
        i <= durs.len(),
        forall|j: int| 0 <= j < durs.len() ==> durs[j] == duration,
    ensures
        prefix_sum(durs, i) == if i <= 0 {
            0
        } else {
            i * duration
        },
    decreases i,
{
    if i > 0 {
        lemma_const_prefix_sum(durs, duration, i - 1);
        assert((i - 1) * duration + duration == i * duration) by (nonlinear_arith);
    }
}

} // verus!
