//! The interpolating animation player: the same cursor state machine as the
//! plain player, but the shown value blends toward the next frame's value
//! over a trailing sub-interval of each frame's duration.
//!
//! The authored timeline is immutable: the blended value is derived fresh
//! from the two relevant authored frames and the cursor each time it is
//! asked for, so a reset always gets the authored values back.

use vstd::prelude::*;

use crate::animation::TimelineError;
use crate::cursor::{
    cursor_wf, find_frame, init_cursor, lemma_find_frame_char, lemma_prefix_sum_agree,
    lemma_prefix_sum_monotone, lemma_prefix_sum_nonneg, lemma_step_preserves_wf, prefix_sum,
    step, total_duration, Cursor,
};

verus! {

/// The blend capability: a value type that can produce an intermediate
/// value between two values of the type, at a fraction given as the ratio
/// `num / den` with `num <= den` (so the fraction lies in [0, 1]).
pub trait Interpolatable: Sized {
    /// What blending means for this type: the value at fraction `num / den`
    /// of the way from `self` to `end`.
    spec fn lerp_spec(self, end: Self, num: int, den: int) -> Self;

    /// Blends from `self` toward `end` by the fraction `num / den`.
    fn lerp(&self, end: &Self, num: u64, den: u64) -> (result: Self)
        requires
            0 < den,
            num <= den,
        ensures
            result == self.lerp_spec(*end, num as int, den as int),
    ;
}

/// One frame of an interpolating timeline: a value, the duration for which
/// the frame is current, and the length of the trailing sub-interval of
/// that duration during which the shown value blends toward the next
/// frame's value. The interpolation duration never exceeds the duration.
#[derive(Clone, Debug)]
pub struct InterpolatedFrame<T> {
    pub value: T,
    pub duration: u64,
    pub interpolation_duration: u64,
}

/// The value shown for a cursor standing over an interpolating timeline.
///
/// Within the blend window — the trailing `interpolation_duration` of the
/// current frame — the value is the blend of the current and the next
/// authored values at the fraction of the window already covered. Outside
/// the window, and always on the terminal frame, it is the authored value.
pub open spec fn blended_value<T: Interpolatable>(
    values: Seq<T>,
    durs: Seq<u64>,
    interps: Seq<u64>,
    c: Cursor,
) -> T {
    let dur = durs[c.idx];
    let interp = interps[c.idx];
    if c.idx + 1 < values.len() && interp > 0 && c.elapsed > dur - interp {
        values[c.idx].lerp_spec(values[c.idx + 1], c.elapsed - (dur - interp), interp as int)
    } else {
        values[c.idx]
    }
}

/// The number of frames formed when pairing each value with its own
/// duration and interpolation duration: pairing stops at the end of the
/// shortest of the three lists.
pub open spec fn paired_len(n_values: int, n_durations: int, n_interpolations: int) -> int {
    if n_values <= n_durations && n_values <= n_interpolations {
        n_values
    } else if n_durations <= n_interpolations {
        n_durations
    } else {
        n_interpolations
    }
}

/// A single interpolating animation track: a non-empty immutable timeline
/// of frames, fixed at construction, and a playback cursor driven by
/// [`InterpolatedAnimation::update`] and [`InterpolatedAnimation::reset`].
///
/// The value type must be copyable, so the shown value can be derived fresh
/// from the authored frames without disturbing them.
#[derive(Clone, Debug)]
pub struct InterpolatedAnimation<T> {
    frames: Vec<InterpolatedFrame<T>>,
    total: u64,
    current_frame: usize,
    time_elapsed: u64,
    finished: bool,
    done: bool,
    auto_reset: bool,
}

impl<T: Interpolatable + Copy> InterpolatedAnimation<T> {
    /// The durations of the frames, in timeline order.
    pub closed spec fn durations(self) -> Seq<u64> {
        self.frames@.map(|_i: int, f: InterpolatedFrame<T>| f.duration)
    }

    /// The interpolation durations of the frames, in timeline order.
    pub closed spec fn interpolation_durations(self) -> Seq<u64> {
        self.frames@.map(|_i: int, f: InterpolatedFrame<T>| f.interpolation_duration)
    }

    /// The authored values of the frames, in timeline order.
    pub closed spec fn values(self) -> Seq<T> {
        self.frames@.map(|_i: int, f: InterpolatedFrame<T>| f.value)
    }

    /// The playback cursor.
    pub closed spec fn cursor(self) -> Cursor {
        Cursor {
            idx: self.current_frame as int,
            elapsed: self.time_elapsed as int,
            finished: self.finished,
            done: self.done,
        }
    }

    /// Whether the track restarts at frame 0 on the tick that reaches its
    /// terminal frame, rather than coming to rest there.
    pub closed spec fn is_auto_reset(self) -> bool {
        self.auto_reset
    }

    /// The sum of all frame durations.
    pub open spec fn total_time(self) -> int {
        total_duration(self.durations())
    }

    /// The value currently shown: the authored value of the current frame,
    /// or its blend toward the next frame's value inside the blend window.
    pub open spec fn current_value(self) -> T {
        blended_value(self.values(), self.durations(), self.interpolation_durations(), self.cursor())
    }

    /// The track's invariant: the cached duration total is right, every
    /// frame's interpolation duration fits within its duration, and the
    /// cursor is well formed over the timeline.
    pub closed spec fn wf(self) -> bool {
        &&& self.total == self.total_time()
        &&& forall|i: int|
            0 <= i < self.frames@.len() ==> #[trigger] self.frames@[i].interpolation_duration
                <= self.frames@[i].duration
        &&& cursor_wf(self.durations(), self.cursor())
    }

    /// How a track after an `update` call with delta `dt` relates to the
    /// track before it: same timeline, same auto-reset policy, and the
    /// cursor moved by one step of the cursor state machine.
    pub open spec fn updated_from(self, pre: InterpolatedAnimation<T>, dt: int) -> bool {
        &&& self.values() == pre.values()
        &&& self.durations() == pre.durations()
        &&& self.interpolation_durations() == pre.interpolation_durations()
        &&& self.is_auto_reset() == pre.is_auto_reset()
        &&& self.cursor() == step(pre.durations(), pre.is_auto_reset(), pre.cursor(), dt)
    }

    /// How a track after a `reset` call relates to the track before it:
    /// same timeline, same auto-reset policy, cursor back at the start.
    pub open spec fn reset_from(self, pre: InterpolatedAnimation<T>) -> bool {
        &&& self.values() == pre.values()
        &&& self.durations() == pre.durations()
        &&& self.interpolation_durations() == pre.interpolation_durations()
        &&& self.is_auto_reset() == pre.is_auto_reset()
        &&& self.cursor() == init_cursor()
    }

    /// Builds a timeline that shows each value for the same `duration`,
    /// blending during the same trailing `interpolation_duration`.
    ///
    /// An empty value list is rejected, as is an interpolation duration
    /// longer than the duration itself. The cursor starts at frame 0 with
    /// no elapsed time, and auto-reset is off.
    #[verifier::loop_isolation(false)]
    pub fn new_single_duration(
        frame_items: Vec<T>,
        duration: u64,
        interpolation_duration: u64,
    ) -> (result: Result<InterpolatedAnimation<T>, TimelineError>)
        requires
            frame_items@.len() * duration <= u64::MAX,
        ensures
            match result {
                Ok(anim) => {
                    &&& anim.wf()
                    &&& anim.values() == frame_items@
                    &&& anim.durations() == Seq::new(frame_items@.len(), |_i: int| duration)
                    &&& anim.interpolation_durations() == Seq::new(
                        frame_items@.len(),
                        |_i: int| interpolation_duration,
                    )
                    &&& anim.cursor() == init_cursor()
                    &&& !anim.is_auto_reset()
                },
                Err(e) => if frame_items@.len() == 0 {
                    e == TimelineError::EmptyTimeline
                } else {
                    e == TimelineError::InterpolationTooLong && interpolation_duration > duration
                },
            },
    {
        let ghost orig = frame_items@;
        let ghost dseq = Seq::new(orig.len(), |_i: int| duration);
        let ghost iseq = Seq::new(orig.len(), |_i: int| interpolation_duration);
        if frame_items.len() == 0 {
            return Err(TimelineError::EmptyTimeline);
        }
        if interpolation_duration > duration {
            return Err(TimelineError::InterpolationTooLong);
        }
        proof {
            crate::animation::lemma_const_prefix_sum(dseq, duration, dseq.len() as int);
        }
        let mut items = frame_items;
        let mut frames: Vec<InterpolatedFrame<T>> = Vec::new();
        let mut total: u64 = 0;
        while items.len() > 0
            invariant
                frames@.len() + items@.len() == orig.len(),
                items@ == orig.skip(frames@.len() as int),
                forall|j: int| 0 <= j < frames@.len() ==> frames@[j].value == orig[j],
                forall|j: int| 0 <= j < frames@.len() ==> frames@[j].duration == duration,
                forall|j: int|
                    0 <= j < frames@.len() ==> frames@[j].interpolation_duration
                        == interpolation_duration,
                total == prefix_sum(dseq, frames@.len() as int),
            decreases items@.len(),
        {
            let ghost k = frames@.len() as int;
            let v = items.remove(0);
            proof {
                assert(orig.skip(k)[0] == orig[k]);
                assert(items@ =~= orig.skip(k + 1));
                lemma_prefix_sum_monotone(dseq, k + 1, dseq.len() as int);
                assert(dseq[k] == duration);
            }
            frames.push(
                InterpolatedFrame { value: v, duration, interpolation_duration },
            );
            total = total + duration;
        }
        let anim = InterpolatedAnimation {
            frames,
            total,
            current_frame: 0,
            time_elapsed: 0,
            finished: false,
            done: false,
            auto_reset: false,
        };
        proof {
            assert forall|j: int| 0 <= j < anim.durations().len() implies anim.durations()[j]
                == dseq[j] by {
                assert(anim.frames@[j].duration == duration);
                assert(anim.durations()[j] == anim.frames@[j].duration);
                assert(dseq[j] == duration);
            }
            assert(anim.durations() =~= dseq);
            assert forall|j: int| 0 <= j < anim.interpolation_durations().len() implies anim.interpolation_durations()[j]
                == iseq[j] by {
                assert(anim.frames@[j].interpolation_duration == interpolation_duration);
                assert(anim.interpolation_durations()[j]
                    == anim.frames@[j].interpolation_duration);
                assert(iseq[j] == interpolation_duration);
            }
            assert(anim.interpolation_durations() =~= iseq);
            assert forall|j: int| 0 <= j < anim.values().len() implies anim.values()[j]
                == orig[j] by {
                assert(anim.frames@[j].value == orig[j]);
                assert(anim.values()[j] == anim.frames@[j].value);
            }
            assert(anim.values() =~= orig);
            lemma_prefix_sum_agree(anim.durations(), dseq, dseq.len() as int);
            lemma_prefix_sum_nonneg(anim.durations(), anim.durations().len() as int);
        }
        Ok(anim)
    }

    /// Builds a timeline that pairs each value with its own duration and
    /// its own interpolation duration.
    ///
    /// Pairing stops at the end of the shortest of the three lists: surplus
    /// entries are dropped, a documented simplification. The call is
    /// rejected when no frame at all can be formed, or when some paired
    /// interpolation duration exceeds its frame's duration. The cursor
    /// starts at frame 0 with no elapsed time, and auto-reset is off.
    #[verifier::loop_isolation(false)]
    pub fn new_multiple_durations(
        frame_items: Vec<T>,
        durations: Vec<u64>,
        interpolation_durations: Vec<u64>,
    ) -> (result: Result<InterpolatedAnimation<T>, TimelineError>)
        requires
            total_duration(
                durations@.take(
                    paired_len(
                        frame_items@.len() as int,
                        durations@.len() as int,
                        interpolation_durations@.len() as int,
                    ),
                ),
            ) <= u64::MAX,
        ensures
            ({
                let m = paired_len(
                    frame_items@.len() as int,
                    durations@.len() as int,
                    interpolation_durations@.len() as int,
                );
                match result {
                    Ok(anim) => {
                        &&& anim.wf()
                        &&& anim.values() == frame_items@.take(m)
                        &&& anim.durations() == durations@.take(m)
                        &&& anim.interpolation_durations() == interpolation_durations@.take(m)
                        &&& anim.cursor() == init_cursor()
                        &&& !anim.is_auto_reset()
                    },
                    Err(e) => if m == 0 {
                        e == TimelineError::EmptyTimeline
                    } else {
                        e == TimelineError::InterpolationTooLong && exists|j: int|
                            0 <= j < m && interpolation_durations@[j] > durations@[j]
                    },
                }
            }),
    {
        let ghost orig = frame_items@;
        let ghost odurs = durations@;
        let ghost ointerps = interpolation_durations@;
        let m: usize = if frame_items.len() <= durations.len() && frame_items.len()
            <= interpolation_durations.len() {
            frame_items.len()
        } else if durations.len() <= interpolation_durations.len() {
            durations.len()
        } else {
            interpolation_durations.len()
        };
        if m == 0 {
            return Err(TimelineError::EmptyTimeline);
        }
        let mut j: usize = 0;
        while j < m
            invariant
                j <= m,
                m <= odurs.len() && m <= ointerps.len(),
                forall|i: int| 0 <= i < j ==> ointerps[i] <= odurs[i],
            decreases m - j,
        {
            if interpolation_durations[j] > durations[j] {
                return Err(TimelineError::InterpolationTooLong);
            }
            j = j + 1;
        }
        let ghost dseq = odurs.take(m as int);
        let mut items = frame_items;
        let mut frames: Vec<InterpolatedFrame<T>> = Vec::new();
        let mut total: u64 = 0;
        let mut k: usize = 0;
        while k < m
            invariant
                k <= m,
                m <= orig.len() && m <= odurs.len() && m <= ointerps.len(),
                frames@.len() == k,
                items@ == orig.skip(k as int),
                forall|i: int| 0 <= i < m ==> ointerps[i] <= odurs[i],
                forall|i: int| 0 <= i < k ==> frames@[i].value == orig[i],
                forall|i: int| 0 <= i < k ==> frames@[i].duration == odurs[i],
                forall|i: int| 0 <= i < k ==> frames@[i].interpolation_duration == ointerps[i],
                total == prefix_sum(odurs, k as int),
            decreases m - k,
        {
            let ghost ki = k as int;
            let v = items.remove(0);
            let d = durations[k];
            let ind = interpolation_durations[k];
            proof {
                assert(orig.skip(ki)[0] == orig[ki]);
                lemma_prefix_sum_agree(odurs, dseq, ki + 1);
                lemma_prefix_sum_monotone(dseq, ki + 1, m as int);
                assert(items@ =~= orig.skip(ki + 1));
                assert(dseq[ki] == odurs[ki]);
            }
            frames.push(InterpolatedFrame { value: v, duration: d, interpolation_duration: ind });
            total = total + d;
            k = k + 1;
        }
        let anim = InterpolatedAnimation {
            frames,
            total,
            current_frame: 0,
            time_elapsed: 0,
            finished: false,
            done: false,
            auto_reset: false,
        };
        proof {
            assert forall|i: int| 0 <= i < anim.durations().len() implies anim.durations()[i]
                == dseq[i] by {
                assert(anim.frames@[i].duration == odurs[i]);
                assert(anim.durations()[i] == anim.frames@[i].duration);
                assert(dseq[i] == odurs[i]);
            }
            assert(anim.durations() =~= dseq);
            assert forall|i: int| 0 <= i < anim.interpolation_durations().len() implies anim.interpolation_durations()[i]
                == ointerps.take(m as int)[i] by {
                assert(anim.frames@[i].interpolation_duration == ointerps[i]);
                assert(anim.interpolation_durations()[i]
                    == anim.frames@[i].interpolation_duration);
                assert(ointerps.take(m as int)[i] == ointerps[i]);
            }
            assert(anim.interpolation_durations() =~= ointerps.take(m as int));
            assert forall|i: int| 0 <= i < anim.values().len() implies anim.values()[i] == orig.take(
                m as int,
            )[i] by {
                assert(anim.frames@[i].value == orig[i]);
                assert(anim.values()[i] == anim.frames@[i].value);
                assert(orig.take(m as int)[i] == orig[i]);
            }
            assert(anim.values() =~= orig.take(m as int));
            assert forall|i: int|
                0 <= i < anim.frames@.len() implies #[trigger] anim.frames@[i].interpolation_duration
                <= anim.frames@[i].duration by {
                assert(anim.frames@[i].interpolation_duration == ointerps[i]);
                assert(anim.frames@[i].duration == odurs[i]);
            }
            lemma_prefix_sum_agree(anim.durations(), odurs, m as int);
            lemma_prefix_sum_agree(odurs, dseq, m as int);
            lemma_prefix_sum_nonneg(anim.durations(), anim.durations().len() as int);
        }
        Ok(anim)
    }

    /// Advances the cursor by the elapsed-time delta `dt`, exactly as the
    /// plain player does: carry-over past covered frames, a `finished`
    /// pulse on reaching the end, then either an auto-reset wrap or rest on
    /// the terminal frame. The authored frames are never touched.
    #[verifier::loop_isolation(false)]
    pub fn update(&mut self, dt: u64)
        requires
            old(self).wf(),
            old(self).total_time() + dt <= u64::MAX,
        ensures
            final(self).wf(),
            final(self).updated_from(*old(self), dt as int),
    {
        let ghost durs = self.durations();
        let ghost pre = self.cursor();
        proof {
            lemma_step_preserves_wf(durs, self.auto_reset, pre, dt as int);
            lemma_prefix_sum_nonneg(durs, pre.idx);
        }
        if self.done {
            self.finished = false;
            return;
        }
        let mut p: u64 = self.time_elapsed;
        let mut j: usize = 0;
        proof {
            lemma_prefix_sum_monotone(durs, pre.idx, durs.len() as int);
        }
        while j < self.current_frame
            invariant
                j <= self.current_frame,
                p == prefix_sum(durs, j as int) + self.time_elapsed,
            decreases self.current_frame - j,
        {
            proof {
                lemma_prefix_sum_monotone(durs, j + 1, pre.idx);
            }
            p = p + self.frames[j].duration;
            j = j + 1;
        }
        let r: u64 = p + dt;
        let total: u64 = self.total;
        if self.auto_reset {
            if total == 0 {
                self.current_frame = 0;
                self.time_elapsed = 0;
                self.finished = true;
                return;
            }
            self.finished = r >= total;
            let mut rem: u64 = r % total;
            let ghost rm = rem as int;
            proof {
                lemma_find_frame_char(durs, 0, rm);
            }
            let mut i: usize = 0;
            while i + 1 < self.frames.len() && rem >= self.frames[i].duration
                invariant
                    0 <= i < self.frames.len(),
                    find_frame(durs, i as int, rem as int) == find_frame(durs, 0, rm),
                decreases self.frames.len() - i,
            {
                rem = rem - self.frames[i].duration;
                i = i + 1;
            }
            self.current_frame = i;
            self.time_elapsed = rem;
        } else {
            if r >= total {
                self.current_frame = self.frames.len() - 1;
                self.time_elapsed = 0;
                self.finished = true;
                self.done = true;
                return;
            }
            self.finished = false;
            let mut rem: u64 = r;
            proof {
                lemma_find_frame_char(durs, 0, r as int);
            }
            let mut i: usize = 0;
            while i + 1 < self.frames.len() && rem >= self.frames[i].duration
                invariant
                    0 <= i < self.frames.len(),
                    find_frame(durs, i as int, rem as int) == find_frame(durs, 0, r as int),
                decreases self.frames.len() - i,
            {
                rem = rem - self.frames[i].duration;
                i = i + 1;
            }
            self.current_frame = i;
            self.time_elapsed = rem;
        }
    }

    /// Returns the cursor to the start of the timeline: frame 0, no elapsed
    /// time, no pulse. The authored frames were never mutated, so the shown
    /// value is again the authored value of frame 0.
    pub fn reset(&mut self)
        requires
            old(self).wf(),
        ensures
            final(self).wf(),
            final(self).reset_from(*old(self)),
            final(self).current_value() == final(self).values()[0],
    {
        proof {
            lemma_prefix_sum_nonneg(old(self).durations(), old(self).durations().len() as int);
        }
        self.current_frame = 0;
        self.time_elapsed = 0;
        self.finished = false;
        self.done = false;
        proof {
            assert(self.frames@[0].interpolation_duration <= self.frames@[0].duration);
            assert(self.durations()[0] == self.frames@[0].duration);
            assert(self.interpolation_durations()[0] == self.frames@[0].interpolation_duration);
            assert(self.values()[0] == self.frames@[0].value);
        }
    }

    /// The value currently shown: the authored value of the current frame,
    /// blended toward the next frame's authored value when the cursor is
    /// inside the frame's trailing blend window.
    pub fn get_frame(&self) -> (result: T)
        requires
            self.wf(),
        ensures
            result == self.current_value(),
    {
        let i = self.current_frame;
        proof {
            assert(self.durations().len() == self.frames@.len());
            assert((i as int) < self.frames@.len());
            assert(self.frames@[i as int].interpolation_duration
                <= self.frames@[i as int].duration);
            assert(self.durations()[i as int] == self.frames@[i as int].duration);
            assert(self.interpolation_durations()[i as int]
                == self.frames@[i as int].interpolation_duration);
            assert(self.values()[i as int] == self.frames@[i as int].value);
        }
        let n = self.frames.len();
        let dur = self.frames[i].duration;
        let interp = self.frames[i].interpolation_duration;
        if i + 1 < n && interp > 0 && self.time_elapsed > dur - interp {
            proof {
                assert(self.values()[i + 1] == self.frames@[i + 1].value);
            }
            let num = self.time_elapsed - (dur - interp);
            let a = self.frames[i].value;
            let b = self.frames[i + 1].value;
            a.lerp(&b, num, interp)
        } else {
            self.frames[i].value
        }
    }

    /// Whether the terminal frame was reached on the most recent `update`
    /// call. A one-tick pulse: it must be sampled right after that call.
    pub fn is_finished(&self) -> (result: bool)
        ensures
            result == self.cursor().finished,
    {
        self.finished
    }

    /// The index of the frame the cursor currently stands on.
    pub fn current_index(&self) -> (result: usize)
        ensures
            result == self.cursor().idx,
    {
        self.current_frame
    }

    /// Whether the track restarts at frame 0 upon reaching its terminal
    /// frame.
    pub fn auto_reset(&self) -> (result: bool)
        ensures
            result == self.is_auto_reset(),
    {
        self.auto_reset
    }

    /// Turns auto-reset on or off. The timeline and the cursor are untouched.
    pub fn set_auto_reset(&mut self, auto_reset: bool)
        requires
            old(self).wf(),
        ensures
            final(self).wf(),
            final(self).is_auto_reset() == auto_reset,
            final(self).values() == old(self).values(),
            final(self).durations() == old(self).durations(),
            final(self).interpolation_durations() == old(self).interpolation_durations(),
            final(self).cursor() == old(self).cursor(),
    {
        self.auto_reset = auto_reset;
    }
}

} // verus!
