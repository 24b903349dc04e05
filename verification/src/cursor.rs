//! The playback-cursor state machine shared by the plain and the
//! interpolating player: how a cursor over a timeline of frame durations
//! moves when a time delta is applied.
//!
//! The policy is carry-over: leftover time past a frame's duration is
//! carried into the next frame, so several frames can be crossed by one
//! large delta and the position reached depends only on the total time
//! applied, not on how it was split into ticks.

use vstd::arithmetic::div_mod::{
    lemma_fundamental_div_mod, lemma_mod_bound, lemma_mod_multiples_vanish, lemma_small_mod,
};
use vstd::prelude::*;

verus! {

/// The mutable playback position of one track.
///
/// `finished` is a one-tick pulse: it is set exactly on the tick in which the
/// terminal frame is reached, and reads false again on every later tick.
/// `done` records that a track without auto-reset has come to rest on its
/// terminal frame; such a track ignores further time until it is reset.
pub ghost struct Cursor {
    pub idx: int,
    pub elapsed: int,
    pub finished: bool,
    pub done: bool,
}

/// The cursor of a freshly constructed or freshly reset track.
pub open spec fn init_cursor() -> Cursor {
    Cursor { idx: 0, elapsed: 0, finished: false, done: false }
}

/// Sum of the durations of frames `0 .. i`.
pub open spec fn prefix_sum(durs: Seq<u64>, i: int) -> int
    decreases i,
{
    if i <= 0 {
        0
    } else {
        prefix_sum(durs, i - 1) + durs[i - 1]
    }
}

/// Sum of all frame durations of the timeline.
pub open spec fn total_duration(durs: Seq<u64>) -> int {
    prefix_sum(durs, durs.len() as int)
}

/// Walks forward from frame `i` with `rem` time available, consuming one
/// whole frame duration per step, and stops at the first frame whose
/// duration exceeds the remaining time, or at the last frame. Returns the
/// frame index reached and the time left within that frame.
pub open spec fn find_frame(durs: Seq<u64>, i: int, rem: int) -> (int, int)
    decreases durs.len() - i,
{
    if i + 1 >= durs.len() || rem < durs[i] {
        (i, rem)
    } else {
        find_frame(durs, i + 1, rem - durs[i])
    }
}

/// The time a cursor stands for, counted from the start of the timeline:
/// every earlier frame in full, plus the time spent in the current frame.
pub open spec fn progress_of(durs: Seq<u64>, c: Cursor) -> int {
    prefix_sum(durs, c.idx) + c.elapsed
}

/// Well-formedness of a cursor over a timeline of durations.
pub open spec fn cursor_wf(durs: Seq<u64>, c: Cursor) -> bool {
    &&& durs.len() >= 1
    &&& 0 <= c.idx < durs.len()
    &&& 0 <= c.elapsed
    &&& c.elapsed <= durs[c.idx]
    &&& c.done ==> c.idx == durs.len() - 1 && c.elapsed == 0
    &&& !c.done ==> progress_of(durs, c) < total_duration(durs) || (total_duration(durs) == 0
        && c.elapsed == 0)
}

/// One `update` call: the cursor after applying a time delta `dt`.
///
/// A resting (`done`) cursor only has its pulse cleared. Otherwise the
/// delta is added to the cursor's progress; reaching or passing the end of
/// the timeline pulses `finished` and either wraps (auto-reset, with the
/// leftover time carried into the new cycle) or comes to rest on the
/// terminal frame. A timeline of total duration zero with auto-reset cycles
/// in zero time, so its cursor lands back on the start of the timeline.
pub open spec fn step(durs: Seq<u64>, auto_reset: bool, c: Cursor, dt: int) -> Cursor {
    if c.done {
        Cursor { finished: false, ..c }
    } else {
        let total = total_duration(durs);
        let r = progress_of(durs, c) + dt;
        if auto_reset {
            if total == 0 {
                Cursor { idx: 0, elapsed: 0, finished: true, done: false }
            } else {
                let f = find_frame(durs, 0, r % total);
                Cursor { idx: f.0, elapsed: f.1, finished: r >= total, done: false }
            }
        } else {
            if r >= total {
                Cursor { idx: durs.len() - 1, elapsed: 0, finished: true, done: true }
            } else {
                let f = find_frame(durs, 0, r);
                Cursor { idx: f.0, elapsed: f.1, finished: false, done: false }
            }
        }
    }
}

pub proof fn lemma_prefix_sum_nonneg(durs: Seq<u64>, i: int)
    ensures
        0 <= prefix_sum(durs, i),
    decreases i,
{
    if i > 0 {
        lemma_prefix_sum_nonneg(durs, i - 1);
    }
}

pub proof fn lemma_prefix_sum_monotone(durs: Seq<u64>, i: int, j: int)
    requires
        i <= j,
    ensures
        prefix_sum(durs, i) <= prefix_sum(durs, j),
    decreases j - i,
{
    if i < j {
        lemma_prefix_sum_monotone(durs, i, j - 1);
    }
}

/// `prefix_sum` only reads the entries below `i`.
pub proof fn lemma_prefix_sum_agree(s1: Seq<u64>, s2: Seq<u64>, i: int)
    requires
        forall|j: int| 0 <= j < i ==> s1[j] == s2[j],
    ensures
        prefix_sum(s1, i) == prefix_sum(s2, i),
    decreases i,
{
    if i > 0 {
        lemma_prefix_sum_agree(s1, s2, i - 1);
    }
}

/// Whether two cursors stand at the same place: same frame, same time spent
/// in it, both at rest or both live. The `finished` pulse is left out: it
/// reports when the terminal frame was reached, not where the cursor stands.
pub open spec fn same_position(a: Cursor, b: Cursor) -> bool {
    &&& a.idx == b.idx
    &&& a.elapsed == b.elapsed
    &&& a.done == b.done
}

/// The cursor after a whole sequence of `update` calls, one per tick delta.
pub open spec fn run_ticks(durs: Seq<u64>, auto_reset: bool, c: Cursor, dts: Seq<u64>) -> Cursor
    decreases dts.len(),
{
    if dts.len() == 0 {
        c
    } else {
        run_ticks(durs, auto_reset, step(durs, auto_reset, c, dts[0] as int), dts.drop_first())
    }
}

/// The total time carried by a sequence of tick deltas.
pub open spec fn ticks_total(dts: Seq<u64>) -> int
    decreases dts.len(),
{
    if dts.len() == 0 {
        0
    } else {
        dts[0] + ticks_total(dts.drop_first())
    }
}

pub proof fn lemma_ticks_total_nonneg(dts: Seq<u64>)
    ensures
        0 <= ticks_total(dts),
    decreases dts.len(),
{
    if dts.len() > 0 {
        lemma_ticks_total_nonneg(dts.drop_first());
    }
}

/// Applying one delta and then another moves the cursor to the same place
/// as applying their sum in one call: the carry-over policy makes the
/// position independent of how time is split. Only the `finished` pulse can
/// differ, as it reports on the most recent call alone.
pub proof fn lemma_step_split(durs: Seq<u64>, auto_reset: bool, c: Cursor, dt1: int, dt2: int)
    requires
        cursor_wf(durs, c),
        dt1 >= 0,
        dt2 >= 0,
    ensures
        same_position(
            step(durs, auto_reset, c, dt1 + dt2),
            step(durs, auto_reset, step(durs, auto_reset, c, dt1), dt2),
        ),
{
    if !c.done {
        let total = total_duration(durs);
        let p = progress_of(durs, c);
        let r1 = p + dt1;
        let r = p + dt1 + dt2;
        lemma_prefix_sum_nonneg(durs, c.idx);
        if auto_reset {
            if total != 0 {
                lemma_mod_bound(r1, total);
                lemma_find_frame_char(durs, 0, r1 % total);
                let mid = step(durs, auto_reset, c, dt1);
                assert(progress_of(durs, mid) == r1 % total);
                lemma_fundamental_div_mod(r1, total);
                lemma_mod_multiples_vanish(r1 / total, r1 % total + dt2, total);
                assert((r1 % total + dt2) % total == r % total);
            }
        } else {
            if r1 < total {
                lemma_find_frame_char(durs, 0, r1);
                let mid = step(durs, auto_reset, c, dt1);
                assert(progress_of(durs, mid) == r1);
            }
        }
    }
}

/// Any sequence of ticks moves the cursor to the place that one tick
/// carrying the sequence's total time would reach.
pub proof fn lemma_run_ticks_as_one(durs: Seq<u64>, auto_reset: bool, c: Cursor, dts: Seq<u64>)
    requires
        cursor_wf(durs, c),
        dts.len() >= 1,
    ensures
        same_position(
            run_ticks(durs, auto_reset, c, dts),
            step(durs, auto_reset, c, ticks_total(dts)),
        ),
    decreases dts.len(),
{
    let mid = step(durs, auto_reset, c, dts[0] as int);
    lemma_step_preserves_wf(durs, auto_reset, c, dts[0] as int);
    lemma_ticks_total_nonneg(dts.drop_first());
    if dts.len() == 1 {
        assert(run_ticks(durs, auto_reset, c, dts) == run_ticks(
            durs,
            auto_reset,
            mid,
            dts.drop_first(),
        ));
    } else {
        lemma_run_ticks_as_one(durs, auto_reset, mid, dts.drop_first());
        lemma_step_split(durs, auto_reset, c, dts[0] as int, ticks_total(dts.drop_first()));
    }
}

/// Two tick sequences that carry the same total time leave the cursor in
/// the same place, wherever the splits fall.
pub proof fn lemma_split_independence(
    durs: Seq<u64>,
    auto_reset: bool,
    c: Cursor,
    dts1: Seq<u64>,
    dts2: Seq<u64>,
)
    requires
        cursor_wf(durs, c),
        dts1.len() >= 1,
        dts2.len() >= 1,
        ticks_total(dts1) == ticks_total(dts2),
    ensures
        same_position(run_ticks(durs, auto_reset, c, dts1), run_ticks(durs, auto_reset, c, dts2)),
{
    lemma_run_ticks_as_one(durs, auto_reset, c, dts1);
    lemma_run_ticks_as_one(durs, auto_reset, c, dts2);
}

/// Cursors standing at the same place react to a tick alike: they move to
/// the same place and their `finished` pulses agree. Sampled at the same
/// tick boundary, split runs that have met again therefore also pulse
/// alike.
pub proof fn lemma_same_position_same_step(
    durs: Seq<u64>,
    auto_reset: bool,
    c1: Cursor,
    c2: Cursor,
    dt: int,
)
    requires
        same_position(c1, c2),
    ensures
        same_position(step(durs, auto_reset, c1, dt), step(durs, auto_reset, c2, dt)),
        step(durs, auto_reset, c1, dt).finished == step(durs, auto_reset, c2, dt).finished,
{
}

/// A cursor at rest on its terminal frame (no auto-reset reached the end)
/// stays exactly there under every further sequence of ticks, and the
/// `finished` pulse never fires again.
pub proof fn lemma_terminal_holds(durs: Seq<u64>, auto_reset: bool, c: Cursor, dts: Seq<u64>)
    requires
        cursor_wf(durs, c),
        c.done,
    ensures
        ({
            let s = run_ticks(durs, auto_reset, c, dts);
            &&& s.done
            &&& s.idx == durs.len() - 1
            &&& s.elapsed == c.elapsed
            &&& dts.len() >= 1 ==> !s.finished
        }),
    decreases dts.len(),
{
    if dts.len() > 0 {
        lemma_terminal_holds(durs, auto_reset, step(durs, auto_reset, c, dts[0] as int), dts.drop_first());
    }
}

/// A tick that reaches the end of a timeline without auto-reset pulses
/// `finished` and brings the cursor to rest on the terminal frame; from
/// then on it holds there (see `lemma_terminal_holds`).
pub proof fn lemma_no_auto_reset_comes_to_rest(durs: Seq<u64>, c: Cursor, dt: int)
    requires
        cursor_wf(durs, c),
        !c.done,
        dt >= 0,
        progress_of(durs, c) + dt >= total_duration(durs),
    ensures
        ({
            let s = step(durs, false, c, dt);
            &&& s.finished
            &&& s.done
            &&& s.idx == durs.len() - 1
            &&& s.elapsed == 0
        }),
{
}

/// A tick that reaches the end of an auto-reset timeline pulses `finished`
/// and, on that same tick, wraps: the cursor comes to stand where a freshly
/// reset cursor advanced by the carried-over leftover time would stand, and
/// playback goes on from there.
pub proof fn lemma_auto_reset_wraps(durs: Seq<u64>, c: Cursor, dt: int)
    requires
        cursor_wf(durs, c),
        !c.done,
        dt >= 0,
        progress_of(durs, c) + dt >= total_duration(durs),
    ensures
        ({
            let s = step(durs, true, c, dt);
            let total = total_duration(durs);
            let carried = if total == 0 {
                0
            } else {
                (progress_of(durs, c) + dt) % total
            };
            &&& s.finished
            &&& !s.done
            &&& same_position(s, step(durs, true, init_cursor(), carried))
        }),
{
    let total = total_duration(durs);
    if total != 0 {
        let r = progress_of(durs, c) + dt;
        lemma_prefix_sum_nonneg(durs, c.idx);
        lemma_mod_bound(r, total);
        lemma_small_mod((r % total) as nat, total as nat);
    }
}

/// Driving a fresh cursor by exactly the sum of all frame durations in one
/// tick reaches the terminal frame and pulses `finished` (auto-reset off).
pub proof fn lemma_full_run(durs: Seq<u64>)
    requires
        durs.len() >= 1,
    ensures
        ({
            let s = step(durs, false, init_cursor(), total_duration(durs));
            &&& s.idx == durs.len() - 1
            &&& s.elapsed == 0
            &&& s.finished
            &&& s.done
        }),
{
}

/// A step of the cursor state machine keeps the cursor well formed.
pub proof fn lemma_step_preserves_wf(durs: Seq<u64>, auto_reset: bool, c: Cursor, dt: int)
    requires
        cursor_wf(durs, c),
        dt >= 0,
    ensures
        cursor_wf(durs, step(durs, auto_reset, c, dt)),
{
    if !c.done {
        let total = total_duration(durs);
        let r = progress_of(durs, c) + dt;
        lemma_prefix_sum_nonneg(durs, c.idx);
        lemma_prefix_sum_monotone(durs, c.idx, durs.len() as int);
        if auto_reset {
            if total != 0 {
                lemma_find_frame_char(durs, 0, r % total);
            }
        } else {
            if r < total {
                lemma_find_frame_char(durs, 0, r);
            }
        }
    }
}

/// Where `find_frame` lands when the time available does not reach the end
/// of the timeline: on the unique frame whose span contains that time.
pub proof fn lemma_find_frame_char(durs: Seq<u64>, i: int, rem: int)
    requires
        0 <= i < durs.len(),
        0 <= rem,
        prefix_sum(durs, i) + rem < total_duration(durs),
    ensures
        ({
            let f = find_frame(durs, i, rem);
            &&& i <= f.0 < durs.len()
            &&& f.1 == prefix_sum(durs, i) + rem - prefix_sum(durs, f.0)
            &&& 0 <= f.1 < durs[f.0]
        }),
    decreases durs.len() - i,
{
    if i + 1 >= durs.len() || rem < durs[i] {
        if i + 1 >= durs.len() {
            assert(total_duration(durs) == prefix_sum(durs, i) + durs[i]);
        }
    } else {
        lemma_find_frame_char(durs, i + 1, rem - durs[i]);
    }
}

} // verus!
