//! The course of a run: how many frames it has, which renderer draws each of
//! them, and what they cost.

use crate::report::RunResult;
use vstd::arithmetic::div_mod::{lemma_div_is_ordered, lemma_fundamental_div_mod};
use vstd::prelude::*;

verus! {

/// Frames of a benchmark run.
pub const FRAMES: u32 = 300;

/// Seconds after which the renderer changes on its own.
pub const SWITCH_SECONDS: u64 = 6;

/// Ticks from one reading of a clock to a later one. The clock may have wrapped
/// in between.
pub open spec fn elapsed(from: u64, to: u64) -> int {
    if to >= from {
        to - from
    } else {
        to - from + 0x1_0000_0000_0000_0000
    }
}

/// The renderer in use, and when it was last chosen.
#[derive(Clone, Copy, Debug, PartialEq, Eq, Structural)]
pub struct Choice {
    pub traced: bool,
    pub since: u64,
}

/// The renderer for the next frame: the left button picks the ray tracer, the
/// right one the rasteriser, and without either a run that is no benchmark
/// alternates once more than `period` ticks have gone by.
pub open spec fn chosen(
    c: Choice,
    benchmark: bool,
    period: u64,
    left: bool,
    right: bool,
    now: u64,
) -> Choice {
    if left {
        Choice { traced: true, since: now }
    } else if right {
        Choice { traced: false, since: now }
    } else if !benchmark && elapsed(c.since, now) > period {
        Choice { traced: !c.traced, since: now }
    } else {
        c
    }
}

/// The state of a run.
#[derive(Clone, Copy, Debug, PartialEq, Eq, Structural)]
pub struct Run {
    pub benchmark: bool,
    pub period: u64,
    pub choice: Choice,
    pub frame: u32,
    pub work_ticks: u64,
    pub traced_frames: u32,
    pub traced_ticks: u64,
    pub raster_frames: u32,
    pub raster_ticks: u64,
}

/// Ticks after which the renderer changes on its own.
pub open spec fn period_of(tick_hz: int) -> int {
    tick_hz * SWITCH_SECONDS
}

/// Whether a run is one that begins at `now` on a clock of `tick_hz` ticks a second.
pub open spec fn started(benchmark: bool, tick_hz: int, now: u64, r: Run) -> bool {
    &&& r.benchmark == benchmark
    &&& r.period == period_of(tick_hz)
    &&& r.choice == (Choice { traced: true, since: now })
    &&& r.frame == 0 && r.work_ticks == 0
    &&& r.traced_frames == 0 && r.traced_ticks == 0
    &&& r.raster_frames == 0 && r.raster_ticks == 0
}

/// A run with the renderer picked for its next frame.
pub open spec fn picked(run: Run, left: bool, right: bool, now: u64) -> Run {
    Run {
        choice: chosen(run.choice, run.benchmark, run.period, left, right, now),
        ..run
    }
}

/// Microseconds in a number of ticks, rounded down.
pub open spec fn micros_of(ticks: nat, tick_hz: nat) -> nat {
    ticks * 1_000_000 / tick_hz
}

/// Converts ticks to microseconds.
pub fn to_micros(ticks: u64, tick_hz: u32) -> (r: u64)
    requires
        tick_hz > 0,
        ticks * 1_000_000 <= u64::MAX,
    ensures
        r == micros_of(ticks as nat, tick_hz as nat),
{
    ticks * 1_000_000 / tick_hz as u64
}

/// Whether counting a frame of `d` ticks leads from one state of a run to another.
pub open spec fn recorded(before: Run, d: int, after: Run) -> bool {
    let one: int = if before.counter_full() {
        0
    } else {
        1
    };
    &&& after.benchmark == before.benchmark
    &&& after.period == before.period
    &&& after.choice == before.choice
    &&& after.frame == before.frame + one
    &&& after.work_ticks == before.work_ticks + d
    &&& before.choice.traced ==> {
        &&& after.traced_frames == before.traced_frames + one
        &&& after.traced_ticks == before.traced_ticks + d
        &&& after.raster_frames == before.raster_frames
        &&& after.raster_ticks == before.raster_ticks
    }
    &&& !before.choice.traced ==> {
        &&& after.raster_frames == before.raster_frames + one
        &&& after.raster_ticks == before.raster_ticks + d
        &&& after.traced_frames == before.traced_frames
        &&& after.traced_ticks == before.traced_ticks
    }
}

/// Whether a result holds the numbers of a run.
pub open spec fn reports(run: Run, start: u64, end: u64, tick_hz: nat, r: RunResult) -> bool {
    &&& r.frames == FRAMES
    &&& r.micros == micros_of((end - start) as nat, tick_hz)
    &&& r.work_micros == micros_of(run.work_ticks as nat, tick_hz)
    &&& r.traced_frames == run.traced_frames
    &&& r.traced_micros == micros_of(run.traced_ticks as nat, tick_hz)
    &&& r.raster_frames == run.raster_frames
    &&& r.raster_micros == micros_of(run.raster_ticks as nat, tick_hz)
}

impl Run {
    /// Every frame was drawn by one of the two renderers, and the work is what
    /// both did together.
    pub open spec fn wf(self) -> bool {
        &&& self.benchmark ==> self.frame <= FRAMES
        &&& self.traced_frames + self.raster_frames == self.frame
        &&& self.traced_ticks + self.raster_ticks == self.work_ticks
    }

    /// Whether the run is over. Only a benchmark ever is.
    pub open spec fn ended(self) -> bool {
        self.benchmark && self.frame >= FRAMES
    }

    /// Whether the counter of frames is full. It takes years to get there, and
    /// no benchmark does.
    pub open spec fn counter_full(self) -> bool {
        self.frame == u32::MAX
    }

    /// Whether the work fits into the time from `start` to `now`.
    pub open spec fn keeps_pace(self, start: u64, now: u64) -> bool {
        start <= now && self.work_ticks <= now - start
    }

    /// A run that begins at `now` on a clock of `tick_hz` ticks a second. It
    /// begins with the ray tracer.
    pub fn start(benchmark: bool, tick_hz: u32, now: u64) -> (r: Run)
        ensures
            r.wf(),
            started(benchmark, tick_hz as int, now, r),
            r.keeps_pace(now, now),
    {
        Run {
            benchmark,
            period: tick_hz as u64 * SWITCH_SECONDS,
            choice: Choice { traced: true, since: now },
            frame: 0,
            work_ticks: 0,
            traced_frames: 0,
            traced_ticks: 0,
            raster_frames: 0,
            raster_ticks: 0,
        }
    }

    /// Whether another frame is to be drawn.
    pub fn goes_on(&self) -> (r: bool)
        ensures
            r == !self.ended(),
    {
        !self.benchmark || self.frame < FRAMES
    }

    /// Picks the renderer of the next frame, and says whether it is the ray
    /// tracer.
    pub fn choose_renderer(&mut self, left: bool, right: bool, now: u64) -> (traced: bool)
        ensures
            *final(self) == picked(*old(self), left, right, now),
            traced == final(self).choice.traced,
    {
        if left {
            self.choice = Choice { traced: true, since: now };
        } else if right {
            self.choice = Choice { traced: false, since: now };
        } else if !self.benchmark && now.wrapping_sub(self.choice.since) > self.period {
            self.choice = Choice { traced: !self.choice.traced, since: now };
        }
        self.choice.traced
    }

    /// Counts a frame that the chosen renderer drew between two readings of the
    /// clock. Once the counter of frames is full, only the time is added.
    pub fn record(&mut self, frame_start: u64, frame_end: u64)
        requires
            old(self).wf(),
            !old(self).ended(),
            frame_start <= frame_end,
            old(self).work_ticks + (frame_end - frame_start) <= u64::MAX,
        ensures
            final(self).wf(),
            recorded(*old(self), frame_end - frame_start, *final(self)),
    {
        let d: u64 = frame_end - frame_start;
        let one: u32 = if self.frame == u32::MAX {
            0
        } else {
            1
        };
        self.work_ticks = self.work_ticks + d;
        if self.choice.traced {
            self.traced_ticks = self.traced_ticks + d;
            self.traced_frames = self.traced_frames + one;
        } else {
            self.raster_ticks = self.raster_ticks + d;
            self.raster_frames = self.raster_frames + one;
        }
        self.frame = self.frame + one;
    }

    /// The numbers of a benchmark that is over and lasted from `start` to
    /// `end`.
    pub fn finish(&self, start: u64, end: u64, tick_hz: u32) -> (r: RunResult)
        requires
            self.wf(),
            self.ended(),
            tick_hz > 0,
            start <= end,
            (end - start) * 1_000_000 <= u64::MAX,
            self.work_ticks * 1_000_000 <= u64::MAX,
        ensures
            reports(*self, start, end, tick_hz as nat, r),
            r.frames == r.traced_frames + r.raster_frames,
    {
        RunResult {
            frames: FRAMES,
            micros: to_micros(end - start, tick_hz),
            work_micros: to_micros(self.work_ticks, tick_hz),
            traced_frames: self.traced_frames,
            traced_micros: to_micros(self.traced_ticks, tick_hz),
            raster_frames: self.raster_frames,
            raster_micros: to_micros(self.raster_ticks, tick_hz),
        }
    }
}

/// A button overrides everything: the left one gives the ray tracer, the right
/// one alone the rasteriser, and either restarts the period.
pub proof fn law_buttons_override(
    c: Choice,
    benchmark: bool,
    period: u64,
    left: bool,
    right: bool,
    now: u64,
)
    requires
        left || right,
    ensures
        chosen(c, benchmark, period, left, right, now).traced == left,
        chosen(c, benchmark, period, left, right, now).since == now,
{
}

/// Without a button a benchmark never changes its renderer.
pub proof fn law_benchmark_keeps_renderer(c: Choice, period: u64, now: u64)
    ensures
        chosen(c, true, period, false, false, now) == c,
{
}

/// Without a button, outside a benchmark, the renderer changes exactly when
/// more than the period has gone by since it was chosen, and having changed it
/// stays for at least as long again.
pub proof fn law_renderers_alternate(c: Choice, period: u64, now: u64, later: u64)
    ensures
        chosen(c, false, period, false, false, now).traced != c.traced <==> elapsed(c.since, now)
            > period,
        elapsed(now, later) <= period && elapsed(c.since, now) > period ==> chosen(
            chosen(c, false, period, false, false, now),
            false,
            period,
            false,
            false,
            later,
        ).traced != c.traced,
{
}

/// A run without a benchmark never ends by itself, however many frames it has
/// drawn.
pub proof fn law_demo_goes_on(run: Run)
    requires
        !run.benchmark,
    ensures
        !run.ended(),
{
}

/// When a benchmark is over, it has drawn as many frames as its report
/// announces: those of both renderers together.
pub proof fn law_benchmark_counts_all_frames(run: Run)
    requires
        run.wf(),
        run.ended(),
    ensures
        run.frame == FRAMES,
        run.traced_frames + run.raster_frames == FRAMES,
{
}

/// On a clock that never runs backwards, the work of a run never outgrows the
/// time since its start. A frame that begins no earlier than the last reading
/// keeps it so, and its ticks can always be added.
pub proof fn law_work_keeps_pace(
    before: Run,
    after: Run,
    start: u64,
    last: u64,
    frame_start: u64,
    frame_end: u64,
)
    requires
        before.keeps_pace(start, last),
        last <= frame_start <= frame_end,
        after.work_ticks == before.work_ticks + (frame_end - frame_start),
    ensures
        after.keeps_pace(start, frame_end),
        before.work_ticks + (frame_end - frame_start) <= u64::MAX,
{
}

/// A run that kept pace reports no more work than time.
pub proof fn law_work_within_run(run: Run, start: u64, end: u64, tick_hz: nat)
    requires
        run.keeps_pace(start, end),
        tick_hz > 0,
    ensures
        micros_of(run.work_ticks as nat, tick_hz) <= micros_of((end - start) as nat, tick_hz),
{
    lemma_div_is_ordered(
        run.work_ticks * 1_000_000,
        (end - start) * 1_000_000,
        tick_hz as int,
    );
}

/// The time of both renderers together is the time of the work, up to the
/// microsecond that rounding can take.
pub proof fn law_work_is_both_renderers(run: Run, tick_hz: nat)
    requires
        run.wf(),
        tick_hz > 0,
    ensures
        ({
            let both = micros_of(run.traced_ticks as nat, tick_hz) + micros_of(
                run.raster_ticks as nat,
                tick_hz,
            );
            both <= micros_of(run.work_ticks as nat, tick_hz) <= both + 1
        }),
{
    let hz: int = tick_hz as int;
    let a: int = run.traced_ticks * 1_000_000;
    let b: int = run.raster_ticks * 1_000_000;
    assert(run.work_ticks * 1_000_000 == a + b);
    lemma_fundamental_div_mod(a, hz);
    lemma_fundamental_div_mod(b, hz);
    lemma_fundamental_div_mod(a + b, hz);
    let (qa, qb, q): (int, int, int) = (a / hz, b / hz, (a + b) / hz);
    assert(qa + qb <= q <= qa + qb + 1) by (nonlinear_arith)
        requires
            hz > 0,
            a == hz * qa + a % hz,
            b == hz * qb + b % hz,
            a + b == hz * q + (a + b) % hz,
            0 <= a % hz < hz,
            0 <= b % hz < hz,
            0 <= (a + b) % hz < hz,
    ;
}

/// The ticks gone by are what has to be added to the first reading of the clock to
/// get the second, round the end of the clock if need be.
pub proof fn law_elapsed_is_what_was_added(from: u64, d: u64)
    ensures
        from + d <= u64::MAX ==> elapsed(from, (from + d) as u64) == d,
        from + d > u64::MAX ==> elapsed(from, (from + d - 0x1_0000_0000_0000_0000) as u64) == d,
{
}

/// Ticks gone by add up, as long as the clock goes round no more than once.
pub proof fn law_elapsed_adds_up(a: u64, b: u64, c: u64)
    requires
        elapsed(a, b) + elapsed(b, c) <= u64::MAX,
    ensures
        elapsed(a, c) == elapsed(a, b) + elapsed(b, c),
{
}

/// Without a button and outside a benchmark, the renderer changes once more than six
/// seconds of the clock's ticks have gone by since it was chosen, and then the six
/// seconds begin again; up to then nothing changes. `gone` ticks have gone by.
pub proof fn law_six_seconds_apart(c: Choice, tick_hz: u32, period: u64, gone: u64, now: u64)
    requires
        period == period_of(tick_hz as int),
        now == c.since + gone || now == c.since + gone - 0x1_0000_0000_0000_0000,
    ensures
        gone > 6 * tick_hz ==> chosen(c, false, period, false, false, now) == (Choice {
            traced: !c.traced,
            since: now,
        }),
        gone <= 6 * tick_hz ==> chosen(c, false, period, false, false, now) == c,
{
}

/// The left button gives the ray tracer whatever else holds, the right one the
/// rasteriser unless the left one is pressed too, and a benchmark changes nothing by
/// itself. Outside a benchmark the renderer changes by itself once `gone` ticks have
/// gone by and they are more than the period. Nothing else of the run ever changes.
pub proof fn law_pick_by_cases(run: Run, left: bool, right: bool, now: u64, gone: u64)
    requires
        now == run.choice.since + gone || now == run.choice.since + gone - 0x1_0000_0000_0000_0000,
    ensures
        ({
            let after = picked(run, left, right, now);
            &&& left ==> after.choice.traced && after.choice.since == now
            &&& right && !left ==> !after.choice.traced && after.choice.since == now
            &&& !left && !right && run.benchmark ==> after.choice == run.choice
            &&& !left && !right && !run.benchmark && gone <= run.period ==> after.choice
                == run.choice
            &&& !left && !right && !run.benchmark && gone > run.period ==> after.choice.traced
                != run.choice.traced && after.choice.since == now
            &&& after.benchmark == run.benchmark && after.period == run.period
            &&& after.frame == run.frame && after.work_ticks == run.work_ticks
            &&& after.traced_frames == run.traced_frames && after.traced_ticks == run.traced_ticks
            &&& after.raster_frames == run.raster_frames && after.raster_ticks == run.raster_ticks
        }),
{
}

/// A run begins with the ray tracer, with nothing counted, and with a period of six
/// seconds of the clock's ticks.
pub proof fn law_start_of_run(benchmark: bool, tick_hz: int, now: u64, r: Run)
    requires
        started(benchmark, tick_hz, now, r),
    ensures
        r.benchmark == benchmark,
        r.period == tick_hz + tick_hz + tick_hz + tick_hz + tick_hz + tick_hz,
        r.choice.traced && r.choice.since == now,
        r.frame == 0 && r.traced_frames == 0 && r.raster_frames == 0,
        r.work_ticks == 0 && r.traced_ticks == 0 && r.raster_ticks == 0,
{
}

/// Counting a frame, number by number: one more of the renderer that drew it and none
/// of the other, and its time on the same side and on both together.
pub proof fn law_record_adds_one_frame(before: Run, d: int, after: Run)
    requires
        recorded(before, d, after),
        before.frame < u32::MAX,
    ensures
        after.frame == before.frame + 1,
        after.work_ticks == before.work_ticks + d,
        after.traced_frames == before.traced_frames + (if before.choice.traced {
            1int
        } else {
            0
        }),
        after.raster_frames == before.raster_frames + (if before.choice.traced {
            0int
        } else {
            1
        }),
        after.traced_ticks == before.traced_ticks + (if before.choice.traced {
            d
        } else {
            0
        }),
        after.raster_ticks == before.raster_ticks + (if before.choice.traced {
            0
        } else {
            d
        }),
        after.choice == before.choice && after.benchmark == before.benchmark && after.period
            == before.period,
{
}

/// Once as many frames have been counted as can be, only time is added.
pub proof fn law_record_when_full(before: Run, d: int, after: Run)
    requires
        recorded(before, d, after),
        before.frame == u32::MAX,
    ensures
        after.frame == before.frame,
        after.traced_frames == before.traced_frames,
        after.raster_frames == before.raster_frames,
        after.work_ticks == before.work_ticks + d,
        after.traced_ticks + after.raster_ticks == before.traced_ticks + before.raster_ticks + d,
{
}

/// A run is over exactly if it is a benchmark with its 300 frames.
pub proof fn law_end_of_run(run: Run)
    ensures
        run.ended() <==> run.benchmark && run.frame >= 300,
        run.wf() ==> run.traced_frames + run.raster_frames == run.frame,
        run.wf() ==> run.traced_ticks + run.raster_ticks == run.work_ticks,
        run.wf() && run.benchmark ==> run.frame <= 300,
{
}

/// Microseconds are the one number that, times the ticks of a second, a million times
/// the ticks have reached while they have not reached the next.
pub proof fn law_micros_are_ticks_over_hz(ticks: nat, tick_hz: nat)
    requires
        tick_hz > 0,
    ensures
        micros_of(ticks, tick_hz) * tick_hz <= ticks * 1_000_000 < (micros_of(ticks, tick_hz) + 1)
            * tick_hz,
{
    let (x, d): (int, int) = (ticks as int * 1_000_000, tick_hz as int);
    lemma_fundamental_div_mod(x, d);
    let q: int = x / d;
    assert(d * q == q * d) by (nonlinear_arith);
    assert((q + 1) * d == q * d + d) by (nonlinear_arith);
}

/// The result of a run, number by number: the 300 frames of a benchmark, the frames of
/// each renderer, and every time in microseconds, from the start to the end of the run
/// and of the work of each renderer.
pub proof fn law_result_of_run(run: Run, start: u64, end: u64, tick_hz: nat, r: RunResult)
    requires
        reports(run, start, end, tick_hz, r),
        start <= end,
        tick_hz > 0,
    ensures
        r.frames == 300,
        r.traced_frames == run.traced_frames && r.raster_frames == run.raster_frames,
        r.micros * tick_hz <= (end - start) * 1_000_000 < (r.micros + 1) * tick_hz,
        r.work_micros * tick_hz <= run.work_ticks * 1_000_000 < (r.work_micros + 1) * tick_hz,
        r.traced_micros * tick_hz <= run.traced_ticks * 1_000_000 < (r.traced_micros + 1) * tick_hz,
        r.raster_micros * tick_hz <= run.raster_ticks * 1_000_000 < (r.raster_micros + 1) * tick_hz,
{
    law_micros_are_ticks_over_hz((end - start) as nat, tick_hz);
    law_micros_are_ticks_over_hz(run.work_ticks as nat, tick_hz);
    law_micros_are_ticks_over_hz(run.traced_ticks as nat, tick_hz);
    law_micros_are_ticks_over_hz(run.raster_ticks as nat, tick_hz);
}

} // verus!
