//! The result file: one JSON object with the numbers of a run.

use crate::decimal::{
    decimal, lemma_decimal_len, lemma_written_twice, pow10, put, put_milli, put_u64, thousandths,
    written,
};
use crate::screen::{RAYS_PER_FRAME, SCREEN_HEIGHT, SCREEN_WIDTH};
use vstd::arithmetic::div_mod::{
    lemma_div_by_multiple, lemma_div_denominator, lemma_div_is_ordered_by_denominator,
    lemma_fundamental_div_mod,
};
use vstd::arithmetic::mul::lemma_mul_is_commutative;
use vstd::prelude::*;

verus! {

/// How many bytes the result file may take.
pub const RESULT_SIZE: usize = 512;

/// What a run measured: how many frames of each kind it drew, and how long
/// they took in microseconds.
#[derive(Clone, Copy, Debug, PartialEq, Eq, Structural)]
pub struct RunResult {
    pub frames: u32,
    pub micros: u64,
    pub work_micros: u64,
    pub traced_frames: u32,
    pub traced_micros: u64,
    pub raster_frames: u32,
    pub raster_micros: u64,
}

/// The bytes of an ASCII text.
pub open spec fn ascii(s: Seq<char>) -> Seq<u8> {
    Seq::new(s.len(), |i: int| s[i] as u8)
}

/// Frames per second in thousandths; zero when no time passed.
pub open spec fn rate(frames: nat, micros: nat) -> nat {
    if micros == 0 {
        0
    } else {
        frames * 1_000_000_000 / micros
    }
}

/// Milliseconds per frame in thousandths, which is microseconds per frame;
/// zero when there was no frame.
pub open spec fn cost(frames: nat, micros: nat) -> nat {
    if frames == 0 {
        0
    } else {
        micros / frames
    }
}

/// The part of the report on the run as a whole.
pub open spec fn run_text(r: RunResult) -> Seq<u8> {
    ascii("{\"demo\":\"psp-raytracer\",\"frames\":"@) + decimal(r.frames as nat) + ascii(
        ",\"elapsed_us\":"@,
    ) + decimal(r.micros as nat) + ascii(",\"fps\":"@) + thousandths(
        rate(r.frames as nat, r.micros as nat),
    ) + ascii(",\"frame_ms\":"@) + thousandths(cost(r.frames as nat, r.micros as nat)) + ascii(
        ",\"work_ms\":"@,
    ) + thousandths(cost(r.frames as nat, r.work_micros as nat)) + ascii(",\"work_fps\":"@)
        + thousandths(rate(r.frames as nat, r.work_micros as nat))
}

/// The part of the report on the picture's size.
pub open spec fn size_text() -> Seq<u8> {
    ascii(",\"width\":"@) + decimal(SCREEN_WIDTH as nat) + ascii(",\"height\":"@) + decimal(
        SCREEN_HEIGHT as nat,
    ) + ascii(",\"rays_per_frame\":"@) + decimal(RAYS_PER_FRAME as nat)
}

/// The part of the report on one renderer: how often it ran, and what a frame
/// cost if it ran at all.
pub open spec fn mode_text(label: Seq<u8>, frames: nat, micros: nat) -> Seq<u8> {
    if frames > 0 && micros > 0 {
        label + decimal(frames) + ascii(",\"fps\":"@) + thousandths(rate(frames, micros)) + ascii(
            ",\"ms\":"@,
        ) + thousandths(cost(frames, micros)) + ascii("}"@)
    } else {
        label + decimal(frames) + ascii("}"@)
    }
}

/// The whole report.
pub open spec fn report(r: RunResult) -> Seq<u8> {
    run_text(r) + size_text() + mode_text(
        ascii(",\"traced\":{\"frames\":"@),
        r.traced_frames as nat,
        r.traced_micros as nat,
    ) + mode_text(
        ascii(",\"rasterised\":{\"frames\":"@),
        r.raster_frames as nat,
        r.raster_micros as nat,
    ) + ascii("}\n"@)
}

/// The bytes of an ASCII literal.
fn text(s: &str) -> (r: &[u8])
    requires
        s.is_ascii(),
    ensures
        r@ == ascii(s@),
{
    broadcast use vstd::string::is_ascii_spec_bytes;

    let r: &[u8] = s.as_bytes();
    assert(r@ =~= ascii(s@));
    r
}

/// Appends a text to what has been written so far.
fn add_str(
    buf: &mut [u8],
    at: usize,
    s: &str,
    Ghost(start): Ghost<Seq<u8>>,
    Ghost(so_far): Ghost<Seq<u8>>,
) -> (end: usize)
    requires
        s.is_ascii(),
        at == so_far.len(),
        at + s@.len() <= start.len(),
        old(buf)@ == written(start, 0, so_far),
    ensures
        end == at + s@.len(),
        final(buf)@ == written(start, 0, so_far + ascii(s@)),
{
    proof {
        lemma_written_twice(start, 0, so_far, ascii(s@));
    }
    put(buf, at, text(s))
}

/// Appends a number to what has been written so far.
fn add_u64(
    buf: &mut [u8],
    at: usize,
    value: u64,
    Ghost(start): Ghost<Seq<u8>>,
    Ghost(so_far): Ghost<Seq<u8>>,
) -> (end: usize)
    requires
        at == so_far.len(),
        at + 20 <= start.len(),
        old(buf)@ == written(start, 0, so_far),
    ensures
        end == at + decimal(value as nat).len() <= at + 20,
        value < 10_000_000_000 ==> end <= at + 10,
        final(buf)@ == written(start, 0, so_far + decimal(value as nat)),
{
    proof {
        reveal_with_fuel(pow10, 21);
        lemma_decimal_len(value as nat, 20);
        if value < 10_000_000_000 {
            lemma_decimal_len(value as nat, 10);
        }
        lemma_written_twice(start, 0, so_far, decimal(value as nat));
    }
    put_u64(buf, at, value)
}

/// Appends a number of thousandths to what has been written so far.
fn add_milli(
    buf: &mut [u8],
    at: usize,
    value: u64,
    Ghost(start): Ghost<Seq<u8>>,
    Ghost(so_far): Ghost<Seq<u8>>,
) -> (end: usize)
    requires
        at == so_far.len(),
        at + 21 <= start.len(),
        old(buf)@ == written(start, 0, so_far),
    ensures
        end == at + thousandths(value as nat).len() <= at + 21,
        final(buf)@ == written(start, 0, so_far + thousandths(value as nat)),
{
    proof {
        reveal_with_fuel(pow10, 18);
        lemma_decimal_len(value as nat / 1000, 17);
        lemma_written_twice(start, 0, so_far, thousandths(value as nat));
    }
    put_milli(buf, at, value)
}

/// Frames per second in thousandths.
fn rate_milli(frames: u32, micros: u64) -> (r: u64)
    ensures
        r == rate(frames as nat, micros as nat),
{
    if micros == 0 {
        0
    } else {
        frames as u64 * 1_000_000_000 / micros
    }
}

/// Milliseconds per frame in thousandths.
fn cost_milli(frames: u32, micros: u64) -> (r: u64)
    ensures
        r == cost(frames as nat, micros as nat),
{
    if frames == 0 {
        0
    } else {
        micros / frames as u64
    }
}

/// Milliseconds per frame in thousandths, by way of nanoseconds.
fn cost_milli_fine(frames: u32, micros: u64) -> (r: u64)
    requires
        frames == 0 || micros * 1000 <= u64::MAX,
    ensures
        r == cost(frames as nat, micros as nat),
{
    if frames == 0 {
        0
    } else {
        proof {
            let (m, f): (int, int) = (micros as int, frames as int);
            lemma_div_denominator(m * 1000, f, 1000);
            lemma_div_denominator(m * 1000, 1000, f);
            lemma_mul_is_commutative(f, 1000);
            lemma_div_by_multiple(m, 1000);
        }
        micros * 1000 / frames as u64 / 1000
    }
}

/// Appends the numbers of the run as a whole.
fn add_run(buf: &mut [u8], r: RunResult, Ghost(start): Ghost<Seq<u8>>) -> (end: usize)
    requires
        start.len() >= RESULT_SIZE,
        old(buf)@ == start,
        r.frames == 0 || r.micros * 1000 <= u64::MAX,
    ensures
        end == run_text(r).len() <= 203,
        final(buf)@ == written(start, 0, run_text(r)),
{
    let ghost mut t = Seq::<u8>::empty();
    let mut at: usize = 0;
    proof {
        reveal_strlit("{\"demo\":\"psp-raytracer\",\"frames\":");
        reveal_strlit(",\"elapsed_us\":");
        reveal_strlit(",\"fps\":");
        reveal_strlit(",\"frame_ms\":");
        reveal_strlit(",\"work_ms\":");
        reveal_strlit(",\"work_fps\":");
        assert(written(start, 0, t) =~= start);
    }
    at = add_str(buf, at, "{\"demo\":\"psp-raytracer\",\"frames\":", Ghost(start), Ghost(t));
    proof {
        t = t + ascii("{\"demo\":\"psp-raytracer\",\"frames\":"@);
        assert(t =~= ascii("{\"demo\":\"psp-raytracer\",\"frames\":"@));
    }
    at = add_u64(buf, at, r.frames as u64, Ghost(start), Ghost(t));
    proof {
        t = t + decimal(r.frames as nat);
    }
    at = add_str(buf, at, ",\"elapsed_us\":", Ghost(start), Ghost(t));
    proof {
        t = t + ascii(",\"elapsed_us\":"@);
    }
    at = add_u64(buf, at, r.micros, Ghost(start), Ghost(t));
    proof {
        t = t + decimal(r.micros as nat);
    }
    at = add_str(buf, at, ",\"fps\":", Ghost(start), Ghost(t));
    proof {
        t = t + ascii(",\"fps\":"@);
    }
    at = add_milli(buf, at, rate_milli(r.frames, r.micros), Ghost(start), Ghost(t));
    proof {
        t = t + thousandths(rate(r.frames as nat, r.micros as nat));
    }
    at = add_str(buf, at, ",\"frame_ms\":", Ghost(start), Ghost(t));
    proof {
        t = t + ascii(",\"frame_ms\":"@);
    }
    at = add_milli(buf, at, cost_milli_fine(r.frames, r.micros), Ghost(start), Ghost(t));
    proof {
        t = t + thousandths(cost(r.frames as nat, r.micros as nat));
    }
    at = add_str(buf, at, ",\"work_ms\":", Ghost(start), Ghost(t));
    proof {
        t = t + ascii(",\"work_ms\":"@);
    }
    at = add_milli(buf, at, cost_milli(r.frames, r.work_micros), Ghost(start), Ghost(t));
    proof {
        t = t + thousandths(cost(r.frames as nat, r.work_micros as nat));
    }
    at = add_str(buf, at, ",\"work_fps\":", Ghost(start), Ghost(t));
    proof {
        t = t + ascii(",\"work_fps\":"@);
    }
    add_milli(buf, at, rate_milli(r.frames, r.work_micros), Ghost(start), Ghost(t))
}

/// Appends the size of the picture.
fn add_size(
    buf: &mut [u8],
    at: usize,
    Ghost(start): Ghost<Seq<u8>>,
    Ghost(so_far): Ghost<Seq<u8>>,
) -> (end: usize)
    requires
        at == so_far.len(),
        at + 100 <= start.len(),
        old(buf)@ == written(start, 0, so_far),
    ensures
        end == at + size_text().len() <= at + 67,
        final(buf)@ == written(start, 0, so_far + size_text()),
{
    let ghost mut t = Seq::<u8>::empty();
    proof {
        reveal_strlit(",\"width\":");
        reveal_strlit(",\"height\":");
        reveal_strlit(",\"rays_per_frame\":");
    }
    let mut pos: usize = at;
    pos = add_str(buf, pos, ",\"width\":", Ghost(start), Ghost(so_far));
    proof {
        t = ascii(",\"width\":"@);
    }
    pos = add_u64(buf, pos, SCREEN_WIDTH as u64, Ghost(start), Ghost(so_far + t));
    proof {
        assert(so_far + t + decimal(SCREEN_WIDTH as nat) =~= so_far + (t + decimal(
            SCREEN_WIDTH as nat,
        )));
        t = t + decimal(SCREEN_WIDTH as nat);
    }
    pos = add_str(buf, pos, ",\"height\":", Ghost(start), Ghost(so_far + t));
    proof {
        assert(so_far + t + ascii(",\"height\":"@) =~= so_far + (t + ascii(",\"height\":"@)));
        t = t + ascii(",\"height\":"@);
    }
    pos = add_u64(buf, pos, SCREEN_HEIGHT as u64, Ghost(start), Ghost(so_far + t));
    proof {
        assert(so_far + t + decimal(SCREEN_HEIGHT as nat) =~= so_far + (t + decimal(
            SCREEN_HEIGHT as nat,
        )));
        t = t + decimal(SCREEN_HEIGHT as nat);
    }
    pos = add_str(buf, pos, ",\"rays_per_frame\":", Ghost(start), Ghost(so_far + t));
    proof {
        assert(so_far + t + ascii(",\"rays_per_frame\":"@) =~= so_far + (t + ascii(
            ",\"rays_per_frame\":"@,
        )));
        t = t + ascii(",\"rays_per_frame\":"@);
        assert(so_far + t + decimal(RAYS_PER_FRAME as nat) =~= so_far + (t + decimal(
            RAYS_PER_FRAME as nat,
        )));
    }
    add_u64(buf, pos, RAYS_PER_FRAME as u64, Ghost(start), Ghost(so_far + t))
}

/// Appends the numbers of one renderer.
fn add_mode(
    buf: &mut [u8],
    at: usize,
    label: &str,
    frames: u32,
    micros: u64,
    Ghost(start): Ghost<Seq<u8>>,
    Ghost(so_far): Ghost<Seq<u8>>,
) -> (end: usize)
    requires
        label.is_ascii(),
        at == so_far.len(),
        at + label@.len() + 66 <= start.len(),
        old(buf)@ == written(start, 0, so_far),
    ensures
        end == at + mode_text(ascii(label@), frames as nat, micros as nat).len() <= at
            + label@.len() + 66,
        final(buf)@ == written(
            start,
            0,
            so_far + mode_text(ascii(label@), frames as nat, micros as nat),
        ),
{
    let ghost mut t = ascii(label@);
    proof {
        reveal_strlit(",\"fps\":");
        reveal_strlit(",\"ms\":");
        reveal_strlit("}");
    }
    let mut pos: usize = at;
    pos = add_str(buf, pos, label, Ghost(start), Ghost(so_far));
    pos = add_u64(buf, pos, frames as u64, Ghost(start), Ghost(so_far + t));
    proof {
        assert(so_far + t + decimal(frames as nat) =~= so_far + (t + decimal(frames as nat)));
        t = t + decimal(frames as nat);
    }
    if frames > 0 && micros > 0 {
        pos = add_str(buf, pos, ",\"fps\":", Ghost(start), Ghost(so_far + t));
        proof {
            assert(so_far + t + ascii(",\"fps\":"@) =~= so_far + (t + ascii(",\"fps\":"@)));
            t = t + ascii(",\"fps\":"@);
        }
        let fps: u64 = rate_milli(frames, micros);
        pos = add_milli(buf, pos, fps, Ghost(start), Ghost(so_far + t));
        proof {
            assert(so_far + t + thousandths(fps as nat) =~= so_far + (t + thousandths(fps as nat)));
            t = t + thousandths(fps as nat);
        }
        pos = add_str(buf, pos, ",\"ms\":", Ghost(start), Ghost(so_far + t));
        proof {
            assert(so_far + t + ascii(",\"ms\":"@) =~= so_far + (t + ascii(",\"ms\":"@)));
            t = t + ascii(",\"ms\":"@);
        }
        let ms: u64 = cost_milli(frames, micros);
        pos = add_milli(buf, pos, ms, Ghost(start), Ghost(so_far + t));
        proof {
            assert(so_far + t + thousandths(ms as nat) =~= so_far + (t + thousandths(ms as nat)));
            t = t + thousandths(ms as nat);
        }
    }
    proof {
        assert(so_far + t + ascii("}"@) =~= so_far + (t + ascii("}"@)));
    }
    add_str(buf, pos, "}", Ghost(start), Ghost(so_far + t))
}

/// Writes the report at the start of `buf` and returns its length, which is
/// never more than the buffer holds.
///
/// The presented rate is quantised: waiting for vertical blank means that a
/// frame lasts a whole number of intervals. The work figures are what a frame
/// actually costs. Rates and times are carried as thousandths, so that no
/// fractions have to be formatted.
pub fn write_result(buf: &mut [u8], r: RunResult) -> (end: usize)
    requires
        old(buf)@.len() >= RESULT_SIZE,
        r.frames == 0 || r.micros * 1000 <= u64::MAX,
    ensures
        end == report(r).len() <= RESULT_SIZE,
        final(buf)@ == written(old(buf)@, 0, report(r)),
{
    let ghost start = buf@;
    proof {
        reveal_strlit(",\"traced\":{\"frames\":");
        reveal_strlit(",\"rasterised\":{\"frames\":");
        reveal_strlit("}\n");
    }
    let mut at: usize = add_run(buf, r, Ghost(start));
    let ghost mut t = run_text(r);
    at = add_size(buf, at, Ghost(start), Ghost(t));
    proof {
        t = t + size_text();
    }
    at = add_mode(
        buf,
        at,
        ",\"traced\":{\"frames\":",
        r.traced_frames,
        r.traced_micros,
        Ghost(start),
        Ghost(t),
    );
    proof {
        t = t + mode_text(
            ascii(",\"traced\":{\"frames\":"@),
            r.traced_frames as nat,
            r.traced_micros as nat,
        );
    }
    at = add_mode(
        buf,
        at,
        ",\"rasterised\":{\"frames\":",
        r.raster_frames,
        r.raster_micros,
        Ghost(start),
        Ghost(t),
    );
    proof {
        t = t + mode_text(
            ascii(",\"rasterised\":{\"frames\":"@),
            r.raster_frames as nat,
            r.raster_micros as nat,
        );
    }
    add_str(buf, at, "}\n", Ghost(start), Ghost(t))
}

/// The length of the digits of a `u32` and of a `u64`, and of a `u64` of
/// thousandths.
proof fn lemma_number_lengths(small: u32, large: u64)
    ensures
        decimal(small as nat).len() <= 10,
        decimal(large as nat).len() <= 20,
        thousandths(large as nat).len() <= 21,
{
    reveal_with_fuel(pow10, 21);
    lemma_decimal_len(small as nat, 10);
    lemma_decimal_len(large as nat, 20);
    lemma_decimal_len(large as nat / 1000, 17);
}

/// A rate or a cost never outgrows a `u64`.
proof fn lemma_rate_and_cost(frames: u32, micros: u64)
    ensures
        rate(frames as nat, micros as nat) <= u64::MAX,
        cost(frames as nat, micros as nat) <= u64::MAX,
{
    if micros > 0 {
        lemma_div_is_ordered_by_denominator(frames as int * 1_000_000_000, 1, micros as int);
    }
    if frames > 0 {
        lemma_div_is_ordered_by_denominator(micros as int, 1, frames as int);
    }
}

/// The length of the part on one renderer.
proof fn lemma_mode_length(label: Seq<u8>, frames: u32, micros: u64)
    ensures
        mode_text(label, frames as nat, micros as nat).len() <= label.len() + 66,
{
    reveal_strlit(",\"fps\":");
    reveal_strlit(",\"ms\":");
    reveal_strlit("}");
    lemma_rate_and_cost(frames, micros);
    lemma_number_lengths(frames, rate(frames as nat, micros as nat) as u64);
    lemma_number_lengths(frames, cost(frames as nat, micros as nat) as u64);
}

/// Whatever a run measured, its report fits the buffer, and is one object on
/// one line: it opens with a brace and ends with a brace and a line break.
pub proof fn law_report_fits(r: RunResult)
    ensures
        report(r).len() <= RESULT_SIZE,
        report(r).len() >= 2,
        report(r)[0] == 123,
        report(r)[report(r).len() - 2] == 125,
        report(r).last() == 10,
{
    reveal_strlit("{\"demo\":\"psp-raytracer\",\"frames\":");
    reveal_strlit(",\"elapsed_us\":");
    reveal_strlit(",\"fps\":");
    reveal_strlit(",\"frame_ms\":");
    reveal_strlit(",\"work_ms\":");
    reveal_strlit(",\"work_fps\":");
    reveal_strlit(",\"width\":");
    reveal_strlit(",\"height\":");
    reveal_strlit(",\"rays_per_frame\":");
    reveal_strlit(",\"traced\":{\"frames\":");
    reveal_strlit(",\"rasterised\":{\"frames\":");
    reveal_strlit("}\n");
    lemma_rate_and_cost(r.frames, r.micros);
    lemma_rate_and_cost(r.frames, r.work_micros);
    lemma_number_lengths(r.frames, r.micros);
    lemma_number_lengths(r.frames, rate(r.frames as nat, r.micros as nat) as u64);
    lemma_number_lengths(r.frames, cost(r.frames as nat, r.micros as nat) as u64);
    lemma_number_lengths(r.frames, rate(r.frames as nat, r.work_micros as nat) as u64);
    lemma_number_lengths(r.frames, cost(r.frames as nat, r.work_micros as nat) as u64);
    lemma_number_lengths(SCREEN_WIDTH as u32, 0);
    lemma_number_lengths(SCREEN_HEIGHT as u32, 0);
    lemma_number_lengths(RAYS_PER_FRAME as u32, 0);
    lemma_mode_length(
        ascii(",\"traced\":{\"frames\":"@),
        r.traced_frames,
        r.traced_micros,
    );
    lemma_mode_length(
        ascii(",\"rasterised\":{\"frames\":"@),
        r.raster_frames,
        r.raster_micros,
    );
    assert(run_text(r).len() <= 203);
    assert(size_text().len() <= 67);
    assert(run_text(r)[0] == ascii("{\"demo\":\"psp-raytracer\",\"frames\":"@)[0]);
}

/// The milliseconds of a frame in thousandths are the one number that, times the
/// frames, the microseconds have reached while they have not reached the next; without
/// a frame there is none.
pub proof fn law_cost_is_time_per_frame(frames: nat, micros: nat)
    ensures
        frames > 0 ==> cost(frames, micros) * frames <= micros < (cost(frames, micros) + 1) * frames,
        frames == 0 ==> cost(frames, micros) == 0,
{
    if frames > 0 {
        lemma_quotient_between(micros as int, frames as int);
    }
}

/// The frames of a second in thousandths are the one number that, times the
/// microseconds, a billion times the frames have reached while they have not reached
/// the next; without any time there is none.
pub proof fn law_rate_is_frames_per_time(frames: nat, micros: nat)
    ensures
        micros > 0 ==> rate(frames, micros) * micros <= frames * 1_000_000_000 < (rate(
            frames,
            micros,
        ) + 1) * micros,
        micros == 0 ==> rate(frames, micros) == 0,
{
    if micros > 0 {
        lemma_quotient_between(frames as int * 1_000_000_000, micros as int);
    }
}

/// A quotient is the one number whose product has been reached while the next has
/// not.
proof fn lemma_quotient_between(x: int, d: int)
    requires
        d > 0,
    ensures
        (x / d) * d <= x < (x / d + 1) * d,
{
    lemma_fundamental_div_mod(x, d);
    let q: int = x / d;
    assert(d * q == q * d) by (nonlinear_arith);
    assert((q + 1) * d == q * d + d) by (nonlinear_arith);
}

/// Only one number is reached while the next is not.
proof fn lemma_quotient_is_one(x: int, d: int, a: int, b: int)
    requires
        d > 0,
        a * d <= x < (a + 1) * d,
        b * d <= x < (b + 1) * d,
    ensures
        a == b,
{
    assert(a == b) by (nonlinear_arith)
        requires
            d > 0,
            a * d < (b + 1) * d,
            b * d < (a + 1) * d,
    ;
}

/// Whether a number is the quotient of two others, rounded down, or nothing where
/// there is nothing to divide by.
pub open spec fn per(n: nat, x: nat, d: nat) -> bool {
    &&& d > 0 ==> n * d <= x < (n + 1) * d
    &&& d == 0 ==> n == 0
}

/// The text of one renderer: its label and its frames, and if it drew any in any time
/// at all, also its frames per second and its milliseconds per frame.
pub proof fn law_mode_text_in_full(label: Seq<u8>, frames: nat, micros: nat, fps: nat, ms: nat)
    requires
        per(fps, frames * 1_000_000_000, micros),
        per(ms, micros, frames),
    ensures
        mode_text(label, frames, micros) == (if frames > 0 && micros > 0 {
            label + decimal(frames) + ascii(",\"fps\":"@) + thousandths(fps) + ascii(",\"ms\":"@)
                + thousandths(ms) + ascii("}"@)
        } else {
            label + decimal(frames) + ascii("}"@)
        }),
{
    lemma_per_is_one(frames, micros, fps, ms);
}

/// A rate and a cost are what they divide to.
proof fn lemma_per_is_one(frames: nat, micros: nat, fps: nat, ms: nat)
    requires
        per(fps, frames * 1_000_000_000, micros),
        per(ms, micros, frames),
    ensures
        rate(frames, micros) == fps,
        cost(frames, micros) == ms,
{
    law_rate_is_frames_per_time(frames, micros);
    law_cost_is_time_per_frame(frames, micros);
    if micros > 0 {
        lemma_quotient_is_one(
            frames as int * 1_000_000_000,
            micros as int,
            rate(frames, micros) as int,
            fps as int,
        );
    }
    if frames > 0 {
        lemma_quotient_is_one(
            micros as int,
            frames as int,
            cost(frames, micros) as int,
            ms as int,
        );
    }
}

/// The report in full, for whatever a run measured: the name of the demo, the frames
/// and the microseconds of the run, its rate and its time per frame, the time and the
/// rate of its work, the size of the picture, and the same for each renderer. Each
/// rate is frames per second and each time milliseconds per frame, in thousandths.
pub proof fn law_report_in_full(
    r: RunResult,
    fps: nat,
    frame_ms: nat,
    work_ms: nat,
    work_fps: nat,
)
    requires
        per(fps, r.frames as nat * 1_000_000_000, r.micros as nat),
        per(frame_ms, r.micros as nat, r.frames as nat),
        per(work_ms, r.work_micros as nat, r.frames as nat),
        per(work_fps, r.frames as nat * 1_000_000_000, r.work_micros as nat),
    ensures
        report(r) == ascii("{\"demo\":\"psp-raytracer\",\"frames\":"@) + decimal(r.frames as nat)
            + ascii(",\"elapsed_us\":"@) + decimal(r.micros as nat) + ascii(",\"fps\":"@)
            + thousandths(fps) + ascii(",\"frame_ms\":"@) + thousandths(frame_ms) + ascii(
            ",\"work_ms\":"@,
        ) + thousandths(work_ms) + ascii(",\"work_fps\":"@) + thousandths(work_fps) + (ascii(
            ",\"width\":"@,
        ) + decimal(480) + ascii(",\"height\":"@) + decimal(272) + ascii(",\"rays_per_frame\":"@)
            + decimal(130560)) + mode_text(
            ascii(",\"traced\":{\"frames\":"@),
            r.traced_frames as nat,
            r.traced_micros as nat,
        ) + mode_text(
            ascii(",\"rasterised\":{\"frames\":"@),
            r.raster_frames as nat,
            r.raster_micros as nat,
        ) + ascii("}\n"@),
{
    lemma_per_is_one(r.frames as nat, r.micros as nat, fps, frame_ms);
    lemma_per_is_one(r.frames as nat, r.work_micros as nat, work_fps, work_ms);
}

/// The bytes of a text are its characters, one for one.
pub proof fn law_ascii_by_characters(s: Seq<char>, i: int)
    requires
        0 <= i < s.len(),
    ensures
        ascii(s).len() == s.len(),
        ascii(s)[i] == s[i] as u8,
{
}

} // verus!
