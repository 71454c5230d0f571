//! The buffer that the spheres are traced into.
//!
//! Every pixel inside a sphere's rectangle is written each frame, opaque where
//! a ray hit and transparent where it missed, so nothing has to clear the
//! buffer as a whole.

use crate::bounds::Rect;
use crate::pixel::{
    between, blend, law_between_is_midpoint, law_between_keeps_edges, law_pixel_of_found,
    law_pixel_opaque_or_clear, opaque, pack, pixel_of, Rgb,
};
use crate::screen::{SCREEN_HEIGHT, SCREEN_WIDTH, SPRITE_ROWS, SPRITE_STRIDE};
use crate::spans::{
    all_nonempty, covered, law_runs_hold_what_is_touched, lemma_spans_of, merge_spans, row_spans,
    separated, spans_of, touches, Crossing, Span, Spans,
};
use vstd::prelude::*;

verus! {

/// Whether a pixel of a run gets a ray of its own: every other one, and the
/// last, so that each pixel left out has a traced one on both sides.
pub open spec fn has_ray(lo: int, hi: int, px: int) -> bool {
    lo <= px < hi && ((px - lo) % 2 == 0 || px == hi - 1)
}

/// Whether a row holds a finished run: what the rays found where there was
/// one, and in between the average of the two neighbours, or nothing at a
/// silhouette.
pub open spec fn run_finished<F: Fn(usize, usize) -> Option<Rgb>>(
    trace: F,
    py: usize,
    row: Seq<u32>,
    lo: int,
    hi: int,
) -> bool {
    &&& forall|px: int| #[trigger] has_ray(lo, hi, px) ==> ray_gave(trace, px, py, row[px])
    &&& forall|px: int| lo <= px < hi && !(#[trigger] has_ray(lo, hi, px)) ==> filled(row, px)
}

/// Whether a pixel holds what a ray through it found.
pub open spec fn ray_gave<F: Fn(usize, usize) -> Option<Rgb>>(
    trace: F,
    px: int,
    py: usize,
    pixel: u32,
) -> bool {
    exists|found: Option<Rgb>| #[trigger]
        call_ensures(trace, (px as usize, py), found) && pixel == pixel_of(found)
}

/// Whether a pixel was filled in from both sides.
pub open spec fn filled(row: Seq<u32>, px: int) -> bool {
    row[px] == between(row[px - 1], row[px + 1])
}

/// Traces one run of a row: every other pixel gets a ray, the last one always
/// does, and the rest is filled in from both sides.
pub fn trace_span<F: Fn(usize, usize) -> Option<Rgb>>(
    row: &mut [u32],
    span: Span,
    py: usize,
    trace: &F,
)
    requires
        span.lo < span.hi <= old(row)@.len(),
        forall|px: usize| span.lo <= px < span.hi ==> call_requires(*trace, (px, py)),
    ensures
        final(row)@.len() == old(row)@.len(),
        run_finished(*trace, py, final(row)@, span.lo as int, span.hi as int),
        forall|px: int|
            0 <= px < old(row)@.len() && !span.has(px) ==> #[trigger] final(row)@[px] == old(row)@[px],
{
    let lo: usize = span.lo;
    let hi: usize = span.hi;
    let last: usize = hi - 1;
    let rays: usize = (last - lo) / 2 + 1;
    let mut k: usize = 0;
    while k < rays
        invariant
            lo < hi <= row@.len(),
            row@.len() == old(row)@.len(),
            k <= rays,
            rays == (hi - 1 - lo) / 2 + 1,
            forall|q: usize| lo <= q < hi ==> call_requires(*trace, (q, py)),
            forall|q: int|
                lo <= q < lo + 2 * k && (q - lo) % 2 == 0 ==> ray_gave(
                    *trace,
                    q,
                    py,
                    #[trigger] row@[q],
                ),
            forall|q: int|
                0 <= q < row@.len() && !(lo <= q < hi) ==> row@[q] == old(row)@[q],
        decreases rays - k,
    {
        let px: usize = lo + 2 * k;
        cast(row, px, py, trace);
        k += 1;
    }
    if (last - lo) % 2 == 1 {
        cast(row, last, py, trace);
    }
    assert(forall|q: int|
        has_ray(lo as int, hi as int, q) ==> ray_gave(*trace, q, py, #[trigger] row@[q]));
    let mut px: usize = lo + 1;
    while px < last
        invariant
            lo < hi <= row@.len(),
            row@.len() == old(row)@.len(),
            last == hi - 1,
            lo < px <= hi,
            (px - lo) % 2 == 1,
            forall|q: int|
                has_ray(lo as int, hi as int, q) ==> ray_gave(*trace, q, py, #[trigger] row@[q]),
            forall|q: int|
                lo <= q < px && !has_ray(lo as int, hi as int, q) ==> #[trigger] filled(row@, q),
            forall|q: int|
                0 <= q < row@.len() && !(lo <= q < hi) ==> row@[q] == old(row)@[q],
        decreases hi - px,
    {
        let ghost before = row@;
        let a: u32 = row[px - 1];
        let b: u32 = row[px + 1];
        row[px] = if a == 0 || b == 0 {
            0
        } else {
            blend(a, b)
        };
        proof {
            assert forall|q: int|
                lo <= q < px + 2 && !has_ray(lo as int, hi as int, q) implies #[trigger] filled(
                row@,
                q,
            ) by {
                if q < px {
                    assert(filled(before, q));
                }
            }
        }
        px += 2;
    }
}

/// Casts the ray of one pixel and stores what it found.
fn cast<F: Fn(usize, usize) -> Option<Rgb>>(row: &mut [u32], px: usize, py: usize, trace: &F)
    requires
        px < old(row)@.len(),
        call_requires(*trace, (px, py)),
    ensures
        final(row)@ == old(row)@.update(px as int, final(row)@[px as int]),
        ray_gave(*trace, px as int, py, final(row)@[px as int]),
{
    let found: Option<Rgb> = trace(px, py);
    row[px] = match found {
        Some(c) => pack(c),
        None => 0,
    };
}

/// A longest run of covered columns: all of it is covered and neither
/// neighbour is.
pub open spec fn is_run(spans: Seq<Span>, lo: int, hi: int) -> bool {
    &&& lo < hi
    &&& forall|px: int| lo <= px < hi ==> #[trigger] covered(spans, px)
    &&& !covered(spans, lo - 1)
    &&& !covered(spans, hi)
}

/// In a list without touching runs, the longest runs are the list's own.
proof fn lemma_run_in_list(spans: Seq<Span>, lo: int, hi: int) -> (i: int)
    requires
        all_nonempty(spans),
        separated(spans),
        is_run(spans, lo, hi),
    ensures
        0 <= i < spans.len(),
        spans[i].lo == lo,
        spans[i].hi == hi,
{
    assert(covered(spans, lo));
    let i = choose|i: int| 0 <= i < spans.len() && #[trigger] spans[i].has(lo);
    if spans[i].lo < lo {
        assert(spans[i].has(lo - 1));
    }
    if spans[i].hi > hi {
        assert(spans[i].has(hi));
    }
    if spans[i].hi < hi {
        assert(covered(spans, spans[i].hi as int));
        let j = choose|j: int| 0 <= j < spans.len() && #[trigger] spans[j].has(spans[i].hi as int);
        if i < j {
            assert(spans[i].hi < spans[j].lo);
        } else if j < i {
            assert(spans[j].hi < spans[i].lo);
        }
    }
    i
}

/// Whether the pixels of a row that its crossings cover are finished.
pub open spec fn row_finished<F: Fn(usize, usize) -> Option<Rgb>>(
    trace: F,
    py: usize,
    crossings: Seq<Crossing>,
    row: Seq<u32>,
) -> bool {
    forall|lo: int, hi: int| #[trigger]
        is_run(spans_of(crossings), lo, hi) ==> run_finished(trace, py, row, lo, hi)
}

/// Traces what the silhouettes cover of one row, and leaves the rest alone.
pub fn trace_row<F: Fn(usize, usize) -> Option<Rgb>>(
    row: &mut [u32],
    crossings: &[Crossing; 4],
    py: usize,
    trace: &F,
)
    requires
        old(row)@.len() >= SCREEN_WIDTH,
        forall|px: usize| px < SCREEN_WIDTH ==> call_requires(*trace, (px, py)),
    ensures
        final(row)@.len() == old(row)@.len(),
        row_finished(*trace, py, crossings@, final(row)@),
        forall|px: int|
            0 <= px < old(row)@.len() && !covered(spans_of(crossings@), px) ==> #[trigger] final(row)@[px] == old(row)@[px],
{
    proof {
        lemma_spans_of(crossings@);
    }
    let all: Spans = row_spans(crossings);
    let runs: Spans = merge_spans(all);
    proof {
        // Merging takes no run off the screen.
        assert forall|i: int| 0 <= i < runs@.len() implies (#[trigger] runs@[i]).hi
            <= SCREEN_WIDTH by {
            let px: int = runs@[i].hi - 1;
            assert(runs@[i].has(px));
            assert(covered(runs@, px));
            assert(covered(all@, px));
        }
    }
    let mut k: usize = 0;
    while k < runs.count
        invariant
            runs.wf(),
            k <= runs.count,
            row@.len() == old(row)@.len() >= SCREEN_WIDTH,
            all_nonempty(runs@),
            separated(runs@),
            forall|i: int| 0 <= i < runs@.len() ==> (#[trigger] runs@[i]).hi <= SCREEN_WIDTH,
            forall|px: usize| px < SCREEN_WIDTH ==> call_requires(*trace, (px, py)),
            forall|i: int|
                0 <= i < k ==> run_finished(
                    *trace,
                    py,
                    row@,
                    (#[trigger] runs@[i]).lo as int,
                    runs@[i].hi as int,
                ),
            forall|px: int|
                0 <= px < row@.len() && !covered(runs@, px) ==> row@[px] == old(row)@[px],
        decreases runs.count - k,
    {
        let span: Span = runs.spans[k];
        assert(runs@[k as int] == span);
        let ghost before = row@;
        trace_span(row, span, py, trace);
        proof {
            assert forall|i: int| 0 <= i < k implies run_finished(
                *trace,
                py,
                row@,
                (#[trigger] runs@[i]).lo as int,
                runs@[i].hi as int,
            ) by {
                assert(runs@[i].hi < runs@[k as int].lo);
                assert(runs@[i].hi <= SCREEN_WIDTH);
                lemma_run_kept(
                    *trace,
                    py,
                    before,
                    row@,
                    runs@[i].lo as int,
                    runs@[i].hi as int,
                );
            }
            assert forall|px: int|
                0 <= px < row@.len() && !covered(runs@, px) implies row@[px] == old(row)@[px] by {
                assert(!runs@[k as int].has(px));
            }
        }
        k += 1;
    }
    proof {
        assert forall|lo: int, hi: int| #[trigger]
            is_run(spans_of(crossings@), lo, hi) implies run_finished(
            *trace,
            py,
            row@,
            lo,
            hi,
        ) by {
            assert forall|px: int| lo <= px < hi implies #[trigger] covered(runs@, px) by {
                assert(covered(spans_of(crossings@), px));
            }
            assert(is_run(runs@, lo, hi));
            let i = lemma_run_in_list(runs@, lo, hi);
        }
    }
}

/// A run stays finished as long as none of its pixels changes.
proof fn lemma_run_kept<F: Fn(usize, usize) -> Option<Rgb>>(
    trace: F,
    py: usize,
    before: Seq<u32>,
    after: Seq<u32>,
    lo: int,
    hi: int,
)
    requires
        run_finished(trace, py, before, lo, hi),
        forall|px: int| lo <= px < hi ==> after[px] == before[px],
    ensures
        run_finished(trace, py, after, lo, hi),
{
    assert forall|px: int| lo <= px < hi && !(#[trigger] has_ray(lo, hi, px)) implies filled(
        after,
        px,
    ) by {
        assert(filled(before, px));
    }
}

/// Whether any of the rectangles holds a pixel.
pub open spec fn in_rects(rects: Seq<Rect>, px: int, py: int) -> bool {
    exists|i: int| 0 <= i < rects.len() && #[trigger] rects[i].has(px, py)
}

/// Whether a rectangle lies inside the buffer.
pub open spec fn fits_buffer(r: Rect) -> bool {
    r.x1 <= SPRITE_STRIDE && r.y1 <= SPRITE_ROWS
}

/// One row of the buffer.
pub open spec fn row_of(sprite: Seq<u32>, py: int) -> Seq<u32> {
    sprite.subrange(py * SPRITE_STRIDE, (py + 1) * SPRITE_STRIDE)
}

/// Clears every pixel of the rectangles and nothing else.
pub fn clear_rects(sprite: &mut [u32], rects: &[Rect; 4])
    requires
        old(sprite)@.len() == SPRITE_STRIDE * SPRITE_ROWS,
        forall|i: int| 0 <= i < 4 ==> fits_buffer(#[trigger] rects@[i]),
    ensures
        final(sprite)@.len() == old(sprite)@.len(),
        forall|px: int, py: int|
            0 <= px < SPRITE_STRIDE && 0 <= py < SPRITE_ROWS ==> #[trigger] row_of(
                final(sprite)@,
                py,
            )[px] == if in_rects(rects@, px, py) {
                0
            } else {
                row_of(old(sprite)@, py)[px]
            },
{
    let ghost start = sprite@;
    let mut k: usize = 0;
    while k < 4
        invariant
            k <= 4,
            start == old(sprite)@,
            start.len() == SPRITE_STRIDE * SPRITE_ROWS,
            sprite@.len() == start.len(),
            forall|i: int| 0 <= i < 4 ==> fits_buffer(#[trigger] rects@[i]),
            forall|px: int, py: int|
                0 <= px < SPRITE_STRIDE && 0 <= py < SPRITE_ROWS ==> #[trigger] row_of(
                    sprite@,
                    py,
                )[px] == if in_rects(rects@.take(k as int), px, py) {
                    0
                } else {
                    row_of(start, py)[px]
                },
        decreases 4 - k,
    {
        let ghost before = sprite@;
        let r: Rect = rects[k];
        clear_rect(sprite, r);
        proof {
            assert forall|px: int, py: int|
                0 <= px < SPRITE_STRIDE && 0 <= py < SPRITE_ROWS implies #[trigger] row_of(
                sprite@,
                py,
            )[px] == if in_rects(rects@.take(k + 1), px, py) {
                0
            } else {
                row_of(start, py)[px]
            } by {
                lemma_in_rects_next(rects@, k as int, px, py);
                assert(row_of(before, py)[px] == if in_rects(rects@.take(k as int), px, py) {
                    0
                } else {
                    row_of(start, py)[px]
                });
            }
        }
        k += 1;
    }
    assert(rects@.take(4) =~= rects@);
}

/// One more rectangle adds its own pixels and no others.
proof fn lemma_in_rects_next(rects: Seq<Rect>, k: int, px: int, py: int)
    requires
        0 <= k < rects.len(),
    ensures
        in_rects(rects.take(k + 1), px, py) <==> in_rects(rects.take(k), px, py) || rects[k].has(
            px,
            py,
        ),
{
    if in_rects(rects.take(k), px, py) {
        let i = choose|i: int| 0 <= i < k && #[trigger] rects.take(k)[i].has(px, py);
        assert(rects.take(k + 1)[i].has(px, py));
    }
    if rects[k].has(px, py) {
        assert(rects.take(k + 1)[k].has(px, py));
    }
    if in_rects(rects.take(k + 1), px, py) {
        let i = choose|i: int| 0 <= i < k + 1 && #[trigger] rects.take(k + 1)[i].has(px, py);
        if i < k {
            assert(rects.take(k)[i].has(px, py));
        }
    }
}

/// Clears every pixel of one rectangle.
fn clear_rect(sprite: &mut [u32], r: Rect)
    requires
        old(sprite)@.len() == SPRITE_STRIDE * SPRITE_ROWS,
        fits_buffer(r),
    ensures
        final(sprite)@.len() == old(sprite)@.len(),
        forall|px: int, py: int|
            0 <= px < SPRITE_STRIDE && 0 <= py < SPRITE_ROWS ==> #[trigger] row_of(
                final(sprite)@,
                py,
            )[px] == if r.has(px, py) {
                0
            } else {
                row_of(old(sprite)@, py)[px]
            },
{
    let ghost start = sprite@;
    let mut py: usize = r.y0;
    while py < r.y1
        invariant
            fits_buffer(r),
            start == old(sprite)@,
            start.len() == SPRITE_STRIDE * SPRITE_ROWS,
            sprite@.len() == start.len(),
            r.y0 <= py,
            forall|qx: int, qy: int|
                0 <= qx < SPRITE_STRIDE && 0 <= qy < SPRITE_ROWS ==> #[trigger] row_of(
                    sprite@,
                    qy,
                )[qx] == if r.has(qx, qy) && qy < py {
                    0
                } else {
                    row_of(start, qy)[qx]
                },
        decreases r.y1 - py,
    {
        let mut px: usize = r.x0;
        while px < r.x1
            invariant
                fits_buffer(r),
                start.len() == SPRITE_STRIDE * SPRITE_ROWS,
                sprite@.len() == start.len(),
                r.y0 <= py < r.y1,
                r.x0 <= px,
                forall|qx: int, qy: int|
                    0 <= qx < SPRITE_STRIDE && 0 <= qy < SPRITE_ROWS ==> #[trigger] row_of(
                        sprite@,
                        qy,
                    )[qx] == if r.has(qx, qy) && (qy < py || (qy == py && qx < px)) {
                        0
                    } else {
                        row_of(start, qy)[qx]
                    },
            decreases r.x1 - px,
        {
            let ghost before = sprite@;
            sprite[py * SPRITE_STRIDE + px] = 0;
            proof {
                assert forall|qx: int, qy: int|
                    0 <= qx < SPRITE_STRIDE && 0 <= qy < SPRITE_ROWS implies #[trigger] row_of(
                    sprite@,
                    qy,
                )[qx] == if r.has(qx, qy) && (qy < py || (qy == py && qx < px + 1)) {
                    0
                } else {
                    row_of(start, qy)[qx]
                } by {
                    let same = row_of(before, qy)[qx];
                    assert(qy * SPRITE_STRIDE + qx == py * SPRITE_STRIDE + px <==> qy == py && qx
                        == px);
                }
            }
            px += 1;
        }
        py += 1;
    }
}

/// What a traced frame leaves in the buffer, row by row: the silhouettes are
/// finished, the rest of the rectangles is clear, and everything else is as it
/// was.
pub open spec fn frame_finished<F: Fn(usize, usize) -> Option<Rgb>>(
    trace: F,
    rects: Seq<Rect>,
    rows: Seq<[Crossing; 4]>,
    before: Seq<u32>,
    after: Seq<u32>,
) -> bool {
    &&& forall|py: usize|
        py < rows.len() ==> row_finished(
            trace,
            py,
            rows[py as int]@,
            #[trigger] row_of(after, py as int),
        )
    &&& forall|px: int, py: int|
        0 <= px < SPRITE_STRIDE && 0 <= py < SPRITE_ROWS && !(py < rows.len() && covered(
            spans_of(rows[py]@),
            px,
        )) ==> #[trigger] row_of(after, py)[px] == if in_rects(rects, px, py) {
            0
        } else {
            row_of(before, py)[px]
        }
}

/// Traces one frame into the buffer: clears the rectangles that will be drawn
/// and traces what the silhouettes cover of each row.
pub fn trace_frame<F: Fn(usize, usize) -> Option<Rgb>>(
    sprite: &mut [u32],
    rects: &[Rect; 4],
    rows: &[[Crossing; 4]],
    trace: &F,
)
    requires
        old(sprite)@.len() == SPRITE_STRIDE * SPRITE_ROWS,
        forall|i: int| 0 <= i < 4 ==> fits_buffer(#[trigger] rects@[i]),
        rows@.len() == SCREEN_HEIGHT,
        forall|px: usize, py: usize|
            px < SCREEN_WIDTH && py < SCREEN_HEIGHT ==> call_requires(*trace, (px, py)),
    ensures
        final(sprite)@.len() == old(sprite)@.len(),
        frame_finished(*trace, rects@, rows@, old(sprite)@, final(sprite)@),
{
    let ghost start = sprite@;
    clear_rects(sprite, rects);
    let ghost cleared = sprite@;
    let mut py: usize = 0;
    while py < SCREEN_HEIGHT
        invariant
            py <= SCREEN_HEIGHT,
            sprite@.len() == SPRITE_STRIDE * SPRITE_ROWS,
            cleared.len() == sprite@.len(),
            rows@.len() == SCREEN_HEIGHT,
            forall|px: usize, qy: usize|
                px < SCREEN_WIDTH && qy < SCREEN_HEIGHT ==> call_requires(*trace, (px, qy)),
            forall|qy: usize|
                qy < py ==> row_finished(
                    *trace,
                    qy,
                    rows@[qy as int]@,
                    #[trigger] row_of(sprite@, qy as int),
                ),
            forall|px: int, qy: int|
                0 <= px < SPRITE_STRIDE && 0 <= qy < SPRITE_ROWS && !(qy < py && covered(
                    spans_of(rows@[qy]@),
                    px,
                )) ==> #[trigger] row_of(sprite@, qy)[px] == row_of(cleared, qy)[px],
        decreases SCREEN_HEIGHT - py,
    {
        let ghost before = sprite@;
        let (head, rest) = sprite.split_at_mut(py * SPRITE_STRIDE);
        let (row, tail) = rest.split_at_mut(SPRITE_STRIDE);
        let ghost old_row = row@;
        trace_row(row, &rows[py], py, trace);
        let ghost new_row = row@;
        proof {
            assert(old_row =~= row_of(before, py as int));
            assert(sprite@ =~= before.take(py * SPRITE_STRIDE) + new_row + before.skip(
                (py + 1) * SPRITE_STRIDE,
            ));
            assert(row_of(sprite@, py as int) =~= new_row);
            assert forall|qy: int| 0 <= qy < SPRITE_ROWS && qy != py implies #[trigger] row_of(
                sprite@,
                qy,
            ) == row_of(before, qy) by {
                assert(row_of(sprite@, qy) =~= row_of(before, qy));
            }
        }
        py += 1;
    }
}

/// Any rectangle on the screen lies inside the buffer.
pub proof fn law_screen_fits_buffer(r: Rect)
    requires
        r.x1 <= SCREEN_WIDTH,
        r.y1 <= SCREEN_HEIGHT,
    ensures
        fits_buffer(r),
{
}

/// A pixel without a ray of its own has a traced one on either side, so the
/// fill never looks past the run or at another filled pixel.
pub proof fn law_fill_between_rays(lo: int, hi: int, px: int)
    requires
        lo <= px < hi,
        !has_ray(lo, hi, px),
    ensures
        has_ray(lo, hi, px - 1),
        has_ray(lo, hi, px + 1),
{
}

/// Two longest runs that share a column are the same run: a pixel that two
/// spheres cover belongs to one run only, and is traced once.
pub proof fn law_pixel_in_one_run(
    spans: Seq<Span>,
    lo1: int,
    hi1: int,
    lo2: int,
    hi2: int,
    px: int,
)
    requires
        is_run(spans, lo1, hi1),
        is_run(spans, lo2, hi2),
        lo1 <= px < hi1,
        lo2 <= px < hi2,
    ensures
        lo1 == lo2,
        hi1 == hi2,
{
    if lo1 < lo2 {
        assert(covered(spans, lo2 - 1));
    } else if lo2 < lo1 {
        assert(covered(spans, lo1 - 1));
    }
    if hi1 < hi2 {
        assert(covered(spans, hi1));
    } else if hi2 < hi1 {
        assert(covered(spans, hi2));
    }
}

/// Every pixel of a finished run is either opaque or transparent.
pub proof fn law_run_opaque_or_clear<F: Fn(usize, usize) -> Option<Rgb>>(
    trace: F,
    py: usize,
    row: Seq<u32>,
    lo: int,
    hi: int,
    px: int,
)
    requires
        run_finished(trace, py, row, lo, hi),
        lo <= px < hi,
    ensures
        row[px] == 0 || opaque(row[px]),
{
    if has_ray(lo, hi, px) {
        let found = choose|found: Option<Rgb>| #[trigger]
            call_ensures(trace, (px as usize, py), found) && row[px] == pixel_of(found);
        law_pixel_opaque_or_clear(found);
    } else {
        assert(filled(row, px));
        law_between_keeps_edges(row[px - 1], row[px + 1]);
    }
}

/// The first column of the longest run around a covered column.
proof fn lemma_left_end(spans: Seq<Span>, px: int) -> (lo: int)
    requires
        covered(spans, px),
    ensures
        lo <= px,
        forall|q: int| lo <= q <= px ==> #[trigger] covered(spans, q),
        !covered(spans, lo - 1),
    decreases px,
{
    let i = choose|i: int| 0 <= i < spans.len() && #[trigger] spans[i].has(px);
    if covered(spans, px - 1) {
        let i = choose|i: int| 0 <= i < spans.len() && #[trigger] spans[i].has(px - 1);
        lemma_left_end(spans, px - 1)
    } else {
        px
    }
}

/// The column after the longest run around a covered column.
proof fn lemma_right_end(spans: Seq<Span>, px: int) -> (hi: int)
    requires
        covered(spans, px),
    ensures
        px < hi,
        forall|q: int| px <= q < hi ==> #[trigger] covered(spans, q),
        !covered(spans, hi),
    decreases usize::MAX - px,
{
    let i = choose|i: int| 0 <= i < spans.len() && #[trigger] spans[i].has(px);
    if covered(spans, px + 1) {
        let i = choose|i: int| 0 <= i < spans.len() && #[trigger] spans[i].has(px + 1);
        lemma_right_end(spans, px + 1)
    } else {
        px + 1
    }
}

/// Every covered column lies in a longest run.
pub proof fn law_covered_lies_in_run(spans: Seq<Span>, px: int) -> (run: (int, int))
    requires
        covered(spans, px),
    ensures
        is_run(spans, run.0, run.1),
        run.0 <= px < run.1,
{
    let lo = lemma_left_end(spans, px);
    let hi = lemma_right_end(spans, px);
    (lo, hi)
}

/// After a frame, every pixel that will be drawn is either opaque or
/// transparent, whatever the buffer held before: nothing of an earlier frame
/// is left in a rectangle.
pub proof fn law_frame_opaque_or_clear<F: Fn(usize, usize) -> Option<Rgb>>(
    trace: F,
    rects: Seq<Rect>,
    rows: Seq<[Crossing; 4]>,
    before: Seq<u32>,
    after: Seq<u32>,
    px: int,
    py: int,
)
    requires
        frame_finished(trace, rects, rows, before, after),
        rows.len() == SCREEN_HEIGHT,
        0 <= px < SPRITE_STRIDE,
        0 <= py < SPRITE_ROWS,
        in_rects(rects, px, py) || (py < SCREEN_HEIGHT && covered(spans_of(rows[py]@), px)),
    ensures
        row_of(after, py)[px] == 0 || opaque(row_of(after, py)[px]),
{
    if py < rows.len() && covered(spans_of(rows[py]@), px) {
        let run = law_covered_lies_in_run(spans_of(rows[py]@), px);
        assert(row_finished(trace, py as usize, rows[py]@, row_of(after, py as usize as int)));
        law_run_opaque_or_clear(trace, py as usize, row_of(after, py), run.0, run.1, px);
    }
}

/// A frame leaves alone what is in no rectangle and under no silhouette.
pub proof fn law_frame_leaves_rest<F: Fn(usize, usize) -> Option<Rgb>>(
    trace: F,
    rects: Seq<Rect>,
    rows: Seq<[Crossing; 4]>,
    before: Seq<u32>,
    after: Seq<u32>,
    px: int,
    py: int,
)
    requires
        frame_finished(trace, rects, rows, before, after),
        0 <= px < SPRITE_STRIDE,
        0 <= py < SPRITE_ROWS,
        !in_rects(rects, px, py),
        py >= rows.len() || !covered(spans_of(rows[py]@), px),
    ensures
        row_of(after, py)[px] == row_of(before, py)[px],
{
}

/// Whether a column of a scanline is touched by any of its crossings.
pub open spec fn any_touches(crossings: Seq<Crossing>, px: int) -> bool {
    exists|i: int| 0 <= i < crossings.len() && #[trigger] touches(crossings[i], px)
}

/// Whether columns `lo` up to `hi` of a scanline are touched and their neighbours
/// are not.
pub open spec fn touched_run(crossings: Seq<Crossing>, lo: int, hi: int) -> bool {
    &&& lo < hi
    &&& forall|px: int| lo <= px < hi ==> #[trigger] any_touches(crossings, px)
    &&& !any_touches(crossings, lo - 1)
    &&& !any_touches(crossings, hi)
}

/// The runs that are traced are those of touched columns.
proof fn lemma_touched_run(crossings: Seq<Crossing>, lo: int, hi: int)
    requires
        touched_run(crossings, lo, hi),
    ensures
        is_run(spans_of(crossings), lo, hi),
{
    assert forall|px: int| lo <= px < hi implies #[trigger] covered(spans_of(crossings), px) by {
        law_runs_hold_what_is_touched(crossings, px);
        assert(any_touches(crossings, px));
    }
    law_runs_hold_what_is_touched(crossings, lo - 1);
    law_runs_hold_what_is_touched(crossings, hi);
}

/// A traced run, pixel by pixel. The first pixel, every other one after it and the
/// last hold what the ray through that very pixel found: its colour packed with
/// red lowest, or nothing. Each of the others is made of its two neighbours:
/// nothing where either is, and else the midpoint of each channel.
pub proof fn law_run_shows_its_rays<F: Fn(usize, usize) -> Option<Rgb>>(
    trace: F,
    py: usize,
    row: Seq<u32>,
    lo: int,
    hi: int,
    px: int,
)
    requires
        run_finished(trace, py, row, lo, hi),
        lo <= px < hi,
    ensures
        (px - lo) % 2 == 0 || px == hi - 1 ==> exists|found: Option<Rgb>|
            #[trigger] call_ensures(trace, (px as usize, py), found) && row[px] == match found {
                Some(c) => 0xff00_0000 + c.b * 65536 + c.g * 256 + c.r,
                None => 0,
            },
        (px - lo) % 2 == 1 && px < hi - 1 ==> {
            let (a, b, m) = (row[px - 1] as int, row[px + 1] as int, row[px] as int);
            &&& a == 0 || b == 0 ==> m == 0
            &&& a != 0 && b != 0 ==> {
                &&& m >= 0xff00_0000
                &&& 2 * (m % 256) <= a % 256 + b % 256 <= 2 * (m % 256) + 1
                &&& 2 * (m / 256 % 256) <= a / 256 % 256 + b / 256 % 256 <= 2 * (m / 256 % 256) + 1
                &&& 2 * (m / 65536 % 256) <= a / 65536 % 256 + b / 65536 % 256 <= 2 * (m / 65536
                    % 256) + 1
            }
        },
{
    if (px - lo) % 2 == 0 || px == hi - 1 {
        assert(has_ray(lo, hi, px));
        let found = choose|found: Option<Rgb>| #[trigger]
            call_ensures(trace, (px as usize, py), found) && row[px] == pixel_of(found);
        law_pixel_of_found(found);
        assert(call_ensures(trace, (px as usize, py), found));
    } else {
        assert(!has_ray(lo, hi, px));
        assert(filled(row, px));
        law_between_keeps_edges(row[px - 1], row[px + 1]);
        if row[px - 1] != 0 && row[px + 1] != 0 {
            law_between_is_midpoint(row[px - 1], row[px + 1]);
        }
    }
}

/// After a row has been traced, every pixel of a run of touched columns that gets
/// a ray holds what the ray through that column and this row found.
pub proof fn law_row_shows_its_rays<F: Fn(usize, usize) -> Option<Rgb>>(
    trace: F,
    py: usize,
    crossings: Seq<Crossing>,
    row: Seq<u32>,
    lo: int,
    hi: int,
    px: int,
)
    requires
        row_finished(trace, py, crossings, row),
        touched_run(crossings, lo, hi),
        lo <= px < hi,
    ensures
        (px - lo) % 2 == 0 || px == hi - 1 ==> exists|found: Option<Rgb>|
            #[trigger] call_ensures(trace, (px as usize, py), found) && row[px] == match found {
                Some(c) => 0xff00_0000 + c.b * 65536 + c.g * 256 + c.r,
                None => 0,
            },
        (px - lo) % 2 == 1 && px < hi - 1 ==> {
            &&& row[px - 1] == 0 || row[px + 1] == 0 ==> row[px] == 0
            &&& row[px - 1] != 0 && row[px + 1] != 0 ==> row[px] >= 0xff00_0000
        },
{
    lemma_touched_run(crossings, lo, hi);
    assert(run_finished(trace, py, row, lo, hi));
    law_run_shows_its_rays(trace, py, row, lo, hi, px);
}

/// After a frame, the buffer at row `py` and column `px` holds what the ray through
/// that same column and row found, for every scanline of the screen and every pixel
/// of it that gets a ray: the first of a run of touched columns, every other one
/// after it, and the last. The buffer has 512 pixels to a row.
pub proof fn law_frame_shows_its_rays<F: Fn(usize, usize) -> Option<Rgb>>(
    trace: F,
    rects: Seq<Rect>,
    rows: Seq<[Crossing; 4]>,
    before: Seq<u32>,
    after: Seq<u32>,
    py: usize,
    lo: int,
    hi: int,
    px: int,
)
    requires
        frame_finished(trace, rects, rows, before, after),
        rows.len() == 272,
        after.len() == 512 * 512,
        py < 272,
        touched_run(rows[py as int]@, lo, hi),
        lo <= px < hi,
        (px - lo) % 2 == 0 || px == hi - 1,
    ensures
        exists|found: Option<Rgb>|
            #[trigger] call_ensures(trace, (px as usize, py), found) && after[py * 512 + px]
                == match found {
                Some(c) => 0xff00_0000 + c.b * 65536 + c.g * 256 + c.r,
                None => 0,
            },
{
    let row = row_of(after, py as int);
    assert(row_finished(trace, py, rows[py as int]@, row));
    lemma_touched_on_screen(rows[py as int]@, px);
    law_row_shows_its_rays(trace, py, rows[py as int]@, row, lo, hi, px);
    assert(row[px] == after[py * 512 + px]);
}

/// Only columns of the screen are touched.
proof fn lemma_touched_on_screen(crossings: Seq<Crossing>, px: int)
    ensures
        any_touches(crossings, px) ==> 0 <= px < 480,
{
}

/// After a frame, the pixels of a run that get no ray are made of their two
/// neighbours in the same row of the buffer.
pub proof fn law_frame_fills_between<F: Fn(usize, usize) -> Option<Rgb>>(
    trace: F,
    rects: Seq<Rect>,
    rows: Seq<[Crossing; 4]>,
    before: Seq<u32>,
    after: Seq<u32>,
    py: usize,
    lo: int,
    hi: int,
    px: int,
)
    requires
        frame_finished(trace, rects, rows, before, after),
        rows.len() == 272,
        after.len() == 512 * 512,
        py < 272,
        touched_run(rows[py as int]@, lo, hi),
        lo <= px < hi - 1,
        (px - lo) % 2 == 1,
    ensures
        ({
            let a = after[py * 512 + px - 1] as int;
            let b = after[py * 512 + px + 1] as int;
            let m = after[py * 512 + px] as int;
            &&& a == 0 || b == 0 ==> m == 0
            &&& a != 0 && b != 0 ==> {
                &&& m >= 0xff00_0000
                &&& 2 * (m % 256) <= a % 256 + b % 256 <= 2 * (m % 256) + 1
                &&& 2 * (m / 256 % 256) <= a / 256 % 256 + b / 256 % 256 <= 2 * (m / 256 % 256) + 1
                &&& 2 * (m / 65536 % 256) <= a / 65536 % 256 + b / 65536 % 256 <= 2 * (m / 65536
                    % 256) + 1
            }
        }),
{
    let row = row_of(after, py as int);
    let crossings = rows[py as int]@;
    assert(row_finished(trace, py, crossings, row));
    assert(any_touches(crossings, px) && any_touches(crossings, px + 1));
    assert(any_touches(crossings, px - 1));
    lemma_touched_on_screen(crossings, px - 1);
    lemma_touched_on_screen(crossings, px);
    lemma_touched_on_screen(crossings, px + 1);
    lemma_touched_run(crossings, lo, hi);
    assert(run_finished(trace, py, row, lo, hi));
    law_run_shows_its_rays(trace, py, row, lo, hi, px);
    assert(row[px] == after[py * 512 + px]);
    assert(row[px - 1] == after[py * 512 + px - 1]);
    assert(row[px + 1] == after[py * 512 + px + 1]);
}

/// After a frame, a pixel of the buffer that no crossing touches is clear if any
/// of the rectangles holds it, and else what it was before.
pub proof fn law_frame_clears_the_rest<F: Fn(usize, usize) -> Option<Rgb>>(
    trace: F,
    rects: Seq<Rect>,
    rows: Seq<[Crossing; 4]>,
    before: Seq<u32>,
    after: Seq<u32>,
    px: int,
    py: int,
)
    requires
        frame_finished(trace, rects, rows, before, after),
        rows.len() == 272,
        before.len() == 512 * 512,
        after.len() == 512 * 512,
        0 <= px < 512,
        0 <= py < 512,
        py < 272 ==> !any_touches(rows[py]@, px),
    ensures
        (exists|i: int|
            0 <= i < rects.len() && (#[trigger] rects[i]).x0 <= px < rects[i].x1 && rects[i].y0
                <= py < rects[i].y1) ==> after[py * 512 + px] == 0,
        !(exists|i: int|
            0 <= i < rects.len() && (#[trigger] rects[i]).x0 <= px < rects[i].x1 && rects[i].y0
                <= py < rects[i].y1) ==> after[py * 512 + px] == before[py * 512 + px],
{
    if py < 272 {
        law_runs_hold_what_is_touched(rows[py]@, px);
    }
    law_in_rects_by_edges(rects, px, py);
    law_rows_of_buffer(before, px, py);
    law_rows_of_buffer(after, px, py);
}

/// A pixel lies in one of the rectangles if it lies between the edges of any.
pub proof fn law_in_rects_by_edges(rects: Seq<Rect>, px: int, py: int)
    ensures
        in_rects(rects, px, py) <==> exists|i: int|
            0 <= i < rects.len() && (#[trigger] rects[i]).x0 <= px < rects[i].x1 && rects[i].y0
                <= py < rects[i].y1,
{
    if in_rects(rects, px, py) {
        let i = choose|i: int| 0 <= i < rects.len() && #[trigger] rects[i].has(px, py);
        assert(rects[i].x0 <= px);
    }
    if exists|i: int|
        0 <= i < rects.len() && (#[trigger] rects[i]).x0 <= px < rects[i].x1 && rects[i].y0 <= py
            < rects[i].y1 {
        let i = choose|i: int|
            0 <= i < rects.len() && (#[trigger] rects[i]).x0 <= px < rects[i].x1 && rects[i].y0
                <= py < rects[i].y1;
        assert(rects[i].has(px, py));
    }
}

/// The buffer holds its rows one after the other, 512 pixels each.
pub proof fn law_rows_of_buffer(sprite: Seq<u32>, px: int, py: int)
    requires
        sprite.len() == 512 * 512,
        0 <= px < 512,
        0 <= py < 512,
    ensures
        row_of(sprite, py)[px] == sprite[py * 512 + px],
{
}

/// Every rectangle that ends inside the buffer can be cleared, and no other.
pub proof fn law_fitting_by_edges(r: Rect)
    ensures
        fits_buffer(r) <==> r.x1 <= 512 && r.y1 <= 512,
{
}

} // verus!
