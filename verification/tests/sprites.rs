use psp_raytracer::binary32::Binary32;
use psp_raytracer::bounds::Rect;
use psp_raytracer::pixel::{blend, pack, Rgb};
use psp_raytracer::screen::{SCREEN_HEIGHT, SCREEN_WIDTH, SPRITE_ROWS, SPRITE_STRIDE};
use psp_raytracer::spans::{merge_spans, row_span, row_spans, Crossing, Span, Spans};
use psp_raytracer::sprite::{clear_rects, trace_frame, trace_row, trace_span};

fn b(x: f32) -> Binary32 {
    Binary32 { bits: x.to_bits() }
}

fn crossing(inside: f32, lo: f32, hi: f32) -> Crossing {
    Crossing { inside: b(inside), lo: b(lo), hi: b(hi) }
}

fn span(lo: usize, hi: usize) -> Span {
    Span { lo, hi }
}

const NONE: Rect = Rect { x0: 0, y0: 0, x1: 0, y1: 0 };

#[test]
fn a_crossing_covers_the_columns_it_touches() {
    assert_eq!(row_span(crossing(1.0, 10.25, 12.75)), Some(span(10, 13)));
    assert_eq!(row_span(crossing(1.0, 10.0, 10.0)), Some(span(10, 11)));
    assert_eq!(row_span(crossing(1.0, -5.5, 3.0)), Some(span(0, 4)));
    assert_eq!(row_span(crossing(1.0, 470.5, 490.0)), Some(span(470, 480)));
    assert_eq!(row_span(crossing(1.0, -1000.0, 1000.0)), Some(span(0, 480)));
    assert_eq!(row_span(crossing(1.0, 479.5, 480.0)), Some(span(479, 480)));
}

#[test]
fn a_crossing_off_the_screen_covers_nothing() {
    assert_eq!(row_span(crossing(0.0, 10.0, 12.0)), None);
    assert_eq!(row_span(crossing(-1.0, 10.0, 12.0)), None);
    assert_eq!(row_span(crossing(1.0, -8.0, -0.5)), None);
    assert_eq!(row_span(crossing(1.0, 480.0, 500.0)), None);
    assert_eq!(row_span(crossing(1.0, 12.0, 10.0)), None);
    // What is no number counts as column zero.
    assert_eq!(row_span(crossing(f32::NAN, f32::NAN, f32::NAN)), Some(span(0, 1)));
}

#[test]
fn runs_are_collected_in_order() {
    let c = [
        crossing(1.0, 30.0, 40.0),
        crossing(-1.0, 0.0, 100.0),
        crossing(1.0, 5.0, 9.0),
        crossing(1.0, 900.0, 950.0),
    ];
    let r = row_spans(&c);
    assert_eq!(r.count, 2);
    assert_eq!(r.spans[0], span(30, 41));
    assert_eq!(r.spans[1], span(5, 10));
}

fn merged(list: &[Span]) -> Vec<Span> {
    let mut given = Spans { spans: [span(0, 0); 4], count: list.len() };
    for (i, s) in list.iter().enumerate() {
        given.spans[i] = *s;
    }
    let r = merge_spans(given);
    r.spans[..r.count].to_vec()
}

#[test]
fn overlapping_and_touching_runs_are_merged() {
    assert_eq!(merged(&[]), vec![]);
    assert_eq!(merged(&[span(3, 9)]), vec![span(3, 9)]);
    assert_eq!(merged(&[span(20, 30), span(3, 9)]), vec![span(3, 9), span(20, 30)]);
    assert_eq!(merged(&[span(3, 9), span(9, 12)]), vec![span(3, 12)]);
    assert_eq!(merged(&[span(3, 9), span(10, 12)]), vec![span(3, 9), span(10, 12)]);
    assert_eq!(merged(&[span(3, 30), span(5, 9), span(8, 20)]), vec![span(3, 30)]);
    assert_eq!(
        merged(&[span(50, 60), span(0, 5), span(4, 10), span(55, 80)]),
        vec![span(0, 10), span(50, 80)]
    );
    assert_eq!(merged(&[span(7, 8), span(7, 12), span(7, 9), span(1, 2)]), vec![span(1, 2), span(7, 12)]);
}

/// A picture of its own for every pixel, with a hole on the diagonal.
fn found(px: usize, py: usize) -> Option<Rgb> {
    if (px + py) % 7 == 0 {
        None
    } else {
        Some(Rgb { r: (px % 256) as u8, g: (py % 256) as u8, b: ((px * 3 + py) % 256) as u8 })
    }
}

fn pixel(px: usize, py: usize) -> u32 {
    match found(px, py) {
        Some(c) => pack(c),
        None => 0,
    }
}

fn between(a: u32, c: u32) -> u32 {
    if a == 0 || c == 0 {
        0
    } else {
        blend(a, c)
    }
}

#[test]
fn every_other_pixel_of_a_run_is_traced() {
    for hi in 4..12 {
        let mut row = [9u32; 16];
        trace_span(&mut row, span(3, hi), 5, &found);
        for px in 0..16 {
            let want = if px < 3 || px >= hi {
                9
            } else if (px - 3) % 2 == 0 || px == hi - 1 {
                pixel(px, 5)
            } else {
                between(pixel(px - 1, 5), pixel(px + 1, 5))
            };
            assert_eq!(row[px], want, "pixel {} of 3..{}", px, hi);
        }
    }
}

#[test]
fn a_row_is_traced_where_it_is_covered() {
    let c = [
        crossing(1.0, 30.0, 40.0),
        crossing(1.0, 38.0, 44.5),
        crossing(1.0, -3.0, 1.5),
        crossing(0.0, 0.0, 0.0),
    ];
    let mut row = [9u32; SPRITE_STRIDE];
    trace_row(&mut row, &c, 2, &found);
    assert_eq!(row[0], pixel(0, 2));
    assert_eq!(row[1], pixel(1, 2));
    assert_eq!(row[2], 9);
    assert_eq!(row[29], 9);
    assert_eq!(row[30], pixel(30, 2));
    assert_eq!(row[31], between(pixel(30, 2), pixel(32, 2)));
    assert_eq!(row[44], pixel(44, 2));
    assert_eq!(row[45], 9);
    assert_eq!(row[511], 9);
}

#[test]
fn only_rectangles_are_cleared() {
    let mut sprite = vec![7u32; SPRITE_STRIDE * SPRITE_ROWS];
    let rects = [
        Rect { x0: 2, y0: 1, x1: 5, y1: 3 },
        Rect { x0: 4, y0: 2, x1: 6, y1: 4 },
        NONE,
        Rect { x0: 511, y0: 511, x1: 512, y1: 512 },
    ];
    clear_rects(&mut sprite, &rects);
    let mut cleared = 0;
    for py in 0..SPRITE_ROWS {
        for px in 0..SPRITE_STRIDE {
            if sprite[py * SPRITE_STRIDE + px] == 0 {
                cleared += 1;
            }
        }
    }
    assert_eq!(cleared, 6 + 4 - 1 + 1);
    assert_eq!(sprite[SPRITE_STRIDE + 2], 0);
    assert_eq!(sprite[SPRITE_STRIDE + 5], 7);
    assert_eq!(sprite[3 * SPRITE_STRIDE + 5], 0);
}

#[test]
fn a_frame_leaves_nothing_of_the_one_before() {
    let nothing = crossing(-1.0, 0.0, 0.0);
    let mut rows = vec![[nothing; 4]; SCREEN_HEIGHT];
    rows[100][1] = crossing(4.0, 200.0, 210.0);
    rows[100][3] = crossing(4.0, 205.0, 220.0);
    let rects = [Rect { x0: 190, y0: 99, x1: 230, y1: 102 }, NONE, NONE, NONE];
    let mut sprite = vec![7u32; SPRITE_STRIDE * SPRITE_ROWS];
    trace_frame(&mut sprite, &rects, &rows, &found);
    for py in 0..SPRITE_ROWS {
        for px in 0..SPRITE_STRIDE {
            let got = sprite[py * SPRITE_STRIDE + px];
            let want = if py == 100 && px >= 200 && px < 221 {
                if (px - 200) % 2 == 0 {
                    pixel(px, py)
                } else {
                    between(pixel(px - 1, py), pixel(px + 1, py))
                }
            } else if py >= 99 && py < 102 && px >= 190 && px < 230 {
                0
            } else {
                7
            };
            assert_eq!(got, want, "pixel {} {}", px, py);
        }
    }
    assert_eq!(SCREEN_WIDTH, 480);
}
