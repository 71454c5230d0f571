use psp_raytracer::decimal::{put, put_milli, put_u64, write_u64};
use psp_raytracer::report::{write_result, RunResult, RESULT_SIZE};
use psp_raytracer::run::{to_micros, Choice, Run, FRAMES};

#[test]
fn numbers_are_written_in_decimal() {
    let mut buf = [b'x'; 24];
    assert_eq!(write_u64(&mut buf, 0), 1);
    assert_eq!(&buf[..2], b"0x");
    assert_eq!(write_u64(&mut buf, 18446744073709551615), 20);
    assert_eq!(&buf[..21], b"18446744073709551615x");
    assert_eq!(write_u64(&mut buf, 1050), 4);
    assert_eq!(&buf[..5], b"10506");
    for v in [1u64, 9, 10, 99, 100, 12345678901234567890] {
        let n = write_u64(&mut buf, v);
        assert_eq!(core::str::from_utf8(&buf[..n]).unwrap().parse::<u64>().unwrap(), v);
    }
}

#[test]
fn text_is_appended() {
    let mut buf = [b'.'; 8];
    assert_eq!(put(&mut buf, 2, b"abc"), 5);
    assert_eq!(&buf, b"..abc...");
    assert_eq!(put(&mut buf, 8, b""), 8);
    assert_eq!(put_u64(&mut buf, 1, 42), 3);
    assert_eq!(&buf, b".42bc...");
}

#[test]
fn thousandths_have_three_places() {
    for (milli, want) in [
        (0u64, "0.000"),
        (5, "0.005"),
        (50, "0.050"),
        (500, "0.500"),
        (1000, "1.000"),
        (59940, "59.940"),
        (123456789, "123456.789"),
        (u64::MAX, "18446744073709551.615"),
    ] {
        let mut buf = [b'x'; 24];
        let n = put_milli(&mut buf, 1, milli);
        assert_eq!(core::str::from_utf8(&buf[1..n]).unwrap(), want);
        assert_eq!(buf[0], b'x');
        assert_eq!(buf[n], b'x');
    }
}

fn text_of(r: RunResult) -> String {
    let mut buf = [0u8; RESULT_SIZE];
    let n = write_result(&mut buf, r);
    assert!(buf[n..].iter().all(|c| *c == 0));
    String::from_utf8(buf[..n].to_vec()).unwrap()
}

#[test]
fn report_of_a_run_with_both_renderers() {
    let r = RunResult {
        frames: 300,
        micros: 10_000_000,
        work_micros: 6_000_001,
        traced_frames: 200,
        traced_micros: 5_000_000,
        raster_frames: 100,
        raster_micros: 1_000_001,
    };
    assert_eq!(
        text_of(r),
        "{\"demo\":\"psp-raytracer\",\"frames\":300,\"elapsed_us\":10000000,\"fps\":30.000,\
         \"frame_ms\":33.333,\"work_ms\":20.000,\"work_fps\":49.999,\"width\":480,\"height\":272,\
         \"rays_per_frame\":130560,\"traced\":{\"frames\":200,\"fps\":40.000,\"ms\":25.000},\
         \"rasterised\":{\"frames\":100,\"fps\":99.999,\"ms\":10.000}}\n"
    );
}

#[test]
fn report_of_an_empty_run() {
    let r = RunResult {
        frames: 0,
        micros: 0,
        work_micros: 0,
        traced_frames: 0,
        traced_micros: 7,
        raster_frames: 7,
        raster_micros: 0,
    };
    assert_eq!(
        text_of(r),
        "{\"demo\":\"psp-raytracer\",\"frames\":0,\"elapsed_us\":0,\"fps\":0.000,\
         \"frame_ms\":0.000,\"work_ms\":0.000,\"work_fps\":0.000,\"width\":480,\"height\":272,\
         \"rays_per_frame\":130560,\"traced\":{\"frames\":0},\"rasterised\":{\"frames\":7}}\n"
    );
}

#[test]
fn the_largest_report_fits() {
    let r = RunResult {
        frames: u32::MAX,
        micros: u64::MAX / 1000,
        work_micros: u64::MAX,
        traced_frames: u32::MAX,
        traced_micros: u64::MAX,
        raster_frames: 1,
        raster_micros: u64::MAX,
    };
    let text = text_of(r);
    assert!(text.len() <= RESULT_SIZE);
    assert!(text.starts_with("{") && text.ends_with("}\n"));
}

#[test]
fn a_run_begins_with_the_ray_tracer() {
    let r = Run::start(true, 1_000_000, 77);
    assert_eq!(r.choice, Choice { traced: true, since: 77 });
    assert_eq!(r.period, 6_000_000);
    assert_eq!(r.frame, 0);
    assert!(r.goes_on());
}

#[test]
fn buttons_pick_the_renderer() {
    let mut r = Run::start(false, 10, 0);
    assert!(!r.choose_renderer(false, true, 5));
    assert_eq!(r.choice, Choice { traced: false, since: 5 });
    assert!(r.choose_renderer(true, true, 8));
    assert_eq!(r.choice, Choice { traced: true, since: 8 });
}

#[test]
fn the_demo_alternates_on_its_own() {
    let mut r = Run::start(false, 10, 0);
    assert!(r.choose_renderer(false, false, 60));
    assert!(!r.choose_renderer(false, false, 61));
    assert!(!r.choose_renderer(false, false, 121));
    assert!(r.choose_renderer(false, false, 122));
    // The clock may wrap.
    let mut r = Run::start(false, 10, u64::MAX - 30);
    assert!(r.choose_renderer(false, false, 29));
    assert!(!r.choose_renderer(false, false, 30));
}

#[test]
fn a_benchmark_does_not_alternate() {
    let mut r = Run::start(true, 10, 0);
    assert!(r.choose_renderer(false, false, 1_000_000));
    assert_eq!(r.choice.since, 0);
}

#[test]
fn a_benchmark_has_its_frames_and_counts_them() {
    let mut r = Run::start(true, 1_000_000, 1000);
    let mut now = 1000u64;
    while r.goes_on() {
        let right = r.frame == 200;
        let traced = r.choose_renderer(false, right, now);
        let cost = if traced { 30_000 } else { 10_000 };
        r.record(now, now + cost);
        now += 40_000;
    }
    assert_eq!(r.frame, FRAMES);
    let res = r.finish(1000, now, 1_000_000);
    assert_eq!(res.frames, res.traced_frames + res.raster_frames);
    assert!(res.work_micros <= res.micros);
    assert_eq!(
        res,
        RunResult {
            frames: 300,
            micros: 12_000_000,
            work_micros: 7_000_000,
            traced_frames: 200,
            traced_micros: 6_000_000,
            raster_frames: 100,
            raster_micros: 1_000_000,
        }
    );
}

#[test]
fn ticks_are_converted_rounding_down() {
    assert_eq!(to_micros(7, 3), 2_333_333);
    assert_eq!(to_micros(0, 1), 0);
    assert_eq!(to_micros(18446744073709, 1_000_000), 18446744073709);
}

#[test]
fn the_demo_never_ends() {
    let mut r = Run::start(false, 1_000_000, 0);
    r.frame = FRAMES;
    assert!(r.goes_on());
    r.frame = u32::MAX;
    r.traced_frames = u32::MAX - 5;
    r.raster_frames = 5;
    assert!(r.goes_on());
    // The counters stay full, the time goes on.
    r.record(100, 140);
    assert!(r.goes_on());
    assert_eq!((r.frame, r.traced_frames, r.raster_frames), (u32::MAX, u32::MAX - 5, 5));
    assert_eq!((r.work_ticks, r.traced_ticks), (40, 40));
    let mut b = Run::start(true, 1_000_000, 0);
    b.frame = FRAMES - 1;
    assert!(b.goes_on());
    b.frame = FRAMES;
    assert!(!b.goes_on());
}

#[test]
fn a_report_without_frames_takes_any_time() {
    let r = RunResult {
        frames: 0,
        micros: u64::MAX,
        work_micros: 0,
        traced_frames: 0,
        traced_micros: 0,
        raster_frames: 0,
        raster_micros: 0,
    };
    let text = text_of(r);
    assert!(text.contains("\"elapsed_us\":18446744073709551615,\"fps\":0.000,\"frame_ms\":0.000"));
}
