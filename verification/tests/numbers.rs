use psp_raytracer::binary32::Binary32;
use psp_raytracer::rsqrt::rsqrt_seed;

fn b(x: f32) -> Binary32 {
    Binary32 { bits: x.to_bits() }
}

fn samples() -> Vec<f32> {
    let mut v = vec![
        0.0,
        -0.0,
        1.0,
        -1.0,
        0.5,
        -0.5,
        0.99999994,
        1.0000001,
        -0.99999994,
        -1.0000001,
        255.0,
        255.99998,
        479.99997,
        480.0,
        -3.0,
        -3.25,
        16777215.0,
        16777216.0,
        2147483500.0,
        2147483648.0,
        -2147483648.0,
        -2147483900.0,
        4294967000.0,
        4294967296.0,
        1.0e-45,
        -1.0e-45,
        1.0e-38,
        3.4e38,
        -3.4e38,
        f32::INFINITY,
        f32::NEG_INFINITY,
        f32::NAN,
        -f32::NAN,
    ];
    let mut bits: u32 = 1;
    while bits < 0xfff0_0000 {
        v.push(f32::from_bits(bits));
        bits += 0x0137_9bdf;
    }
    v
}

#[test]
fn order_is_that_of_the_hardware() {
    let all = samples();
    for &x in &all {
        for &y in &all {
            assert_eq!(b(x).lt(b(y)), x < y, "{} < {}", x, y);
            assert_eq!(b(x).le(b(y)), x <= y, "{} <= {}", x, y);
        }
    }
}

#[test]
fn whole_part_is_the_saturating_conversion() {
    for x in samples() {
        assert_eq!(b(x).trunc_u32(), x as u32, "{}", x);
    }
}

#[test]
fn floor_rounds_down_and_saturates() {
    for x in samples() {
        assert_eq!(b(x).floor_i32(), x.floor() as i32, "{}", x);
    }
    assert_eq!(b(-1.0).floor_i32(), -1);
    assert_eq!(b(-1.5).floor_i32(), -2);
    assert_eq!(b(-0.0).floor_i32(), 0);
    assert_eq!(b(f32::NAN).floor_i32(), 0);
}

#[test]
fn first_guess_of_one_over_the_root() {
    assert_eq!(rsqrt_seed(b(1.0)).bits, 0x3f77_59df);
    assert_eq!(rsqrt_seed(b(0.0)).bits, 0x5f37_59df);
    // The largest pattern that can be halved and still subtracted.
    assert_eq!(rsqrt_seed(Binary32 { bits: 0xbe6e_b3bf }).bits, 0);
}

#[test]
fn first_guess_is_close() {
    let mut bits: u32 = 0x0080_0000;
    while bits < 0x7f80_0000 {
        let x = f32::from_bits(bits) as f64;
        let y = f32::from_bits(rsqrt_seed(Binary32 { bits }).bits) as f64;
        let product = y * x.sqrt();
        assert!(product > 0.965 && product < 1.035, "{} gives {}", x, product);
        bits += 0x0001_2345;
    }
}
