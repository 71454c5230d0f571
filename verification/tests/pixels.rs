use psp_raytracer::binary32::Binary32;
use psp_raytracer::pixel::{blend, pack, to_byte, Rgb};

fn b(x: f32) -> Binary32 {
    Binary32 { bits: x.to_bits() }
}

#[test]
fn channels_are_clipped() {
    assert_eq!(to_byte(b(-0.5), b(f32::NAN)), 0);
    assert_eq!(to_byte(b(0.0), b(77.0)), 0);
    assert_eq!(to_byte(b(1.0), b(77.0)), 255);
    assert_eq!(to_byte(b(4.0), b(77.0)), 255);
    assert_eq!(to_byte(b(0.25), b(127.5)), 127);
    assert_eq!(to_byte(b(0.9999), b(254.99)), 254);
    assert_eq!(to_byte(b(0.9999), b(300.0)), 255);
    assert_eq!(to_byte(b(f32::NAN), b(f32::NAN)), 0);
}

#[test]
fn red_is_packed_lowest() {
    assert_eq!(pack(Rgb { r: 0x12, g: 0x34, b: 0x56 }), 0xff56_3412);
    assert_eq!(pack(Rgb { r: 0, g: 0, b: 0 }), 0xff00_0000);
    assert_eq!(pack(Rgb { r: 255, g: 255, b: 255 }), 0xffff_ffff);
}

#[test]
fn blend_is_the_midpoint_of_each_channel() {
    assert_eq!(blend(0xff00_0000, 0xff00_0000), 0xff00_0000);
    assert_eq!(blend(0xffff_ffff, 0xffff_ffff), 0xffff_ffff);
    assert_eq!(blend(0xff10_2030, 0xff30_4050), 0xff20_3040);
    assert_eq!(blend(0xff00_00ff, 0xff00_ff00), 0xff00_7f7f);
    assert_eq!(blend(0xff01_0101, 0xff01_0101), 0xff01_0101);
    assert_eq!(blend(0xff01_0203, 0xff03_0301), 0xff02_0202);
    assert_eq!(blend(0, 0), 0xff00_0000);
    for x in 0..256u32 {
        for y in 0..256u32 {
            let mid = (x + y) / 2;
            assert_eq!(blend(0xff00_0000 | x << 8, 0xff00_0000 | y << 8), 0xff00_0000 | mid << 8);
        }
    }
}

#[test]
fn a_colour_blended_with_itself_stays() {
    for a in [0xff00_0000u32, 0xff01_0101, 0xff12_3457, 0xffff_ffff, 0xff80_7f01] {
        assert_eq!(blend(a, a), a);
    }
}

#[test]
fn blend_does_not_depend_on_order() {
    let colours = [0xff12_3456u32, 0xffff_ffff, 0xff00_0000, 0xff80_7f01];
    for &a in &colours {
        for &c in &colours {
            assert_eq!(blend(a, c), blend(c, a));
            assert_eq!(blend(a, c) >> 24, 0xff);
        }
    }
}
