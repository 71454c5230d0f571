use psp_raytracer::binary32::Binary32;
use psp_raytracer::bounds::{
    clamp_pixel, covering_disc, cube_corner, cube_extent, has_silhouette, pixel_rect, Corner,
    Extent, Rect, NEAR_DEPTH,
};
use psp_raytracer::checker::{checker_tile, floor_is_light, TEXEL_DARK, TEXEL_LIGHT};
use psp_raytracer::matcap::{bake_matcap, matcap_of_frame, texel_normal, Normal, MATCAP};
use psp_raytracer::mesh::{build_mesh, GridPoint, MESH_LAT, MESH_LON, MESH_VERTS};
use psp_raytracer::pixel::{pack, to_byte, Rgb};
use psp_raytracer::present::{
    floor_quad, mode_bar, present, sky_quad, sprite_vertices, Layer, SpriteVertex, BAR_RASTER,
    BAR_TRACED, SKY_HORIZON, SKY_TOP,
};
use psp_raytracer::scene::{scene, Path};
use psp_raytracer::spans::{row_span, Crossing};

fn b(x: f32) -> Binary32 {
    Binary32 { bits: x.to_bits() }
}

#[test]
fn corners_take_all_signs() {
    assert_eq!(cube_corner(0), [-1, -1, -1]);
    assert_eq!(cube_corner(1), [1, -1, -1]);
    assert_eq!(cube_corner(2), [-1, 1, -1]);
    assert_eq!(cube_corner(4), [-1, -1, 1]);
    assert_eq!(cube_corner(7), [1, 1, 1]);
}

fn corners(points: [(f32, f32); 8]) -> [Corner; 8] {
    points.map(|(x, y)| Corner { depth: b(3.0), px: b(x), py: b(y) })
}

#[test]
fn an_extent_encloses_its_corners() {
    let c = corners([
        (100.0, 50.0),
        (110.5, 51.0),
        (90.25, 60.0),
        (105.0, 70.5),
        (101.0, 45.0),
        (102.0, 55.0),
        (103.0, 56.0),
        (104.0, f32::NAN),
    ]);
    let e = cube_extent(&c, b(480.0), b(272.0));
    assert_eq!(e, Extent { x0: b(90.25), y0: b(45.0), x1: b(110.5), y1: b(70.5) });
}

#[test]
fn a_corner_behind_the_eye_takes_the_whole_screen() {
    assert_eq!(NEAR_DEPTH, 0.05f32.to_bits());
    let mut c = corners([(100.0, 50.0); 8]);
    c[5].depth = b(0.05);
    let e = cube_extent(&c, b(480.0), b(272.0));
    assert_eq!(e, Extent { x0: b(0.0), y0: b(0.0), x1: b(480.0), y1: b(272.0) });
    c[5].depth = b(0.050001);
    assert_eq!(cube_extent(&c, b(480.0), b(272.0)).x0, b(100.0));
}

#[test]
fn rectangles_are_kept_on_the_screen() {
    assert_eq!(clamp_pixel(b(-3.5), 480), 0);
    assert_eq!(clamp_pixel(b(3.99), 480), 3);
    assert_eq!(clamp_pixel(b(480.0), 480), 480);
    assert_eq!(clamp_pixel(b(1.0e20), 480), 480);
    assert_eq!(clamp_pixel(b(f32::NAN), 480), 0);
    let e = Extent { x0: b(-1.0), y0: b(10.5), x1: b(500.0), y1: b(20.75) };
    let r = pixel_rect(e, 480, 272);
    assert_eq!(r, Rect { x0: 0, y0: 10, x1: 480, y1: 20 });
    assert!(!r.is_empty());
    assert!(Rect { x0: 5, y0: 0, x1: 5, y1: 9 }.is_empty());
    assert!(Rect { x0: 5, y0: 9, x1: 8, y1: 4 }.is_empty());
}

#[test]
fn a_sphere_around_the_eye_has_no_silhouette() {
    assert!(has_silhouette(b(3.0), b(0.55), b(9.0), b(0.25)));
    assert!(!has_silhouette(b(0.55), b(0.55), b(9.0), b(0.25)));
    assert!(!has_silhouette(b(3.0), b(0.55), b(0.2), b(0.25)));
    let d = covering_disc(480, 272);
    assert_eq!((d.cx2, d.cy2, d.r2, d.r), (480, 272, 230400, 480));
}

#[test]
fn the_floor_alternates() {
    assert!(floor_is_light(b(0.5), b(0.5)));
    assert!(!floor_is_light(b(1.5), b(0.5)));
    assert!(!floor_is_light(b(-0.5), b(0.5)));
    assert!(floor_is_light(b(-0.5), b(-0.5)));
    // A whole coordinate belongs to the square above it, on both sides of zero.
    assert!(!floor_is_light(b(-1.0), b(0.0)));
    assert!(floor_is_light(b(-2.0), b(0.0)));
    assert!(!floor_is_light(b(1.0), b(0.0)));
    assert!(floor_is_light(b(1.0e9), b(-1.0e9)));
}

#[test]
fn the_texture_lines_up_with_the_floor() {
    let t = checker_tile();
    assert_eq!(t[0], TEXEL_LIGHT);
    assert_eq!(t[8], TEXEL_DARK);
    assert_eq!(t[8 * 16], TEXEL_DARK);
    assert_eq!(t[8 * 16 + 8], TEXEL_LIGHT);
    assert_eq!(t[255], TEXEL_LIGHT);
    for x8 in -40i32..40 {
        for z8 in -40i32..40 {
            let texel = t[(z8.rem_euclid(16) * 16 + x8.rem_euclid(16)) as usize];
            let light = floor_is_light(b(x8 as f32 / 8.0), b(z8 as f32 / 8.0));
            assert_eq!(texel == TEXEL_LIGHT, light);
        }
    }
}

#[test]
fn texels_stand_for_normals() {
    assert!(texel_normal(0, 0).is_none());
    assert_eq!(texel_normal(32, 31), Some(Normal { nx: 1, ny: 1, r2: 2 }));
    assert_eq!(texel_normal(0, 32), Some(Normal { nx: -63, ny: -1, r2: 3970 }));
    for ty in 0..MATCAP {
        let ny = 1.0 - 2.0 * (ty as f32 + 0.5) / MATCAP as f32;
        for tx in 0..MATCAP {
            let nx = 2.0 * (tx as f32 + 0.5) / MATCAP as f32 - 1.0;
            let r2 = nx * nx + ny * ny;
            match texel_normal(tx, ty) {
                Some(n) => {
                    assert!(r2 < 1.0);
                    assert_eq!(n.nx as f32 / 64.0, nx);
                    assert_eq!(n.ny as f32 / 64.0, ny);
                    assert_eq!(n.r2 as f32 / 4096.0, r2);
                }
                None => assert!(r2 >= 1.0),
            }
        }
    }
}

#[test]
fn a_matcap_is_clear_outside_the_disc() {
    let mut tex = vec![7u32; MATCAP * MATCAP];
    let shade = |n: Normal| Rgb { r: (n.nx + 64) as u8, g: (n.ny + 64) as u8, b: 3 };
    bake_matcap(&mut tex, &shade);
    for ty in 0..MATCAP {
        for tx in 0..MATCAP {
            let want = match texel_normal(tx, ty) {
                Some(n) => pack(shade(n)),
                None => 0,
            };
            assert_eq!(tex[ty * MATCAP + tx], want);
        }
    }
    assert_eq!(tex[0], 0);
    assert_eq!(tex[31 * MATCAP + 32], 0xff03_4141);
}

#[test]
fn every_sphere_is_refreshed_in_turn() {
    let got: Vec<usize> = (6..11).map(matcap_of_frame).collect();
    assert_eq!(got, vec![2, 3, 0, 1, 2]);
    assert_eq!(matcap_of_frame(u32::MAX), 3);
}

#[test]
fn the_mesh_lists_two_triangles_a_quad() {
    let mut mesh = vec![GridPoint { lat: 99, lon: 99 }; MESH_VERTS];
    build_mesh(&mut mesh);
    let mut at = 0;
    for lat in 0..MESH_LAT {
        for lon in 0..MESH_LON {
            let a = GridPoint { lat, lon };
            let bb = GridPoint { lat: lat + 1, lon };
            let c = GridPoint { lat: lat + 1, lon: lon + 1 };
            let d = GridPoint { lat, lon: lon + 1 };
            for p in [a, bb, c, a, c, d] {
                assert_eq!(mesh[at], p);
                at += 1;
            }
        }
    }
    assert_eq!(at, 1440);
}

#[test]
fn sprites_show_the_rectangles_in_view() {
    let none = Rect { x0: 9, y0: 9, x1: 9, y1: 20 };
    let list = sprite_vertices(&[
        none,
        Rect { x0: 1, y0: 2, x1: 30, y1: 40 },
        none,
        Rect { x0: 100, y0: 200, x1: 480, y1: 272 },
    ]);
    assert_eq!(list.count, 4);
    assert_eq!(list.verts[0], SpriteVertex { u: 1, v: 2, x: 1, y: 2 });
    assert_eq!(list.verts[1], SpriteVertex { u: 30, v: 40, x: 30, y: 40 });
    assert_eq!(list.verts[2], SpriteVertex { u: 100, v: 200, x: 100, y: 200 });
    assert_eq!(list.verts[3], SpriteVertex { u: 480, v: 272, x: 480, y: 272 });
    assert_eq!(sprite_vertices(&[none; 4]).count, 0);
}

#[test]
fn a_frame_is_put_together() {
    let p = present(false, 6);
    assert_eq!((p.layer, p.bar), (Layer::Mesh, BAR_RASTER));
    let p = present(true, 0);
    assert_eq!((p.layer, p.bar), (Layer::Nothing, BAR_TRACED));
    let p = present(true, 6);
    assert_eq!((p.layer, p.bar), (Layer::Sprites(6), BAR_TRACED));
    let bar = mode_bar(BAR_TRACED);
    assert_eq!((bar[0].color, bar[0].x, bar[0].y), (0xfff0_c040, 10, 10));
    assert_eq!((bar[1].color, bar[1].x, bar[1].y), (0xfff0_c040, 118, 24));
}

#[test]
fn sky_and_floor_are_two_triangles_each() {
    let sky = sky_quad();
    let got: Vec<(u16, u16)> = sky.iter().map(|p| (p.x, p.y)).collect();
    assert_eq!(got, vec![(0, 0), (0, 272), (480, 272), (0, 0), (480, 272), (480, 0)]);
    assert_eq!(sky[0].color, SKY_TOP);
    assert_eq!(sky[1].color, SKY_HORIZON);
    assert_eq!(sky[5].color, SKY_TOP);
    let floor = floor_quad();
    let got: Vec<(i32, i32)> = floor.iter().map(|p| (p.x, p.z)).collect();
    assert_eq!(got, vec![(-400, -400), (-400, 400), (400, 400), (-400, -400), (400, 400), (400, -400)]);
    for p in floor {
        assert_eq!((p.u * 2, p.v * 2, p.y), (p.x, p.z, -1));
    }
}

#[test]
fn the_scene_has_four_spheres() {
    let s = scene();
    assert_eq!(s[0].path, Path::Fixed { x: 0, y: 150, z: 600 });
    assert_eq!(s[2].path, Path::Orbit { phase: 2094, radius: 2100, speed: 900, bob: 1300 });
    assert_eq!((s[0].radius, s[0].mirror), (1050, 850));
    assert_eq!((s[3].radius, s[3].mirror), (500, 250));
    assert_eq!(s[1].albedo, [900, 240, 180]);
    // Thousandths divide to the very numbers that the decimals stand for.
    assert_eq!(s[0].radius as f32 / 1000.0, 1.05);
    assert_eq!(s[2].albedo[1] as f32 / 1000.0, 0.62);
    assert_eq!(4188 as f32 / 1000.0, 4.188);
}

#[test]
fn the_scene_stays_in_its_bound_and_above_the_floor() {
    for step in 0..20000 {
        let t = step as f64 * 0.01;
        for s in scene() {
            let (x, y, z) = match s.path {
                Path::Fixed { x, y, z } => (x as f64, y as f64, z as f64),
                Path::Orbit { phase, radius, speed, bob } => {
                    let a = t * speed as f64 / 1000.0 + phase as f64 / 1000.0;
                    let l = t * bob as f64 / 1000.0 + phase as f64 / 1000.0;
                    (a.cos() * radius as f64, -150.0 + l.sin() * 350.0, a.sin() * radius as f64 + 400.0)
                }
            };
            let d = (x * x + (y + 100.0) * (y + 100.0) + (z - 500.0) * (z - 500.0)).sqrt();
            assert!(d + s.radius as f64 <= 3300.0);
            assert!(y - s.radius as f64 >= -1000.0);
        }
    }
}

/// The sky at a height between 0 and 1, as it is packed.
fn sky_at(t: f32) -> u32 {
    let channel = |low: f32, high: f32| {
        let v = low * (1.0 - t) + high * t;
        to_byte(b(v), b(v.sqrt() * 255.0))
    };
    pack(Rgb { r: channel(0.06, 0.35), g: channel(0.09, 0.52), b: channel(0.16, 0.85) })
}

#[test]
fn the_sky_is_that_of_the_gradient() {
    assert_eq!(SKY_HORIZON, sky_at(0.5));
    assert_eq!(SKY_HORIZON, 0xff_b5_8c_73);
    // The uppermost ray of a level view.
    let y = 0.62 / (1.0f32 + 0.62 * 0.62).sqrt();
    assert_eq!(SKY_TOP, sky_at(y * 0.5 + 0.5));
    assert_eq!(SKY_TOP, 0xff_d3_a4_87);
}

/// A camera at the origin that looks along z, on a screen of 480 by 272.
fn project(p: [f32; 3]) -> (f32, f32, f32) {
    let scale = 136.0 / (p[2] * 0.62);
    (p[2], 240.0 + p[0] * scale, 136.0 - p[1] * scale)
}

fn rect_of(centre: [f32; 3], radius: f32) -> Rect {
    let mut corners = [Corner { depth: b(0.0), px: b(0.0), py: b(0.0) }; 8];
    for (k, c) in corners.iter_mut().enumerate() {
        let s = cube_corner(k);
        let (depth, px, py) = project([
            centre[0] + s[0] as f32 * radius,
            centre[1] + s[1] as f32 * radius,
            centre[2] + s[2] as f32 * radius,
        ]);
        *c = Corner { depth: b(depth), px: b(px), py: b(py) };
    }
    let e = cube_extent(&corners, b(480.0), b(272.0));
    let number = |x: Binary32| f32::from_bits(x.bits);
    let wide = Extent {
        x0: b(number(e.x0) - 1.0),
        y0: b(number(e.y0) - 1.0),
        x1: b(number(e.x1) + 2.0),
        y1: b(number(e.y1) + 2.0),
    };
    pixel_rect(wide, 480, 272)
}

#[test]
fn a_rectangle_encloses_its_sphere() {
    let spheres = [
        ([0.0, 0.0, 4.0], 1.0),
        ([2.5, -1.0, 5.0], 0.5),
        ([-3.0, 1.5, 3.0], 1.2),
        ([0.2, 0.1, 0.8], 0.9),
        ([0.0, 0.0, -3.0], 1.0),
    ];
    for (c, r) in spheres {
        let rect = rect_of(c, r);
        for i in 0..60 {
            for j in 0..60 {
                let (theta, phi) = (i as f32 * 0.0532, j as f32 * 0.1065);
                let p = [
                    c[0] + r * theta.sin() * phi.cos(),
                    c[1] + r * theta.cos(),
                    c[2] + r * theta.sin() * phi.sin(),
                ];
                let (depth, px, py) = project(p);
                if depth > 0.0 && px >= 0.0 && px < 480.0 && py >= 0.0 && py < 272.0 {
                    let (x, y) = (px as usize, py as usize);
                    assert!(rect.x0 <= x && x < rect.x1 && rect.y0 <= y && y < rect.y1);
                }
            }
        }
    }
}

/// The crossing of a scanline with a circle around the projected centre that
/// reaches to the far rim, with a pixel of margin.
fn crossing_of(c: [f32; 3], r: f32, py: usize) -> Crossing {
    let (depth, cx, cy) = project(c);
    let side = (c[0] * c[0] + c[1] * c[1]).sqrt();
    let tangent = (side * side + depth * depth - r * r).sqrt();
    let reach = r * (r * side / depth + tangent) / (depth * depth - r * r);
    let r_px = reach / 0.62 * 136.0 + 1.0;
    let dy = py as f32 + 0.5 - cy;
    let inside = r_px * r_px - dy * dy;
    let half = inside.sqrt();
    Crossing { inside: b(inside), lo: b(cx - half), hi: b(cx + half) }
}

#[test]
fn a_run_holds_its_sphere_off_to_one_side_too() {
    let spheres = [
        ([0.0, 0.0, 4.0], 1.0),
        ([2.5, -1.0, 5.0], 0.5),
        ([-3.0, 1.5, 3.0], 1.2),
        ([2.0, 0.8, 2.2], 1.0),
        ([-1.9, -0.9, 1.6], 0.7),
    ];
    let mut seen = 0;
    for (c, r) in spheres {
        for i in 0..120 {
            for j in 0..120 {
                let (theta, phi) = (i as f32 * 0.0263, j as f32 * 0.0527);
                let p = [
                    c[0] + r * theta.sin() * phi.cos(),
                    c[1] + r * theta.cos(),
                    c[2] + r * theta.sin() * phi.sin(),
                ];
                let (depth, px, py) = project(p);
                if depth > 0.0 && px >= 0.0 && px < 480.0 && py >= 0.0 && py < 272.0 {
                    seen += 1;
                    let run = row_span(crossing_of(c, r, py as usize));
                    let x = px as usize;
                    assert!(matches!(run, Some(s) if s.lo <= x && x < s.hi));
                }
            }
        }
    }
    assert!(seen > 10000);
}

#[test]
fn three_spheres_orbit_a_larger_mirror() {
    let s = scene();
    for i in 1..4 {
        assert!(s[0].radius > s[i].radius && s[0].mirror > s[i].mirror);
        assert!(matches!(s[i].path, Path::Orbit { radius: 2100, .. }));
        assert!(s[i].mirror >= 0 && s[i].mirror <= 1000);
    }
}
