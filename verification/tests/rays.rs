use psp_raytracer::binary32::Binary32;
use psp_raytracer::scene::{scene, Path, BOB_HEIGHT, BOB_Y, BOUND_RADIUS, BOUND_X, BOUND_Y, BOUND_Z, ORBIT_Z};
use psp_raytracer::shading::{shade, AMBIENT, DIRECT, HIGHLIGHT, LIGHT_X, LIGHT_Y, LIGHT_Z};
use psp_raytracer::trace::{
    bounce, hit_sphere, in_shadow, is_lit, mirror_of, misses_bound, needs_shadow_ray,
    seeks_floor, self_index, sky_height, trace_with, Bounce, Fade, Hit, Mirror, EPS, FADE, FALLING, FAR, FLOOR_SHINE,
    MATTE, REFLECT_FAR, REFLECT_NEAR, SHINY,
};

fn b(x: f32) -> Binary32 {
    Binary32 { bits: x.to_bits() }
}

#[test]
fn limits_are_the_patterns_they_claim() {
    assert_eq!(EPS, 1.0e-3f32.to_bits());
    assert_eq!(FAR, 1.0e9f32.to_bits());
    assert_eq!(FALLING, (-1.0e-4f32).to_bits());
    assert_eq!(REFLECT_NEAR, 8.0f32.to_bits());
    assert_eq!(REFLECT_FAR, 14.0f32.to_bits());
    assert_eq!(MATTE, 0.01f32.to_bits());
    assert_eq!(SHINY, 0.5f32.to_bits());
}

#[test]
fn the_bound_rules_rays_out() {
    assert!(misses_bound(b(1.0), b(1.0), b(5.0)));
    assert!(misses_bound(b(-1.0), b(1.0), b(-0.1)));
    assert!(!misses_bound(b(-1.0), b(1.0), b(0.0)));
    assert!(!misses_bound(b(1.0), b(-1.0), b(2.0)));
    assert!(!misses_bound(b(0.0), b(1.0), b(2.0)));
}

#[test]
fn a_sphere_is_entered_at_the_nearer_crossing() {
    assert_eq!(hit_sphere(b(1.0), b(2.0), b(4.0)), Some(b(2.0)));
    assert_eq!(hit_sphere(b(1.0), b(0.001), b(4.0)), Some(b(4.0)));
    assert_eq!(hit_sphere(b(1.0), b(-2.0), b(4.0)), Some(b(4.0)));
    assert_eq!(hit_sphere(b(1.0), b(-4.0), b(-2.0)), None);
    assert_eq!(hit_sphere(b(-0.5), b(2.0), b(4.0)), None);
    assert_eq!(hit_sphere(b(f32::NAN), b(f32::NAN), b(f32::NAN)), None);
}

#[test]
fn the_nearest_hit_wins() {
    let hits = [None, Some(b(5.0)), Some(b(3.0)), Some(b(3.0))];
    assert_eq!(trace_with(false, &hits, None), Some((b(3.0), Hit::Sphere(2))));
    assert_eq!(trace_with(false, &hits, Some(b(2.5))), Some((b(2.5), Hit::Floor)));
    assert_eq!(trace_with(false, &hits, Some(b(3.0))), Some((b(3.0), Hit::Sphere(2))));
    assert_eq!(trace_with(false, &hits, Some(b(0.0005))), Some((b(3.0), Hit::Sphere(2))));
}

#[test]
fn nothing_is_hit_beyond_reach() {
    assert_eq!(trace_with(false, &[None; 4], None), None);
    assert_eq!(trace_with(false, &[Some(b(1.0e9)); 4], Some(b(2.0e9))), None);
    assert_eq!(trace_with(false, &[Some(b(f32::NAN)); 4], Some(b(f32::NAN))), None);
    assert_eq!(trace_with(false, &[None; 4], Some(b(0.0))), None);
    assert_eq!(trace_with(false, &[None; 4], Some(b(9.0))), Some((b(9.0), Hit::Floor)));
}

#[test]
fn another_sphere_casts_a_shadow() {
    let hits = [Some(b(2.0)), None, Some(b(9.0)), None];
    assert!(in_shadow(false, &hits, None, b(5.0)));
    assert!(!in_shadow(true, &hits, None, b(5.0)));
    assert!(!in_shadow(false, &hits, Some(0), b(5.0)));
    assert!(in_shadow(false, &hits, Some(0), b(9.5)));
    assert!(!in_shadow(false, &hits, None, b(2.0)));
    assert!(!in_shadow(false, &[None; 4], None, b(5.0)));
    assert_eq!(self_index(Hit::Sphere(3)), Some(3));
    assert_eq!(self_index(Hit::Floor), None);
}

#[test]
fn the_shadow_ray_is_fired_when_it_matters() {
    for &diffuse in &[-1.0f32, -0.0, 0.0, 0.25, 1.0, f32::NAN] {
        for &occlude in &[false, true] {
            let changes = is_lit(b(diffuse), occlude) != is_lit(b(diffuse), false);
            assert_eq!(needs_shadow_ray(b(diffuse), occlude), changes);
        }
    }
    assert!(is_lit(b(0.25), false));
    assert!(!is_lit(b(0.0), false));
}

#[test]
fn only_falling_rays_seek_the_floor() {
    assert!(seeks_floor(true, b(-0.5)));
    assert!(!seeks_floor(false, b(-0.5)));
    assert!(!seeks_floor(true, b(-1.0e-4)));
    assert!(!seeks_floor(true, b(0.5)));
}

#[test]
fn a_ray_that_misses_the_bound_hits_no_sphere() {
    let hits = [None, Some(b(5.0)), Some(b(3.0)), None];
    assert_eq!(trace_with(true, &hits, None), None);
    assert_eq!(trace_with(true, &hits, Some(b(9.0))), Some((b(9.0), Hit::Floor)));
    assert_eq!(trace_with(true, &[None; 4], Some(b(9.0))), trace_with(false, &[None; 4], Some(b(9.0))));
}

fn fade(dist: f32) -> Fade {
    let m = mirror_of(Hit::Floor, b(dist));
    assert_eq!(m.full, FLOOR_SHINE);
    m.fade
}

#[test]
fn the_floor_reflects_less_with_distance() {
    assert_eq!(FLOOR_SHINE as f32 / 1000.0, 0.22);
    assert_eq!(fade(-7.0), Fade::Full);
    assert_eq!(fade(8.0), Fade::Full);
    assert_eq!(fade(8.000001), Fade::Fading(FADE - 1));
    assert_eq!(fade(11.0), Fade::Fading(FADE / 2));
    assert_eq!(fade(13.999999), Fade::Fading(1));
    assert_eq!(fade(14.0), Fade::Off);
    assert_eq!(fade(f32::INFINITY), Fade::Off);
    assert_eq!(fade(f32::NAN), Fade::Unknown);
    let mut d = 8.0f32;
    while d < 14.0 {
        if let Fade::Fading(left) = fade(d) {
            assert_eq!(left as f32 / 1048576.0, 14.0 - d);
        } else {
            assert_eq!(d, 8.0);
        }
        d += 0.0371;
    }
}

#[test]
fn a_sphere_is_as_mirrored_as_it_is() {
    for dist in [0.5f32, 11.0, 100.0, f32::NAN] {
        assert_eq!(mirror_of(Hit::Sphere(0), b(dist)), Mirror { full: 850, fade: Fade::Full });
        assert_eq!(mirror_of(Hit::Sphere(3), b(dist)), Mirror { full: 250, fade: Fade::Full });
    }
}

#[test]
fn a_shadow_leaves_the_ambient_light() {
    let red = [900, 240, 180];
    let s = shade(Hit::Sphere(1), true, b(0.5), true, true);
    assert_eq!((s.albedo, s.lit), (red, false));
    let s = shade(Hit::Sphere(1), true, b(0.5), true, false);
    assert_eq!((s.albedo, s.lit), (red, true));
    // Without shadows, nothing is in the way.
    assert!(shade(Hit::Sphere(1), true, b(0.5), false, true).lit);
    assert!(!shade(Hit::Sphere(1), true, b(-0.5), false, false).lit);
    assert_eq!(shade(Hit::Floor, true, b(0.5), true, true).albedo, [830, 830, 860]);
    assert_eq!(shade(Hit::Floor, false, b(0.5), true, true).albedo, [130, 140, 170]);
    assert_eq!((AMBIENT, DIRECT, HIGHLIGHT), (160, 900, 350));
    assert_eq!((LIGHT_X, LIGHT_Y, LIGHT_Z), (4000, 6000, -3000));
}

#[test]
fn faint_mirrors_get_a_sheen() {
    assert_eq!(bounce(b(0.0)), Bounce::Nothing);
    assert_eq!(bounce(b(0.01)), Bounce::Nothing);
    assert_eq!(bounce(b(0.25)), Bounce::Sheen);
    assert_eq!(bounce(b(0.5)), Bounce::Ray);
    assert_eq!(bounce(b(0.85)), Bounce::Ray);
}

#[test]
fn the_sky_is_clamped() {
    assert_eq!(sky_height(b(-0.25)), b(0.0));
    assert_eq!(sky_height(b(0.25)), b(0.25));
    assert_eq!(sky_height(b(1.25)), b(1.0));
    assert_eq!(sky_height(b(-0.0)), b(-0.0));
}

fn dot(a: [f64; 3], c: [f64; 3]) -> f64 {
    a[0] * c[0] + a[1] * c[1] + a[2] * c[2]
}

/// Approach, excess and discriminant of a ray and a sphere.
fn against(ro: [f64; 3], rd: [f64; 3], centre: [f64; 3], radius: f64) -> (f64, f64, f64) {
    let oc = [ro[0] - centre[0], ro[1] - centre[1], ro[2] - centre[2]];
    let (p, c) = (dot(oc, rd), dot(oc, oc) - radius * radius);
    (p, c, p * p - c)
}

#[test]
fn the_bound_only_saves_time() {
    let bound = [BOUND_X as f64, BOUND_Y as f64, BOUND_Z as f64];
    let (mut missed_rays, mut hit_rays) = (0, 0);
    for k in 0..40000 {
        let f = k as f64;
        let t = f * 0.137;
        let ro = [
            (f * 0.71).sin() * 6000.0,
            (f * 0.37).sin() * 3000.0,
            (f * 0.53).cos() * 6000.0,
        ];
        // Towards somewhere around the scene.
        let d = [
            (f * 1.3).sin() * 4000.0 - ro[0],
            (f * 1.7).sin() * 4000.0 - ro[1],
            (f * 1.9).cos() * 4000.0 - ro[2],
        ];
        let len = dot(d, d).sqrt();
        let rd = [d[0] / len, d[1] / len, d[2] / len];
        let (p, c, disc) = against(ro, rd, bound, BOUND_RADIUS as f64);
        let missed = misses_bound(b(p as f32), b(c as f32), b(disc as f32));
        let hits = scene().map(|s| {
            let centre = match s.path {
                Path::Fixed { x, y, z } => [x as f64, y as f64, z as f64],
                Path::Orbit { phase, radius, speed, bob } => {
                    let a = t * speed as f64 / 1000.0 + phase as f64 / 1000.0;
                    let l = t * bob as f64 / 1000.0 + phase as f64 / 1000.0;
                    [
                        a.cos() * radius as f64,
                        BOB_Y as f64 + l.sin() * BOB_HEIGHT as f64,
                        a.sin() * radius as f64 + ORBIT_Z as f64,
                    ]
                }
            };
            let (p, _, disc) = against(ro, rd, centre, s.radius as f64);
            let root = disc.sqrt();
            hit_sphere(b(disc as f32), b((-p - root) as f32), b((-p + root) as f32))
        });
        if missed {
            missed_rays += 1;
            assert!(hits.iter().all(|h| h.is_none()));
        }
        if hits.iter().any(|h| h.is_some()) {
            hit_rays += 1;
        }
        assert_eq!(trace_with(missed, &hits, None), trace_with(false, &hits, None));
    }
    assert!(missed_rays > 1000 && hit_rays > 1000);
}
