use pathtracer::camera::{Camera2D, Film};
use pathtracer::math::{clamp, least_aligned_axis, Axis};
use pathtracer::primitive::{closest_hit, nearest_root, order_key};
use pathtracer::renderer::{BounceEvent, Ndc, PathState, PtRenderer, MAX_BOUNCES};

fn key(t: f32) -> u32 {
    order_key(t.to_bits())
}

#[test]
fn clamp_limits_to_range() {
    assert_eq!(clamp(5, 0, 10), 5);
    assert_eq!(clamp(-3, 0, 10), 0);
    assert_eq!(clamp(12, 0, 10), 10);
    assert_eq!(clamp(0, 0, 10), 0);
    assert_eq!(clamp(10, 0, 10), 10);
}

#[test]
fn least_aligned_axis_picks_smallest_component() {
    assert_eq!(least_aligned_axis(1, 5, 7), Axis::X);
    assert_eq!(least_aligned_axis(5, 1, 7), Axis::Y);
    assert_eq!(least_aligned_axis(5, 7, 1), Axis::Z);
}

#[test]
fn least_aligned_axis_tie_breaks() {
    // x and y tie below z: y wins.
    assert_eq!(least_aligned_axis(2, 2, 7), Axis::Y);
    // x and z tie below y: z wins.
    assert_eq!(least_aligned_axis(2, 7, 2), Axis::Z);
    // y and z tie below x: z wins.
    assert_eq!(least_aligned_axis(7, 2, 2), Axis::Z);
    // all equal: z wins.
    assert_eq!(least_aligned_axis(3, 3, 3), Axis::Z);
}

#[test]
fn least_aligned_axis_of_unit_axes() {
    // For v = (0, 0, 1) the first axis with the smallest magnitude that is
    // not strictly beaten: x and y tie at zero, so y is chosen.
    let a = least_aligned_axis(0.0f32.to_bits(), 0.0f32.to_bits(), 1.0f32.to_bits());
    assert_eq!(a, Axis::Y);
    let b = least_aligned_axis(1.0f32.to_bits(), 0.5f32.to_bits(), 0.25f32.to_bits());
    assert_eq!(b, Axis::Z);
}

#[test]
fn order_key_follows_float_order() {
    let values = [-1.0e6f32, -2.5, -1.0, -0.001, 0.0, 0.001, 1.0, 2.5, 10000.0, 1.0e6];
    for w in values.windows(2) {
        assert!(key(w[0]) < key(w[1]), "{} vs {}", w[0], w[1]);
    }
    assert_eq!(order_key(0x8000_0000), 0x7FFF_FFFF);
    assert_eq!(order_key(0), 0x8000_0000);
    assert_eq!(order_key(0xFFFF_FFFF), 0);
}

#[test]
fn nearest_root_from_outside_takes_near_root() {
    // Ray from distance 5 towards a sphere of radius 1 at the origin: roots 4 and 6.
    let mut max_t = key(10000.0);
    assert!(nearest_root(key(4.0), key(6.0), key(0.001), &mut max_t));
    assert_eq!(max_t, key(4.0));
}

#[test]
fn nearest_root_from_inside_takes_far_root() {
    let mut max_t = key(10000.0);
    assert!(nearest_root(key(-1.0), key(1.0), key(0.001), &mut max_t));
    assert_eq!(max_t, key(1.0));
}

#[test]
fn nearest_root_behind_or_beyond_misses() {
    let mut max_t = key(10000.0);
    assert!(!nearest_root(key(-3.0), key(-1.0), key(0.001), &mut max_t));
    assert_eq!(max_t, key(10000.0));
    let mut bound = key(2.0);
    assert!(!nearest_root(key(4.0), key(6.0), key(0.001), &mut bound));
    assert_eq!(bound, key(2.0));
}

#[test]
fn nearest_root_rejects_root_at_offset() {
    let mut max_t = key(10000.0);
    assert!(nearest_root(key(0.001), key(3.0), key(0.001), &mut max_t));
    assert_eq!(max_t, key(3.0));
}

#[test]
fn closest_hit_is_nearest_in_either_order() {
    let near = Some((key(2.0), key(4.0)));
    let far = Some((key(3.0), key(5.0)));
    let eps = key(0.001);

    let mut t_a = key(10000.0);
    let a = closest_hit(&vec![near, far], eps, &mut t_a);
    assert_eq!(a, Some(0));
    assert_eq!(t_a, key(2.0));

    let mut t_b = key(10000.0);
    let b = closest_hit(&vec![far, near], eps, &mut t_b);
    assert_eq!(b, Some(1));
    assert_eq!(t_b, key(2.0));
}

#[test]
fn closest_hit_misses_and_skips_rootless() {
    let eps = key(0.001);
    let mut t = key(10000.0);
    assert_eq!(closest_hit(&vec![None, Some((key(-2.0), key(-1.0)))], eps, &mut t), None);
    assert_eq!(t, key(10000.0));

    let mut empty = key(10000.0);
    assert_eq!(closest_hit(&vec![], eps, &mut empty), None);
    assert_eq!(empty, key(10000.0));

    let mut u = key(10000.0);
    let r = closest_hit(&vec![None, Some((key(-1.0), key(7.0))), None, Some((key(8.0), key(9.0)))], eps, &mut u);
    assert_eq!(r, Some(1));
    assert_eq!(u, key(7.0));
}

#[test]
fn closest_hit_equal_roots_keep_last() {
    let eps = key(0.001);
    let mut t = key(10000.0);
    let r = closest_hit(&vec![Some((key(2.0), key(4.0))), Some((key(2.0), key(3.0)))], eps, &mut t);
    assert_eq!(r, Some(1));
    assert_eq!(t, key(2.0));
}

#[test]
fn path_ends_on_miss_absorption_and_roulette() {
    for e in [BounceEvent::Miss, BounceEvent::Absorbed, BounceEvent::Killed] {
        let p = PathState::start();
        assert!(p.is_live());
        let q = p.advance(e);
        assert!(!q.is_live());
        assert_eq!(q.bounces, 0);
    }
}

#[test]
fn path_stops_at_bounce_cap() {
    let mut p = PathState::start();
    let mut steps: u32 = 0;
    while p.is_live() {
        p = p.advance(BounceEvent::Scattered);
        steps += 1;
    }
    assert_eq!(steps, MAX_BOUNCES);
    assert_eq!(steps, 32);
    assert!(!p.finished);
}

#[test]
fn roulette_starts_after_third_bounce() {
    let mut p = PathState::start();
    let mut played = Vec::new();
    for _ in 0..5 {
        played.push(p.roulette_applies());
        p = p.advance(BounceEvent::Scattered);
    }
    assert_eq!(played, vec![false, false, false, true, true]);
}

#[test]
fn renderer_keeps_sample_count() {
    assert_eq!(PtRenderer::new(50).samples(), 50);
    assert_eq!(PtRenderer::new(1).samples(), 1);
}

#[test]
fn subpixel_ndc_single_sample_is_pixel_centre() {
    let r = PtRenderer::new(1);
    // Pixel 0 of 4: centre at 1/8, that is -3/4 in device coordinates.
    let n = r.subpixel_ndc(0, 0, 0, 0, 4, 2);
    assert_eq!(n, Ndc { u_num: -3, u_den: 4, v_num: 1, v_den: 2 });
    let m = r.subpixel_ndc(3, 1, 0, 0, 4, 2);
    assert_eq!(m, Ndc { u_num: 3, u_den: 4, v_num: -1, v_den: 2 });
}

#[test]
fn subpixel_ndc_grid_of_two() {
    let r = PtRenderer::new(2);
    // Image 2 wide: sub-pixel 1 of pixel 1 sits at (1 + 3/4) / 2 = 7/8,
    // which maps to 3/4.
    let n = r.subpixel_ndc(1, 0, 1, 0, 2, 1);
    assert_eq!(n.u_num * 4, 3 * n.u_den);
    assert_eq!(n.u_den, 4);
    // Row 0 of a one-row image, sub-row 0: (1/4) maps to 1/2 after the flip.
    assert_eq!(n.v_num * 2, n.v_den);
}

#[test]
fn subpixel_ndc_matches_float_mapping() {
    let r = PtRenderer::new(3);
    let (w, h) = (7u32, 5u32);
    for i in 0..w {
        for k in 0..3u32 {
            let n = r.subpixel_ndc(i, h - 1, k, 2, w, h);
            let u = ((i as f64 + (k as f64 + 0.5) / 3.0) / w as f64) * 2.0 - 1.0;
            let v = -(((h - 1) as f64 + 2.5 / 3.0) / h as f64 * 2.0 - 1.0);
            assert!((n.u_num as f64 / n.u_den as f64 - u).abs() < 1e-12);
            assert!((n.v_num as f64 / n.v_den as f64 - v).abs() < 1e-12);
            assert!(n.u_num.abs() < n.u_den && n.v_num.abs() < n.v_den);
        }
    }
}

#[test]
fn pixel_samples_in_grid_order() {
    let r = PtRenderer::new(3);
    let all = r.pixel_samples(2, 1, 4, 3);
    assert_eq!(all.len(), 9);
    for k in 0..3u32 {
        for l in 0..3u32 {
            assert_eq!(all[(k * 3 + l) as usize], r.subpixel_ndc(2, 1, k, l, 4, 3));
        }
    }
}

#[test]
fn film_starts_black_and_keeps_writes() {
    let mut f = Film::new(3, 2);
    assert_eq!(f.dimensions(), (3, 2));
    assert_eq!(f.to_bytes(), vec![0u8; 18]);
    f.set_pixel(2, 1, [10, 20, 30]);
    f.set_pixel(0, 0, [1, 2, 3]);
    let b = f.to_bytes();
    assert_eq!(&b[0..3], &[1, 2, 3]);
    assert_eq!(&b[15..18], &[10, 20, 30]);
    assert_eq!(b.iter().map(|&x| x as u32).sum::<u32>(), 66);
}

#[test]
fn camera2d_writes_its_film() {
    let mut c = Camera2D::new(2, 2);
    assert_eq!(c.image().dimensions(), (2, 2));
    c.set_pixel(1, 0, [255, 0, 128]);
    assert_eq!(c.image().to_bytes(), vec![0, 0, 0, 255, 0, 128, 0, 0, 0, 0, 0, 0]);
}

#[test]
fn empty_film() {
    let f = Film::new(0, 0);
    assert_eq!(f.dimensions(), (0, 0));
    assert!(f.to_bytes().is_empty());
}

#[test]
fn bounce_outcome_classifies_events() {
    let p = PathState::start();
    assert_eq!(p.bounce_outcome(false, true, true), BounceEvent::Miss);
    assert_eq!(p.bounce_outcome(false, false, false), BounceEvent::Miss);
    assert_eq!(p.bounce_outcome(true, false, true), BounceEvent::Absorbed);
    // Roulette is not played on the first bounces: a lost draw is ignored.
    assert_eq!(p.bounce_outcome(true, true, false), BounceEvent::Scattered);
    assert_eq!(p.bounce_outcome(true, true, true), BounceEvent::Scattered);
}

#[test]
fn bounce_outcome_kills_after_roulette_starts() {
    let mut p = PathState::start();
    for _ in 0..3 {
        p = p.advance(BounceEvent::Scattered);
    }
    assert!(p.roulette_applies());
    assert_eq!(p.bounce_outcome(true, true, false), BounceEvent::Killed);
    assert_eq!(p.bounce_outcome(true, true, true), BounceEvent::Scattered);
    assert_eq!(p.bounce_outcome(false, true, false), BounceEvent::Miss);
}

#[test]
fn sample_grid_mean_is_pixel_centre() {
    let r = PtRenderer::new(4);
    let (w, h) = (5u32, 3u32);
    for i in 0..w {
        for j in 0..h {
            let all = r.pixel_samples(i, j, w, h);
            let su: i128 = all.iter().map(|n| n.u_num).sum();
            let sv: i128 = all.iter().map(|n| n.v_num).sum();
            // 16 samples, each over 4 * w: the mean is (2i + 1 - w) / w.
            assert_eq!(su, 4 * 16 * (2 * i as i128 + 1 - w as i128));
            assert_eq!(sv, 4 * 16 * (h as i128 - 2 * j as i128 - 1));
        }
    }
}
