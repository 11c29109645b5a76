//! Toroidal displacement and wrapping, on a fixed-point plane: one world
//! unit is SCALE fixed-point units.

use abiogenesis::math::{Rect, Vec2, SCALE};

#[test]
fn math_zero() {
    assert_eq!(
        Rect::from_center_size(Vec2::zero(), Vec2::splat(100 * SCALE))
            .toroidal_displacement(Vec2::zero(), Vec2::zero()),
        Vec2::zero()
    );
}

#[test]
fn diagonal() {
    assert_eq!(
        Rect::from_center_size(Vec2::zero(), Vec2::splat(100 * SCALE))
            .toroidal_displacement(Vec2::zero(), Vec2::splat(25 * SCALE)),
        Vec2::splat(25 * SCALE)
    );
}

#[test]
fn math_wrap_x() {
    assert_eq!(
        Rect::from_center_size(Vec2::zero(), Vec2::splat(100 * SCALE))
            .toroidal_displacement(Vec2::zero(), Vec2::new(75 * SCALE, 0)),
        Vec2::new(-25 * SCALE, 0)
    );
}

#[test]
fn math_wrap_y() {
    assert_eq!(
        Rect::from_center_size(Vec2::zero(), Vec2::splat(100 * SCALE))
            .toroidal_displacement(Vec2::zero(), Vec2::new(0, 75 * SCALE)),
        Vec2::new(0, -25 * SCALE)
    );
}

#[test]
fn math_wrap_xy() {
    assert_eq!(
        Rect::from_center_size(Vec2::zero(), Vec2::splat(100 * SCALE))
            .toroidal_displacement(Vec2::zero(), Vec2::new(75 * SCALE, 75 * SCALE)),
        Vec2::new(-25 * SCALE, -25 * SCALE)
    );
}

#[test]
fn non_zero_origin() {
    assert_eq!(
        Rect::from_center_size(Vec2::new(50 * SCALE, -25 * SCALE), Vec2::splat(100 * SCALE))
            .toroidal_displacement(
                Vec2::new(90 * SCALE, 23 * SCALE),
                Vec2::new(10 * SCALE, -74 * SCALE)
            ),
        Vec2::new(20 * SCALE, 3 * SCALE)
    );
}

#[test]
fn zero() {
    assert_eq!(
        Rect::from_center_size(Vec2::zero(), Vec2::splat(100 * SCALE)).toroidal_wrap(Vec2::zero()),
        Vec2::zero()
    );
}

#[test]
fn within_bounds() {
    assert_eq!(
        Rect::from_center_size(Vec2::zero(), Vec2::splat(100 * SCALE))
            .toroidal_wrap(Vec2::new(25 * SCALE, 25 * SCALE)),
        Vec2::new(25 * SCALE, 25 * SCALE)
    );
}

#[test]
fn within_bounds_negative() {
    assert_eq!(
        Rect::from_center_size(Vec2::zero(), Vec2::splat(100 * SCALE))
            .toroidal_wrap(Vec2::new(-25 * SCALE, -25 * SCALE)),
        Vec2::new(-25 * SCALE, -25 * SCALE)
    );
}

#[test]
fn wrap_x() {
    assert_eq!(
        Rect::from_center_size(Vec2::zero(), Vec2::splat(100 * SCALE))
            .toroidal_wrap(Vec2::new(75 * SCALE, 0)),
        Vec2::new(-25 * SCALE, 0)
    );
}

#[test]
fn wrap_y() {
    assert_eq!(
        Rect::from_center_size(Vec2::zero(), Vec2::splat(100 * SCALE))
            .toroidal_wrap(Vec2::new(0, 75 * SCALE)),
        Vec2::new(0, -25 * SCALE)
    );
}

#[test]
fn wrap_xy() {
    assert_eq!(
        Rect::from_center_size(Vec2::zero(), Vec2::splat(100 * SCALE))
            .toroidal_wrap(Vec2::new(75 * SCALE, 75 * SCALE)),
        Vec2::new(-25 * SCALE, -25 * SCALE)
    );
}

#[test]
fn non_zero_origin_within_bounds() {
    assert_eq!(
        Rect::from_center_size(Vec2::new(100 * SCALE, 50 * SCALE), Vec2::splat(80 * SCALE))
            .toroidal_wrap(Vec2::new(120 * SCALE, 70 * SCALE)),
        Vec2::new(120 * SCALE, 70 * SCALE)
    );
}

#[test]
fn non_zero_origin_outside_bounds() {
    assert_eq!(
        Rect::from_center_size(Vec2::new(100 * SCALE, 50 * SCALE), Vec2::splat(80 * SCALE))
            .toroidal_wrap(Vec2::new(160 * SCALE, 110 * SCALE)),
        Vec2::new(80 * SCALE, 30 * SCALE)
    );
}

#[test]
fn wrap_far_outside() {
    let rect = Rect::from_center_size(Vec2::zero(), Vec2::splat(100 * SCALE));
    assert_eq!(
        rect.toroidal_wrap(Vec2::new(1_000 * SCALE + 25 * SCALE, -1_000 * SCALE - 25 * SCALE)),
        Vec2::new(25 * SCALE, -25 * SCALE)
    );
}

#[test]
fn remap_midpoint_and_ends() {
    assert_eq!(abiogenesis::math::remap(0, 0, 10 * SCALE, -SCALE, 0), -SCALE);
    assert_eq!(abiogenesis::math::remap(10 * SCALE, 0, 10 * SCALE, -SCALE, 0), 0);
    assert_eq!(abiogenesis::math::remap(5 * SCALE, 0, 10 * SCALE, -SCALE, 0), -SCALE / 2);
    assert_eq!(abiogenesis::math::remap(5 * SCALE, 0, 10 * SCALE, 0, SCALE), SCALE / 2);
}

#[test]
fn isqrt_exact_and_between() {
    assert_eq!(abiogenesis::math::isqrt(0), 0);
    assert_eq!(abiogenesis::math::isqrt(1), 1);
    assert_eq!(abiogenesis::math::isqrt(144), 12);
    assert_eq!(abiogenesis::math::isqrt(145), 12);
    assert_eq!(abiogenesis::math::isqrt(168), 12);
    assert_eq!(abiogenesis::math::isqrt(169), 13);
    assert_eq!(abiogenesis::math::isqrt(i64::MAX), 3_037_000_499);
}
