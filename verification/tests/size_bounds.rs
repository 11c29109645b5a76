//! Simulation plane sizing and the zoom range derived from screen size, in
//! fixed-point pixels.

use abiogenesis::math::{Vec2, SCALE};
use abiogenesis::size::{scale_bounds, SimulationSize};

#[test]
fn test_normal() {
    assert_eq!(
        scale_bounds(1920 * SCALE, 1080 * SCALE),
        (SCALE / 10, SCALE)
    );
}

#[test]
fn test_big_screen() {
    assert_eq!(
        scale_bounds(3840 * SCALE, 2160 * SCALE),
        (SCALE / 10, SCALE)
    );
}

#[test]
fn test_narrow_screen() {
    assert_eq!(scale_bounds(1920 * SCALE, 540 * SCALE), (SCALE / 10, SCALE));
}

#[test]
fn test_wide_screen() {
    assert_eq!(scale_bounds(960 * SCALE, 1080 * SCALE), (SCALE / 10, SCALE));
}

#[test]
fn test_small_landscape() {
    assert_eq!(
        scale_bounds(1280 * SCALE, 720 * SCALE),
        (SCALE / 10, 3 * SCALE / 2)
    );
}

#[test]
fn test_small_portrait() {
    assert_eq!(
        scale_bounds(720 * SCALE, 960 * SCALE),
        (SCALE / 10, 9 * SCALE / 8)
    );
}

#[test]
fn dimensions_widen_to_reference_plane() {
    let small = SimulationSize {
        width: 800 * SCALE,
        height: 600 * SCALE,
    };
    assert_eq!(small.dimensions(), Vec2::new(1920 * SCALE, 1080 * SCALE));

    let large = SimulationSize {
        width: 2500 * SCALE,
        height: 900 * SCALE,
    };
    assert_eq!(large.dimensions(), Vec2::new(2500 * SCALE, 1080 * SCALE));
}
