//! The force response curve: boundary values and exact midpoints, in fixed
//! point, with the standard parameters (repulsion 25, peak 50, cutoff 75
//! world units).

use abiogenesis::math::SCALE;
use abiogenesis::simulation::{magnitude, SimulationParams};

#[test]
fn repulsed_self() {
    assert_eq!(magnitude(&SimulationParams::default(), SCALE, 0), -SCALE);
}

#[test]
fn repulsed_other() {
    let params = SimulationParams::default();
    assert_eq!(
        magnitude(&params, -SCALE, params.peak_attraction_radius),
        -SCALE
    );
}

#[test]
fn balanced() {
    let params = SimulationParams::default();
    assert_eq!(magnitude(&params, SCALE, params.repulsion_radius), 0);
}

#[test]
fn attracted() {
    let params = SimulationParams::default();
    assert_eq!(
        magnitude(&params, SCALE, params.peak_attraction_radius),
        SCALE
    );
}

#[test]
fn halfway_repulsed() {
    let params = SimulationParams::default();
    assert_eq!(
        magnitude(&params, SCALE, params.repulsion_radius / 2),
        -SCALE / 2
    );
}

#[test]
fn halfway_attracted() {
    let params = SimulationParams::default();
    let midpoint = (params.repulsion_radius + params.peak_attraction_radius) / 2;
    assert_eq!(magnitude(&params, SCALE, midpoint), SCALE / 2);
}

#[test]
fn halfway_attracted_otherside() {
    let params = SimulationParams::default();
    let midpoint = (params.peak_attraction_radius + params.attraction_radius) / 2;
    assert_eq!(magnitude(&params, SCALE, midpoint), SCALE / 2);
}

#[test]
fn curve_end_is_neutral() {
    let params = SimulationParams::default();
    assert_eq!(magnitude(&params, SCALE, params.attraction_radius), 0);
    assert_eq!(magnitude(&params, -SCALE, params.attraction_radius), 0);
}

#[test]
fn repulsion_ignores_factor_sign() {
    let params = SimulationParams::default();
    for distance in [0, 5 * SCALE, 20 * SCALE] {
        assert_eq!(
            magnitude(&params, SCALE, distance),
            magnitude(&params, -SCALE, distance)
        );
    }
}

#[test]
fn degenerate_zero_radii_do_not_panic() {
    let params = SimulationParams {
        friction: 0,
        force_strength: 0,
        peak_attraction_radius: 0,
        repulsion_radius: 0,
        attraction_radius: 0,
        decay_rate: 0,
        num_colours: 1,
    };
    assert_eq!(magnitude(&params, SCALE, 0), -SCALE);
}
