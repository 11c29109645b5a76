//! Whole simulation ticks: self-exclusion, the speed clamp, and the
//! two-particle attraction scenario.

use abiogenesis::colour::{ParticleColour, NUM_COLOURS};
use abiogenesis::math::{Rect, Vec2, SCALE};
use abiogenesis::model::Model;
use abiogenesis::simulation::{compute_forces, SimulationParams, MAX_SPEED};
use abiogenesis::spatial_hash::SpatialHashGrid;

fn plane() -> Rect {
    Rect::from_center_size(Vec2::zero(), Vec2::new(1920 * SCALE, 1080 * SCALE))
}

fn uniform_model(weight: i64) -> Model {
    Model::from_3x3(
        [
            [weight, weight, weight],
            [weight, weight, weight],
            [weight, weight, weight],
        ],
        NUM_COLOURS,
    )
}

fn separation(bounds: &Rect, a: Vec2, b: Vec2) -> i64 {
    let d = bounds.toroidal_displacement(a, b);
    abiogenesis::math::isqrt(d.x * d.x + d.y * d.y)
}

#[test]
fn single_particle_feels_no_force() {
    let bounds = plane();
    let mut grid: SpatialHashGrid<(usize, ParticleColour)> = SpatialHashGrid::new(bounds, (10, 10));
    let mut positions = vec![Vec2::zero()];
    let mut velocities = vec![Vec2::new(1234, -500)];
    let colours = vec![ParticleColour::Red];
    let model = uniform_model(SCALE);
    let params = SimulationParams::default();

    compute_forces(
        &mut positions,
        &mut velocities,
        &colours,
        &mut grid,
        &model,
        &params,
        16,
        SCALE,
    );

    // No self-interaction: the velocity passes through undamped (damping is
    // one here) and the position moves by exactly velocity * dt.
    assert_eq!(velocities[0], Vec2::new(1234, -500));
    assert_eq!(positions[0], Vec2::new(19, -8));
}

#[test]
fn speed_stays_clamped_under_crowding() {
    let bounds = plane();
    let mut grid: SpatialHashGrid<(usize, ParticleColour)> = SpatialHashGrid::new(bounds, (10, 10));
    // A dense line of particles deep inside each other's repulsion zone.
    let mut positions: Vec<Vec2> = (0..12).map(|k| Vec2::new(k * 100, 0)).collect();
    let mut velocities = vec![Vec2::zero(); 12];
    let colours = vec![ParticleColour::Red; 12];
    let model = uniform_model(SCALE);
    let params = SimulationParams::default();

    compute_forces(
        &mut positions,
        &mut velocities,
        &colours,
        &mut grid,
        &model,
        &params,
        SCALE,
        SCALE,
    );

    for v in &velocities {
        assert!(v.x * v.x + v.y * v.y <= MAX_SPEED * MAX_SPEED);
    }
    assert!(velocities.iter().any(|v| v.x != 0 || v.y != 0));
}

#[test]
fn attracting_pair_moves_together() {
    let bounds = plane();
    let mut grid: SpatialHashGrid<(usize, ParticleColour)> = SpatialHashGrid::new(bounds, (10, 10));
    let model = uniform_model(SCALE);
    let params = SimulationParams {
        friction: 0,
        ..SimulationParams::default()
    };

    // Two same-colour particles exactly the peak-attraction radius apart,
    // at rest.
    let mut positions = vec![Vec2::zero(), Vec2::new(params.peak_attraction_radius, 0)];
    let mut velocities = vec![Vec2::zero(), Vec2::zero()];
    let colours = vec![ParticleColour::Red, ParticleColour::Red];

    compute_forces(
        &mut positions,
        &mut velocities,
        &colours,
        &mut grid,
        &model,
        &params,
        16,
        SCALE,
    );

    // After one tick each has picked up speed toward the other.
    assert!(velocities[0].x > 0);
    assert!(velocities[1].x < 0);
    assert_eq!(velocities[0].y, 0);
    assert_eq!(velocities[1].y, 0);
}

#[test]
fn attracting_pair_settles_near_repulsion_radius() {
    let bounds = plane();
    let mut grid: SpatialHashGrid<(usize, ParticleColour)> = SpatialHashGrid::new(bounds, (10, 10));
    let model = uniform_model(SCALE);
    let params = SimulationParams::default();

    let mut positions = vec![Vec2::zero(), Vec2::new(params.peak_attraction_radius, 0)];
    let mut velocities = vec![Vec2::zero(), Vec2::zero()];
    let colours = vec![ParticleColour::Red, ParticleColour::Red];

    let initial = separation(&bounds, positions[0], positions[1]);
    // Roughly exp(-friction * dt) for friction 2.0 and dt 0.016, fixed point.
    let damping = 968;
    for _ in 0..600 {
        compute_forces(
            &mut positions,
            &mut velocities,
            &colours,
            &mut grid,
            &model,
            &params,
            16,
            damping,
        );
    }

    let settled = separation(&bounds, positions[0], positions[1]);
    assert!(settled < initial);
    // Equilibrium sits where repulsion meets attraction: the repulsion
    // radius.
    assert!(
        (settled - params.repulsion_radius).abs() <= 5 * SCALE,
        "settled separation {} not near {}",
        settled,
        params.repulsion_radius
    );
}
