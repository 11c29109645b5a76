//! The colour tags and the interaction matrix, including the randomised
//! entry points.

use abiogenesis::colour::{ParticleColour, NUM_COLOURS};
use abiogenesis::math::SCALE;
use abiogenesis::model::{randomise_params, Model};
use abiogenesis::simulation::SimulationParams;

#[test]
fn colour_indices_round_trip() {
    for index in 0..NUM_COLOURS {
        let colour = ParticleColour::from_index(index);
        assert_eq!(colour.index(), index);
    }
}

#[test]
fn random_colour_respects_variety() {
    for variety in 1..=NUM_COLOURS {
        for _ in 0..50 {
            assert!(ParticleColour::random(variety).index() < variety);
        }
    }
}

#[test]
fn model_from_3x3_reads_back() {
    let model = Model::from_3x3(
        [[300, 400, 500], [700, -400, 300], [-500, 500, 0]],
        NUM_COLOURS,
    );
    assert_eq!(
        model.weight(ParticleColour::Red, ParticleColour::Red),
        300
    );
    assert_eq!(
        model.weight(ParticleColour::Green, ParticleColour::Blue),
        300
    );
    assert_eq!(
        model.weight(ParticleColour::Blue, ParticleColour::Red),
        -500
    );
    // Entries outside the 3 by 3 block start neutral.
    assert_eq!(
        model.weight(ParticleColour::Orange, ParticleColour::Pink),
        0
    );
    assert_eq!(model.weight(ParticleColour::Red, ParticleColour::Aqua), 0);
}

#[test]
fn set_weight_is_directional() {
    let mut model = Model::from_3x3([[0, 0, 0], [0, 0, 0], [0, 0, 0]], NUM_COLOURS);
    model.set_weight(ParticleColour::Red, ParticleColour::Green, SCALE);
    model.set_weight(ParticleColour::Green, ParticleColour::Red, -SCALE);
    assert_eq!(
        model.weight(ParticleColour::Red, ParticleColour::Green),
        SCALE
    );
    assert_eq!(
        model.weight(ParticleColour::Green, ParticleColour::Red),
        -SCALE
    );
}

#[test]
fn randomise_keeps_weights_in_range() {
    let mut model = Model::from_3x3([[0, 0, 0], [0, 0, 0], [0, 0, 0]], NUM_COLOURS);
    model.randomise();
    for s in 0..NUM_COLOURS {
        for t in 0..NUM_COLOURS {
            let w = model.weight(
                ParticleColour::from_index(s),
                ParticleColour::from_index(t),
            );
            assert!(-SCALE <= w && w <= SCALE);
        }
    }
}

#[test]
fn randomised_params_stay_valid() {
    let current = SimulationParams::default();
    for _ in 0..50 {
        let p = randomise_params(&current);
        assert!(p.repulsion_radius <= p.peak_attraction_radius);
        assert!(p.peak_attraction_radius <= p.attraction_radius);
        assert!(20 * SCALE <= p.attraction_radius && p.attraction_radius <= 200 * SCALE);
        assert!(40 * SCALE <= p.force_strength && p.force_strength <= 200 * SCALE);
        assert!(SCALE <= p.friction && p.friction <= 5 * SCALE);
        assert_eq!(p.num_colours, current.num_colours);
        assert_eq!(p.decay_rate, current.decay_rate);
    }
}
