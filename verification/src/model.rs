//! The interaction model: a square matrix of signed weights, one entry for
//! every ordered pair of colours, plus the randomisation entry points.

use vstd::prelude::*;
use crate::colour::{ParticleColour, NUM_COLOURS};
use crate::math::{clamp, SCALE};
use crate::rng::random_in;
use crate::simulation::{SimulationParams, MAX_FORCE_STRENGTH};

verus! {

/// The colour-interaction matrix. `weight(s, t)` is how strongly a particle
/// of colour `s` is drawn toward (positive) or pushed away from (negative) a
/// particle of colour `t`; the matrix need not be symmetric.
#[derive(Clone, Debug)]
pub struct Model {
    weights: Vec<i64>,
    num_colours: usize,
}

impl Model {
    pub closed spec fn num_colours_spec(self) -> int {
        self.num_colours as int
    }

    pub closed spec fn weights_seq(self) -> Seq<i64> {
        self.weights@
    }

    /// Well-formed: a full square matrix over at most NUM_COLOURS colours,
    /// every entry a fixed-point weight in [-SCALE, SCALE].
    pub closed spec fn wf(self) -> bool {
        &&& 1 <= self.num_colours <= NUM_COLOURS
        &&& self.weights@.len() == self.num_colours * self.num_colours
        &&& forall|k: int|
            0 <= k < self.weights@.len() ==> -SCALE <= #[trigger] self.weights@[k] <= SCALE
    }

    /// The weight of the ordered colour pair (s, t).
    pub closed spec fn weight_spec(self, s: int, t: int) -> int {
        self.weights@[s * self.num_colours_spec() + t] as int
    }

    /// Builds a model over `num_colours` colours from an explicit 3-by-3
    /// block of fixed-point weights; every entry outside the block is zero.
    pub fn from_3x3(block: [[i64; 3]; 3], num_colours: usize) -> (m: Model)
        requires
            3 <= num_colours <= NUM_COLOURS,
            forall|i: int, j: int|
                0 <= i < 3 && 0 <= j < 3 ==> -SCALE <= #[trigger] block@[i]@[j] <= SCALE,
        ensures
            m.wf(),
            m.num_colours_spec() == num_colours,
            forall|s: int, t: int|
                0 <= s < 3 && 0 <= t < 3 ==> m.weight_spec(s, t) == block@[s]@[t],
            forall|s: int, t: int|
                0 <= s < num_colours && 0 <= t < num_colours && (s >= 3 || t >= 3)
                    ==> m.weight_spec(s, t) == 0,
    {
        let mut weights: Vec<i64> = Vec::new();
        let mut s: usize = 0;
        while s < num_colours
            invariant
                s <= num_colours,
                3 <= num_colours <= NUM_COLOURS,
                weights@.len() == s * num_colours,
                forall|i: int, j: int|
                    0 <= i < 3 && 0 <= j < 3 ==> -SCALE <= #[trigger] block@[i]@[j] <= SCALE,
                forall|i: int, j: int|
                    0 <= i < s && 0 <= j < num_colours ==> #[trigger] weights@[i * num_colours + j]
                        == (if i < 3 && j < 3 { block@[i]@[j] } else { 0i64 }),
            decreases num_colours - s,
        {
            let mut t: usize = 0;
            while t < num_colours
                invariant
                    s < num_colours,
                    t <= num_colours,
                    3 <= num_colours <= NUM_COLOURS,
                    weights@.len() == s * num_colours + t,
                    forall|i: int, j: int|
                        0 <= i < 3 && 0 <= j < 3 ==> -SCALE <= #[trigger] block@[i]@[j] <= SCALE,
                    forall|i: int, j: int|
                        0 <= i < s && 0 <= j < num_colours ==> #[trigger] weights@[i * num_colours
                            + j] == (if i < 3 && j < 3 { block@[i]@[j] } else { 0i64 }),
                    forall|j: int|
                        0 <= j < t ==> #[trigger] weights@[s as int * num_colours + j]
                            == (if s < 3 && j < 3 { block@[s as int]@[j] } else { 0i64 }),
                decreases num_colours - t,
            {
                let w = if s < 3 && t < 3 {
                    block[s][t]
                } else {
                    0
                };
                weights.push(w);
                t = t + 1;
                proof {
                    assert forall|i: int, j: int|
                        0 <= i < s && 0 <= j < num_colours implies #[trigger] weights@[i
                        * num_colours + j] == (if i < 3 && j < 3 {
                        block@[i]@[j]
                    } else {
                        0i64
                    }) by {
                        assert(0 <= i * num_colours + j < s * num_colours) by (nonlinear_arith)
                            requires
                                0 <= i < s,
                                0 <= j < num_colours,
                        ;
                    }
                }
            }
            s = s + 1;
            proof {
                assert((s - 1) * num_colours + num_colours == s * num_colours) by (nonlinear_arith);
                assert forall|i: int, j: int|
                    0 <= i < s && 0 <= j < num_colours implies #[trigger] weights@[i * num_colours
                    + j] == (if i < 3 && j < 3 {
                    block@[i]@[j]
                } else {
                    0i64
                }) by {
                    if i < s - 1 {
                        assert(0 <= i * num_colours + j < (s - 1) * num_colours)
                            by (nonlinear_arith)
                            requires
                                0 <= i < s - 1,
                                0 <= j < num_colours,
                        ;
                    } else {
                        assert(i * num_colours + j == (s - 1) * num_colours + j);
                    }
                }
            }
        }
        proof {
            lemma_row_entries_bounded(weights@, num_colours as int, block);
        }
        Model { weights, num_colours }
    }

    /// Reads the weight of the ordered colour pair.
    pub fn weight(&self, source: ParticleColour, target: ParticleColour) -> (w: i64)
        requires
            self.wf(),
            source.index_spec() < self.num_colours_spec(),
            target.index_spec() < self.num_colours_spec(),
        ensures
            w == self.weight_spec(source.index_spec(), target.index_spec()),
            -SCALE <= w <= SCALE,
    {
        let s = source.index();
        let t = target.index();
        proof {
            lemma_matrix_index_in_range(s as int, t as int, self.num_colours as int);
        }
        self.weights[s * self.num_colours + t]
    }

    /// Overwrites the weight of the ordered colour pair.
    pub fn set_weight(&mut self, source: ParticleColour, target: ParticleColour, value: i64)
        requires
            old(self).wf(),
            source.index_spec() < old(self).num_colours_spec(),
            target.index_spec() < old(self).num_colours_spec(),
            -SCALE <= value <= SCALE,
        ensures
            final(self).wf(),
            final(self).num_colours_spec() == old(self).num_colours_spec(),
            final(self).weights_seq() == old(self).weights_seq().update(
                source.index_spec() * old(self).num_colours_spec() + target.index_spec(),
                value,
            ),
            final(self).weight_spec(source.index_spec(), target.index_spec()) == value,
    {
        let s = source.index();
        let t = target.index();
        proof {
            lemma_matrix_index_in_range(s as int, t as int, self.num_colours as int);
        }
        let idx = s * self.num_colours + t;
        self.weights.set(idx, value);
    }

    /// Assigns a fresh random weight in [-SCALE, SCALE] to every entry of
    /// the matrix.
    pub fn randomise(&mut self)
        requires
            old(self).wf(),
        ensures
            final(self).wf(),
            final(self).num_colours_spec() == old(self).num_colours_spec(),
    {
        let n = self.weights.len();
        let mut k: usize = 0;
        while k < n
            invariant
                n == self.weights@.len(),
                self.num_colours == old(self).num_colours,
                1 <= self.num_colours <= NUM_COLOURS,
                self.weights@.len() == self.num_colours * self.num_colours,
                forall|i: int| 0 <= i < n ==> -SCALE <= #[trigger] self.weights@[i] <= SCALE,
            decreases n - k,
        {
            let w = random_in(-SCALE, SCALE);
            self.weights.set(k, w);
            k = k + 1;
        }
    }
}

/// Every entry written by `from_3x3` is a block entry or zero, so it lies in
/// [-SCALE, SCALE].
proof fn lemma_row_entries_bounded(weights: Seq<i64>, num_colours: int, block: [[i64; 3]; 3])
    requires
        3 <= num_colours,
        weights.len() == num_colours * num_colours,
        forall|i: int, j: int|
            0 <= i < 3 && 0 <= j < 3 ==> -SCALE <= #[trigger] block@[i]@[j] <= SCALE,
        forall|i: int, j: int|
            0 <= i < num_colours && 0 <= j < num_colours ==> #[trigger] weights[i * num_colours + j]
                == (if i < 3 && j < 3 { block@[i]@[j] } else { 0i64 }),
    ensures
        forall|k: int| 0 <= k < weights.len() ==> -SCALE <= #[trigger] weights[k] <= SCALE,
{
    assert forall|k: int| 0 <= k < weights.len() implies -SCALE <= #[trigger] weights[k]
        <= SCALE by {
        let i = k / num_colours;
        let j = k % num_colours;
        assert(0 <= i < num_colours && 0 <= j < num_colours && k == i * num_colours + j)
            by (nonlinear_arith)
            requires
                0 <= k < num_colours * num_colours,
                3 <= num_colours,
                i == k / num_colours,
                j == k % num_colours,
        ;
        assert(weights[i * num_colours + j] == (if i < 3 && j < 3 {
            block@[i]@[j]
        } else {
            0i64
        }));
    }
}

/// A radius draw scaled by a bounded radius stays far inside the i64 range.
proof fn lemma_scaled_draw_bounded(draw: int, radius: int)
    requires
        -1600 <= draw <= 1600,
        0 <= radius <= 200 * SCALE,
    ensures
        -320_000 * SCALE <= draw * radius <= 320_000 * SCALE,
{
    assert(-320_000 * SCALE <= draw * radius <= 320_000 * SCALE) by (nonlinear_arith)
        requires
            -1600 <= draw <= 1600,
            0 <= radius <= 200 * SCALE,
    ;
}

/// Row-major indexing stays inside the square matrix.
proof fn lemma_matrix_index_in_range(s: int, t: int, num_colours: int)
    requires
        0 <= s < num_colours,
        0 <= t < num_colours,
    ensures
        0 <= s * num_colours + t < num_colours * num_colours,
{
    assert(0 <= s * num_colours + t < num_colours * num_colours) by (nonlinear_arith)
        requires
            0 <= s < num_colours,
            0 <= t < num_colours,
    ;
}

/// Draws a fresh parameter set the way the randomise control does: a strong
/// force, friction scaled to it, and radii drawn around an interaction
/// distance of 75 units, clamped so that the radius ordering invariant
/// holds.
pub fn randomise_params(current: &SimulationParams) -> (p: SimulationParams)
    requires
        current.valid(),
    ensures
        p.valid(),
        p.num_colours == current.num_colours,
        p.decay_rate == current.decay_rate,
        40 * SCALE <= p.force_strength <= MAX_FORCE_STRENGTH,
        SCALE <= p.friction <= 5 * SCALE,
        20 * SCALE <= p.attraction_radius <= 200 * SCALE,
        p.repulsion_radius <= p.peak_attraction_radius <= p.attraction_radius,
{
    let force_strength = random_in(40 * SCALE, 200 * SCALE);
    let friction = random_in(SCALE, force_strength / 40);

    let attraction_radius = clamp(
        (random_in(0, 150 * SCALE) + random_in(0, 150 * SCALE) + random_in(0, 150 * SCALE)) / 3,
        20 * SCALE,
        200 * SCALE,
    );

    let peak_draw = random_in(-400, 1600);
    proof {
        lemma_scaled_draw_bounded(peak_draw as int, attraction_radius as int);
    }
    let peak_attraction_radius = clamp(
        (peak_draw * attraction_radius) / 1000,
        0,
        attraction_radius,
    );

    let repulsion_draw = random_in(-200, 1000);
    proof {
        lemma_scaled_draw_bounded(repulsion_draw as int, attraction_radius as int);
    }
    let repulsion_radius = clamp(
        (repulsion_draw * attraction_radius) / 1000,
        if 20 * SCALE < peak_attraction_radius {
            20 * SCALE
        } else {
            peak_attraction_radius
        },
        peak_attraction_radius,
    );

    SimulationParams {
        friction,
        force_strength,
        peak_attraction_radius,
        repulsion_radius,
        attraction_radius,
        decay_rate: current.decay_rate,
        num_colours: current.num_colours,
    }
}

} // verus!
