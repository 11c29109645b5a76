//! The per-tick simulation: tunable parameters, the distance-to-force
//! response curve, and the force-accumulation and integration step.

use vstd::prelude::*;
use crate::colour::ParticleColour;
use crate::math::{
    div_toward_zero, isqrt, lemma_div_toward_zero_bound, lemma_div_toward_zero_bounds,
    lemma_div_toward_zero_mul_le, remap, sqrt_floor, trunc_div, wrap_delta, wrapped, Rect, Vec2,
    MAX_COORD, SCALE,
};
use crate::model::Model;
use crate::spatial_hash::{tor_dist_sq, SpatialHashGrid};
use vstd::arithmetic::div_mod::lemma_div_multiples_vanish;
use vstd::seq_lib::{commutative_foldr, lemma_fold_right_permutation};

verus! {

/// Largest interaction radius, fixed-point (200 world units).
pub const MAX_RADIUS: i64 = 200 * SCALE;

/// Largest force strength, fixed-point (200 units per squared second).
pub const MAX_FORCE_STRENGTH: i64 = 200 * SCALE;

/// Largest friction coefficient, fixed-point (5 per second).
pub const MAX_FRICTION: i64 = 5 * SCALE;

/// Largest decay rate, fixed-point (200 particles per second).
pub const MAX_DECAY: i64 = 200 * SCALE;

/// Speed limit applied after integration, fixed-point (200 units per second).
pub const MAX_SPEED: i64 = 200 * SCALE;

/// The tunables of one simulation tick. All fields are fixed-point multiples
/// of 1/SCALE.
#[derive(Clone, Copy, Debug, PartialEq, Eq, Structural)]
pub struct SimulationParams {
    pub friction: i64,
    pub force_strength: i64,
    pub peak_attraction_radius: i64,
    pub repulsion_radius: i64,
    pub attraction_radius: i64,
    pub decay_rate: i64,
    pub num_colours: usize,
}

impl SimulationParams {
    /// The parameter invariant: radii ordered repulsion, peak, attraction,
    /// everything inside its slider range.
    pub open spec fn valid(self) -> bool {
        &&& 0 <= self.repulsion_radius <= self.peak_attraction_radius
        &&& self.peak_attraction_radius <= self.attraction_radius <= MAX_RADIUS
        &&& 0 <= self.force_strength <= MAX_FORCE_STRENGTH
        &&& 0 <= self.friction <= MAX_FRICTION
        &&& 0 <= self.decay_rate <= MAX_DECAY
        &&& 1 <= self.num_colours <= 6
    }

    /// The standard parameter set: interaction cutoff 75 units, repulsion to
    /// one third of it, peak attraction at two thirds.
    pub open spec fn standard_spec() -> SimulationParams {
        SimulationParams {
            friction: (2 * SCALE) as i64,
            force_strength: (100 * SCALE) as i64,
            peak_attraction_radius: (50 * SCALE) as i64,
            repulsion_radius: (25 * SCALE) as i64,
            attraction_radius: (75 * SCALE) as i64,
            decay_rate: (100 * SCALE) as i64,
            num_colours: 6,
        }
    }

    pub fn standard() -> (p: SimulationParams)
        ensures
            p == SimulationParams::standard_spec(),
            p.valid(),
    {
        SimulationParams {
            friction: 2 * SCALE,
            force_strength: 100 * SCALE,
            peak_attraction_radius: 50 * SCALE,
            repulsion_radius: 25 * SCALE,
            attraction_radius: 75 * SCALE,
            decay_rate: 100 * SCALE,
            num_colours: 6,
        }
    }
}

impl Default for SimulationParams {
    fn default() -> (p: SimulationParams)
        ensures
            p == SimulationParams::standard_spec(),
            p.valid(),
    {
        SimulationParams::standard()
    }
}

/// The three-segment force response: strongest repulsion (-SCALE) at distance
/// zero rising to neutral at the repulsion radius, then to the full signed
/// `factor` at the peak radius, then decaying back to neutral at the
/// interaction cutoff.
pub open spec fn magnitude_spec(params: SimulationParams, factor: int, distance: int) -> int {
    if distance <= params.repulsion_radius {
        if params.repulsion_radius > 0 {
            -SCALE + div_toward_zero(distance * SCALE, params.repulsion_radius as int)
        } else {
            -SCALE as int
        }
    } else if distance <= params.peak_attraction_radius {
        div_toward_zero(
            (distance - params.repulsion_radius) * factor,
            params.peak_attraction_radius - params.repulsion_radius,
        )
    } else {
        factor + div_toward_zero(
            (distance - params.peak_attraction_radius) * (-factor),
            params.attraction_radius - params.peak_attraction_radius,
        )
    }
}

/// Maps a distance and a signed interaction factor to a signed force
/// magnitude along the three-segment piecewise-linear curve.
pub fn magnitude(params: &SimulationParams, factor: i64, distance: i64) -> (r: i64)
    requires
        params.valid(),
        -SCALE <= factor <= SCALE,
        0 <= distance <= params.attraction_radius,
    ensures
        r == magnitude_spec(*params, factor as int, distance as int),
        -SCALE <= r <= SCALE,
{
    if distance <= params.repulsion_radius {
        if params.repulsion_radius > 0 {
            remap(distance, 0, params.repulsion_radius, -SCALE, 0)
        } else {
            -SCALE
        }
    } else if distance <= params.peak_attraction_radius {
        remap(
            distance,
            params.repulsion_radius,
            params.peak_attraction_radius,
            0,
            factor,
        )
    } else {
        remap(
            distance,
            params.peak_attraction_radius,
            params.attraction_radius,
            factor,
            0,
        )
    }
}

/// Division of an exact multiple is exact, also under rounding toward zero.
proof fn lemma_div_toward_zero_exact(k: int, d: int)
    requires
        0 < d,
    ensures
        div_toward_zero(d * k, d) == k,
{
    if k >= 0 {
        lemma_div_multiples_vanish(k, d);
        assert(d * k >= 0) by (nonlinear_arith)
            requires
                0 < d,
                0 <= k,
        ;
    } else {
        lemma_div_multiples_vanish(-k, d);
        assert(d * k < 0 && -(d * k) == d * (-k)) by (nonlinear_arith)
            requires
                0 < d,
                k < 0,
        ;
    }
}

/// The force curve meets its boundary values exactly: -SCALE (full
/// repulsion) at distance zero, neutral at the repulsion radius, the full
/// signed factor at the peak-attraction radius, and neutral again at the
/// interaction cutoff.
pub proof fn lemma_magnitude_boundary_values(params: SimulationParams, factor: int)
    requires
        params.valid(),
        0 < params.repulsion_radius,
        params.repulsion_radius < params.peak_attraction_radius,
        params.peak_attraction_radius < params.attraction_radius,
        -SCALE <= factor <= SCALE,
    ensures
        magnitude_spec(params, factor, 0) == -SCALE,
        magnitude_spec(params, factor, params.repulsion_radius as int) == 0,
        magnitude_spec(params, factor, params.peak_attraction_radius as int) == factor,
        magnitude_spec(params, factor, params.attraction_radius as int) == 0,
{
    let rr = params.repulsion_radius as int;
    let peak = params.peak_attraction_radius as int;
    let attr = params.attraction_radius as int;

    assert(div_toward_zero(0 * SCALE, rr) == 0int / rr);
    lemma_div_toward_zero_exact(SCALE as int, rr);
    lemma_div_toward_zero_exact(factor, peak - rr);
    lemma_div_toward_zero_exact(-factor, attr - peak);
}

/// At the exact midpoint of each segment the curve takes the exact
/// interpolation midpoint, whenever the segment span and the factor are even
/// so that the midpoints are representable.
pub proof fn lemma_magnitude_midpoints(params: SimulationParams, factor: int)
    requires
        params.valid(),
        0 < params.repulsion_radius,
        params.repulsion_radius < params.peak_attraction_radius,
        params.peak_attraction_radius < params.attraction_radius,
        -SCALE <= factor <= SCALE,
        params.repulsion_radius % 2 == 0,
        (params.peak_attraction_radius - params.repulsion_radius) % 2 == 0,
        (params.attraction_radius - params.peak_attraction_radius) % 2 == 0,
        factor % 2 == 0,
    ensures
        magnitude_spec(params, factor, params.repulsion_radius as int / 2) == -SCALE / 2,
        magnitude_spec(
            params,
            factor,
            (params.repulsion_radius + params.peak_attraction_radius) as int / 2,
        ) == factor / 2,
        magnitude_spec(
            params,
            factor,
            (params.peak_attraction_radius + params.attraction_radius) as int / 2,
        ) == factor / 2,
{
    let rr = params.repulsion_radius as int;
    let peak = params.peak_attraction_radius as int;
    let attr = params.attraction_radius as int;
    let hs = SCALE as int / 2;
    let hf = factor / 2;

    lemma_div_toward_zero_exact(hs, rr);
    assert((rr / 2) * SCALE == rr * hs) by (nonlinear_arith)
        requires
            rr % 2 == 0,
            SCALE == 2 * hs,
    ;

    let m2 = (rr + peak) / 2;
    lemma_div_toward_zero_exact(hf, peak - rr);
    assert((m2 - rr) * factor == (peak - rr) * hf && rr < m2 <= peak) by (nonlinear_arith)
        requires
            rr < peak,
            peak - rr == 2 * (m2 - rr),
            factor == 2 * hf,
    ;

    let m3 = (peak + attr) / 2;
    lemma_div_toward_zero_exact(-hf, attr - peak);
    assert((m3 - peak) * (-factor) == (attr - peak) * (-hf) && peak < m3 <= attr)
        by (nonlinear_arith)
        requires
            peak < attr,
            attr - peak == 2 * (m3 - peak),
            factor == 2 * hf,
    ;
}

/// Upper bound on the number of particles one tick handles.
pub const MAX_PARTICLES: usize = 3000;

/// Rounded-up integer square root.
pub open spec fn sqrt_ceil(n: nat) -> nat {
    if sqrt_floor(n) * sqrt_floor(n) < n {
        sqrt_floor(n) + 1
    } else {
        sqrt_floor(n)
    }
}

/// The force a neighbour at `q` exerts on a particle at `p`, along the
/// shortest wrapped displacement from `p` to `q`: the response curve's
/// magnitude at their distance, scaled by the force strength, applied to the
/// unit displacement. Zero for a coincident neighbour and beyond the
/// interaction cutoff.
pub open spec fn contribution(
    params: SimulationParams,
    dom: Rect,
    p: Vec2,
    q: Vec2,
    weight: int,
) -> (int, int) {
    let dx = wrap_delta(dom.width(), q.x - p.x);
    let dy = wrap_delta(dom.height(), q.y - p.y);
    let dist_sq = dx * dx + dy * dy;
    if dist_sq == 0 || dist_sq > params.attraction_radius * params.attraction_radius {
        (0, 0)
    } else {
        let dist = sqrt_floor(dist_sq as nat) as int;
        let g = div_toward_zero(
            magnitude_spec(params, weight, dist) * params.force_strength,
            SCALE as int,
        );
        (div_toward_zero(g * dx, dist), div_toward_zero(g * dy, dist))
    }
}

/// The net force on particle `i` from the first `j` particles, skipping the
/// particle itself.
pub open spec fn net_force(
    params: SimulationParams,
    dom: Rect,
    model: Model,
    positions: Seq<Vec2>,
    colours: Seq<ParticleColour>,
    i: int,
    j: int,
) -> (int, int)
    decreases j,
{
    if j <= 0 {
        (0, 0)
    } else {
        let rest = net_force(params, dom, model, positions, colours, i, j - 1);
        if j - 1 == i {
            rest
        } else {
            let c = contribution(
                params,
                dom,
                positions[i],
                positions[j - 1],
                model.weight_spec(colours[i].index_spec(), colours[j - 1].index_spec()),
            );
            (rest.0 + c.0, rest.1 + c.1)
        }
    }
}

/// The first `n` particles exactly as the grid stores them: position and
/// (index, colour) payload.
pub open spec fn indexed_items(
    positions: Seq<Vec2>,
    colours: Seq<ParticleColour>,
    n: int,
) -> Seq<(Vec2, (usize, ParticleColour))> {
    Seq::new(n as nat, |j: int| (positions[j], (j as usize, colours[j])))
}

/// One step of the force-accumulation fold: skip the particle itself, add
/// every other queried neighbour's contribution.
pub open spec fn accum_fn(
    params: SimulationParams,
    dom: Rect,
    model: Model,
    p: Vec2,
    ci: ParticleColour,
    i: int,
) -> spec_fn((Vec2, (usize, ParticleColour)), (int, int)) -> (int, int) {
    |pr: (Vec2, (usize, ParticleColour)), acc: (int, int)|
        {
            if pr.1.0 == i {
                acc
            } else {
                let c = contribution(
                    params,
                    dom,
                    p,
                    pr.0,
                    model.weight_spec(ci.index_spec(), pr.1.1.index_spec()),
                );
                (acc.0 + c.0, acc.1 + c.1)
            }
        }
}

/// The accumulation step commutes, so the order neighbours come back from
/// the grid does not matter.
proof fn lemma_accum_commutes(
    params: SimulationParams,
    dom: Rect,
    model: Model,
    p: Vec2,
    ci: ParticleColour,
    i: int,
)
    ensures
        commutative_foldr(accum_fn(params, dom, model, p, ci, i)),
{
    let f = accum_fn(params, dom, model, p, ci, i);
    assert forall|x: (Vec2, (usize, ParticleColour)), y: (Vec2, (usize, ParticleColour)), v: (
        int,
        int,
    )| #[trigger] f(x, f(y, v)) == f(y, f(x, v)) by {
    }
}

/// Folding from any base adds the base to the fold from zero.
proof fn lemma_fold_base(
    params: SimulationParams,
    dom: Rect,
    model: Model,
    p: Vec2,
    ci: ParticleColour,
    i: int,
    s: Seq<(Vec2, (usize, ParticleColour))>,
    b: (int, int),
)
    ensures
        ({
            let f = accum_fn(params, dom, model, p, ci, i);
            s.fold_right(f, b) == (
                s.fold_right(f, (0int, 0int)).0 + b.0,
                s.fold_right(f, (0int, 0int)).1 + b.1,
            )
        }),
    decreases s.len(),
{
    let f = accum_fn(params, dom, model, p, ci, i);
    if s.len() > 0 {
        lemma_fold_base(params, dom, model, p, ci, i, s.drop_last(), f(s.last(), b));
        lemma_fold_base(params, dom, model, p, ci, i, s.drop_last(), f(s.last(), (0int, 0int)));
    }
}

/// Appending a neighbour appends its accumulation step.
proof fn lemma_fold_push(
    params: SimulationParams,
    dom: Rect,
    model: Model,
    p: Vec2,
    ci: ParticleColour,
    i: int,
    s: Seq<(Vec2, (usize, ParticleColour))>,
    x: (Vec2, (usize, ParticleColour)),
)
    ensures
        ({
            let f = accum_fn(params, dom, model, p, ci, i);
            s.push(x).fold_right(f, (0int, 0int)) == (
                s.fold_right(f, (0int, 0int)).0 + f(x, (0int, 0int)).0,
                s.fold_right(f, (0int, 0int)).1 + f(x, (0int, 0int)).1,
            )
        }),
{
    let f = accum_fn(params, dom, model, p, ci, i);
    assert(s.push(x).drop_last() =~= s);
    assert(s.push(x).fold_right(f, (0int, 0int)) == s.fold_right(f, f(x, (0int, 0int))));
    lemma_fold_base(params, dom, model, p, ci, i, s, f(x, (0int, 0int)));
}

/// Neighbours beyond the interaction cutoff contribute nothing, so dropping
/// them from the fold changes nothing.
proof fn lemma_fold_filter(
    params: SimulationParams,
    dom: Rect,
    model: Model,
    p: Vec2,
    ci: ParticleColour,
    i: int,
    s: Seq<(Vec2, (usize, ParticleColour))>,
    pred: spec_fn((Vec2, (usize, ParticleColour))) -> bool,
)
    requires
        dom.wf(),
        forall|pr: (Vec2, (usize, ParticleColour))| #[trigger] pred(pr) <==> tor_dist_sq(
            dom,
            pr.0,
            p,
        ) <= params.attraction_radius * params.attraction_radius,
    ensures
        ({
            let f = accum_fn(params, dom, model, p, ci, i);
            s.filter(pred).fold_right(f, (0int, 0int)) == s.fold_right(f, (0int, 0int))
        }),
    decreases s.len(),
{
    reveal(Seq::filter);
    let f = accum_fn(params, dom, model, p, ci, i);
    if s.len() > 0 {
        lemma_fold_filter(params, dom, model, p, ci, i, s.drop_last(), pred);
        let x = s.last();
        assert(s.drop_last().push(x) =~= s);
        lemma_fold_push(params, dom, model, p, ci, i, s.drop_last(), x);
        if pred(x) {
            lemma_fold_push(params, dom, model, p, ci, i, s.drop_last().filter(pred), x);
        } else {
            // Beyond the cutoff the contribution vanishes.
            lemma_tor_dist_sq_flip(dom, x.0, p);
            assert(f(x, (0int, 0int)) == (0int, 0int));
        }
    }
}

/// The toroidal square distance reads the same from either end.
proof fn lemma_tor_dist_sq_flip(dom: Rect, a: Vec2, b: Vec2)
    requires
        dom.wf(),
    ensures
        tor_dist_sq(dom, a, b) == tor_dist_sq(dom, b, a),
{
    let dx = wrap_delta(dom.width(), b.x - a.x);
    let dy = wrap_delta(dom.height(), b.y - a.y);
    assert(wrap_delta(dom.width(), a.x - b.x) == -dx);
    assert(wrap_delta(dom.height(), a.y - b.y) == -dy);
    assert((-dx) * (-dx) == dx * dx && (-dy) * (-dy) == dy * dy) by (nonlinear_arith);
}

/// The recursive net force equals the fold over the indexed particle
/// sequence.
proof fn lemma_net_force_fold(
    params: SimulationParams,
    dom: Rect,
    model: Model,
    positions: Seq<Vec2>,
    colours: Seq<ParticleColour>,
    i: int,
    j: int,
)
    requires
        0 <= i,
        0 <= j <= positions.len(),
        j <= MAX_PARTICLES,
        positions.len() == colours.len(),
    ensures
        net_force(params, dom, model, positions, colours, i, j) == indexed_items(
            positions,
            colours,
            j,
        ).fold_right(accum_fn(params, dom, model, positions[i], colours[i], i), (0int, 0int)),
    decreases j,
{
    let f = accum_fn(params, dom, model, positions[i], colours[i], i);
    if j > 0 {
        lemma_net_force_fold(params, dom, model, positions, colours, i, j - 1);
        let x = (positions[j - 1], ((j - 1) as usize, colours[j - 1]));
        assert(indexed_items(positions, colours, j) =~= indexed_items(
            positions,
            colours,
            j - 1,
        ).push(x));
        lemma_fold_push(params, dom, model, positions[i], colours[i], i, indexed_items(
            positions,
            colours,
            j - 1,
        ), x);
        assert((x.1.0 as int == i) <==> (j - 1 == i));
    }
}

/// The magnitude of the response curve never leaves [-SCALE, SCALE].
proof fn lemma_magnitude_spec_range(params: SimulationParams, factor: int, distance: int)
    requires
        params.valid(),
        -SCALE <= factor <= SCALE,
        0 <= distance <= params.attraction_radius,
    ensures
        -SCALE <= magnitude_spec(params, factor, distance) <= SCALE,
{
    let rr = params.repulsion_radius as int;
    let peak = params.peak_attraction_radius as int;
    let attr = params.attraction_radius as int;
    if distance <= rr {
        if rr > 0 {
            lemma_div_toward_zero_bounds(distance, SCALE as int, rr);
        }
    } else if distance <= peak {
        lemma_div_toward_zero_bounds(distance - rr, factor, peak - rr);
    } else {
        lemma_div_toward_zero_bounds(distance - peak, -factor, attr - peak);
    }
}

/// One neighbour's contribution never exceeds the force strength on either
/// axis.
proof fn lemma_contribution_bounded(
    params: SimulationParams,
    dom: Rect,
    p: Vec2,
    q: Vec2,
    weight: int,
)
    requires
        params.valid(),
        -SCALE <= weight <= SCALE,
    ensures
        -MAX_FORCE_STRENGTH <= contribution(params, dom, p, q, weight).0 <= MAX_FORCE_STRENGTH,
        -MAX_FORCE_STRENGTH <= contribution(params, dom, p, q, weight).1 <= MAX_FORCE_STRENGTH,
{
    let dx = wrap_delta(dom.width(), q.x - p.x);
    let dy = wrap_delta(dom.height(), q.y - p.y);
    let dist_sq = dx * dx + dy * dy;
    let attr = params.attraction_radius as int;
    if dist_sq == 0 || dist_sq > attr * attr {
    } else {
        assert(dist_sq >= 0) by (nonlinear_arith)
            requires
                dist_sq == dx * dx + dy * dy,
        ;
        let dist = sqrt_floor(dist_sq as nat) as int;
        crate::math::lemma_sqrt_floor_bracket(dist_sq as nat);
        assert(0 <= dist <= attr) by (nonlinear_arith)
            requires
                dist >= 0,
                dist * dist <= dist_sq,
                dist_sq <= attr * attr,
                attr >= 0,
        ;
        lemma_magnitude_spec_range(params, weight, dist);
        let m = magnitude_spec(params, weight, dist);
        assert(-(MAX_FORCE_STRENGTH as int) * SCALE <= m * params.force_strength
            <= MAX_FORCE_STRENGTH as int * SCALE) by (nonlinear_arith)
            requires
                -SCALE <= m <= SCALE,
                0 <= params.force_strength <= MAX_FORCE_STRENGTH,
        ;
        lemma_div_toward_zero_bound(
            m * params.force_strength,
            SCALE as int,
            MAX_FORCE_STRENGTH as int,
        );
        let g = div_toward_zero(m * params.force_strength, SCALE as int);
        assert(1 <= dist) by {
            if dist < 1 {
                assert(dist == 0);
                assert(dist_sq < (0nat + 1) * (0nat + 1));
                assert((0nat + 1) * (0nat + 1) == 1) by (nonlinear_arith);
            }
        }
        assert(dx * dx <= dist_sq && dy * dy <= dist_sq) by (nonlinear_arith)
            requires
                dist_sq == dx * dx + dy * dy,
        ;
        assert(-dist <= dx <= dist && -dist <= dy <= dist) by (nonlinear_arith)
            requires
                dx * dx <= dist_sq,
                dy * dy <= dist_sq,
                dist_sq < (dist + 1) * (dist + 1),
                0 <= dist,
        ;
        assert(-(MAX_FORCE_STRENGTH as int) * dist <= g * dx <= MAX_FORCE_STRENGTH as int * dist
            && -(MAX_FORCE_STRENGTH as int) * dist <= g * dy <= MAX_FORCE_STRENGTH as int * dist)
            by (nonlinear_arith)
            requires
                -(MAX_FORCE_STRENGTH as int) <= g <= MAX_FORCE_STRENGTH as int,
                -dist <= dx <= dist,
                -dist <= dy <= dist,
                1 <= dist,
        ;
        lemma_div_toward_zero_bound(g * dx, dist, MAX_FORCE_STRENGTH as int);
        lemma_div_toward_zero_bound(g * dy, dist, MAX_FORCE_STRENGTH as int);
    }
}

/// A single particle exerts no force on itself: over a one-particle system
/// the net force is exactly zero.
pub proof fn lemma_single_particle_zero_force(
    params: SimulationParams,
    dom: Rect,
    model: Model,
    positions: Seq<Vec2>,
    colours: Seq<ParticleColour>,
)
    requires
        positions.len() == 1,
    ensures
        net_force(params, dom, model, positions, colours, 0, 1) == (0int, 0int),
{
    assert(net_force(params, dom, model, positions, colours, 0, 0) == (0int, 0int));
}

/// The velocity after the speed clamp: unchanged below the limit, else
/// rescaled onto it along its own direction.
pub open spec fn clamped_velocity(vx: int, vy: int) -> (int, int) {
    if vx * vx + vy * vy <= MAX_SPEED * MAX_SPEED {
        (vx, vy)
    } else {
        let s = sqrt_ceil((vx * vx + vy * vy) as nat) as int;
        (
            div_toward_zero(vx * MAX_SPEED, s),
            div_toward_zero(vy * MAX_SPEED, s),
        )
    }
}

/// One particle's velocity update: forces applied over the time delta, the
/// friction damping factor applied, then the speed clamp.
pub open spec fn step_velocity(v: Vec2, f: (int, int), dt: int, damping: int) -> (int, int) {
    let vx1 = v.x + div_toward_zero(f.0 * dt, SCALE as int);
    let vy1 = v.y + div_toward_zero(f.1 * dt, SCALE as int);
    let vx2 = div_toward_zero(vx1 * damping, SCALE as int);
    let vy2 = div_toward_zero(vy1 * damping, SCALE as int);
    clamped_velocity(vx2, vy2)
}

/// One particle's position update: the velocity applied over the time
/// delta, wrapped back into the domain.
pub open spec fn step_position(dom: Rect, p: Vec2, v: (int, int), dt: int) -> (int, int) {
    (
        wrapped(dom.min.x as int, dom.max.x as int, p.x + div_toward_zero(v.0 * dt, SCALE as int)),
        wrapped(dom.min.y as int, dom.max.y as int, p.y + div_toward_zero(v.1 * dt, SCALE as int)),
    )
}

/// The speed clamp works: whatever velocity integration produced, the
/// clamped velocity's squared speed never exceeds the squared speed limit.
pub proof fn lemma_velocity_clamped(vx: int, vy: int)
    ensures
        ({
            let c = clamped_velocity(vx, vy);
            c.0 * c.0 + c.1 * c.1 <= MAX_SPEED * MAX_SPEED
        }),
{
    let nsq = vx * vx + vy * vy;
    assert(vx * vx >= 0 && vy * vy >= 0) by (nonlinear_arith);
    if nsq > MAX_SPEED * MAX_SPEED {
        let s = sqrt_ceil(nsq as nat) as int;
        crate::math::lemma_sqrt_floor_bracket(nsq as nat);
        assert(s >= 1 && s * s >= nsq) by (nonlinear_arith)
            requires
                nsq > MAX_SPEED * MAX_SPEED,
                MAX_SPEED >= 1,
                s == sqrt_ceil(nsq as nat),
                sqrt_floor(nsq as nat) * sqrt_floor(nsq as nat) <= nsq,
                nsq < (sqrt_floor(nsq as nat) + 1) * (sqrt_floor(nsq as nat) + 1),
                s * s >= nsq || s == sqrt_floor(nsq as nat),
        ;
        let ax = div_toward_zero(vx * MAX_SPEED, s);
        let ay = div_toward_zero(vy * MAX_SPEED, s);
        lemma_div_toward_zero_mul_le(vx * MAX_SPEED, s);
        lemma_div_toward_zero_mul_le(vy * MAX_SPEED, s);
        assert(ax * ax * (s * s) <= (vx * MAX_SPEED) * (vx * MAX_SPEED)) by (nonlinear_arith)
            requires
                vx * MAX_SPEED >= 0 ==> 0 <= ax * s <= vx * MAX_SPEED,
                vx * MAX_SPEED < 0 ==> vx * MAX_SPEED <= ax * s <= 0,
        ;
        assert(ay * ay * (s * s) <= (vy * MAX_SPEED) * (vy * MAX_SPEED)) by (nonlinear_arith)
            requires
                vy * MAX_SPEED >= 0 ==> 0 <= ay * s <= vy * MAX_SPEED,
                vy * MAX_SPEED < 0 ==> vy * MAX_SPEED <= ay * s <= 0,
        ;
        assert((vx * MAX_SPEED) * (vx * MAX_SPEED) + (vy * MAX_SPEED) * (vy * MAX_SPEED) == nsq
            * (MAX_SPEED as int * MAX_SPEED)) by (nonlinear_arith)
            requires
                nsq == vx * vx + vy * vy,
        ;
        assert(nsq * (MAX_SPEED as int * MAX_SPEED) <= (s * s) * (MAX_SPEED as int * MAX_SPEED))
            by (nonlinear_arith)
            requires
                nsq <= s * s,
                MAX_SPEED >= 1,
        ;
        assert(ax * ax + ay * ay <= MAX_SPEED as int * MAX_SPEED) by (nonlinear_arith)
            requires
                ax * ax * (s * s) + ay * ay * (s * s) <= (s * s) * (MAX_SPEED as int * MAX_SPEED),
                s >= 1,
        ;
    }
}

/// One simulation tick: rebuild the spatial grid from the current
/// positions, accumulate every particle's neighbour forces through grid
/// queries, integrate velocities under the friction damping factor and the
/// speed clamp, and wrap positions back into the domain.
///
/// `damping` is the per-tick friction decay factor in fixed point, computed
/// by the caller from the friction coefficient and the time delta.
#[verifier::loop_isolation(false)]
#[verifier::rlimit(100)]
pub fn compute_forces(
    positions: &mut Vec<Vec2>,
    velocities: &mut Vec<Vec2>,
    colours: &Vec<ParticleColour>,
    grid: &mut SpatialHashGrid<(usize, ParticleColour)>,
    model: &Model,
    params: &SimulationParams,
    dt: i64,
    damping: i64,
)
    requires
        old(positions)@.len() == colours@.len(),
        old(velocities)@.len() == colours@.len(),
        colours@.len() <= MAX_PARTICLES,
        old(grid).wf(),
        params.valid(),
        model.wf(),
        params.num_colours <= model.num_colours_spec(),
        forall|j: int|
            0 <= j < colours@.len() ==> (#[trigger] colours@[j]).index_spec()
                < params.num_colours,
        forall|j: int|
            0 <= j < colours@.len() ==> old(grid).bounds_spec().contains(
                #[trigger] old(positions)@[j],
            ),
        forall|j: int|
            0 <= j < colours@.len() ==> -MAX_SPEED <= (#[trigger] old(velocities)@[j]).x
                <= MAX_SPEED && -MAX_SPEED <= old(velocities)@[j].y <= MAX_SPEED,
        0 <= dt <= SCALE,
        0 <= damping <= SCALE,
    ensures
        final(positions)@.len() == colours@.len(),
        final(velocities)@.len() == colours@.len(),
        final(grid).wf(),
        final(grid).bounds_spec() == old(grid).bounds_spec(),
        final(grid).cols_spec() == old(grid).cols_spec(),
        final(grid).rows_spec() == old(grid).rows_spec(),
        forall|j: int|
            0 <= j < colours@.len() ==> {
                let f = net_force(
                    *params,
                    old(grid).bounds_spec(),
                    *model,
                    old(positions)@,
                    colours@,
                    j,
                    colours@.len() as int,
                );
                let v = step_velocity(old(velocities)@[j], f, dt as int, damping as int);
                &&& (#[trigger] final(velocities)@[j]).x == v.0
                &&& final(velocities)@[j].y == v.1
                &&& final(positions)@[j].x == step_position(
                    old(grid).bounds_spec(),
                    old(positions)@[j],
                    v,
                    dt as int,
                ).0
                &&& final(positions)@[j].y == step_position(
                    old(grid).bounds_spec(),
                    old(positions)@[j],
                    v,
                    dt as int,
                ).1
            },
        forall|j: int|
            0 <= j < colours@.len() ==> (#[trigger] final(velocities)@[j]).x * final(velocities)@[j].x
                + final(velocities)@[j].y * final(velocities)@[j].y <= MAX_SPEED * MAX_SPEED,
        forall|j: int|
            0 <= j < colours@.len() ==> -MAX_SPEED <= (#[trigger] final(velocities)@[j]).x
                <= MAX_SPEED && -MAX_SPEED <= final(velocities)@[j].y <= MAX_SPEED,
        forall|j: int|
            0 <= j < colours@.len() ==> old(grid).bounds_spec().contains(
                #[trigger] final(positions)@[j],
            ),
{
    broadcast use vstd::seq_lib::group_to_multiset_ensures;

    let n = colours.len();
    let ghost dom = old(grid).bounds_spec();
    proof {
        old(grid).lemma_bounds_wf();
    }
    let bounds = grid.bounds();

    grid.clear();
    proof {
        assert(indexed_items(old(positions)@, colours@, 0) =~= Seq::<
            (Vec2, (usize, ParticleColour)),
        >::empty());
    }

    let mut i: usize = 0;
    while i < n
        invariant
            i <= n,
            grid.wf(),
            grid.bounds_spec() == dom,
            grid.cols_spec() == old(grid).cols_spec(),
            grid.rows_spec() == old(grid).rows_spec(),
            positions@ == old(positions)@,
            velocities@ == old(velocities)@,
            grid.items().to_multiset() == indexed_items(
                old(positions)@,
                colours@,
                i as int,
            ).to_multiset(),
        decreases n - i,
    {
        let p = positions[i];
        let c = colours[i];
        grid.insert(p, (i, c));
        proof {
            assert(indexed_items(old(positions)@, colours@, i as int + 1) =~= indexed_items(
                old(positions)@,
                colours@,
                i as int,
            ).push((p, (i, c))));
        }
        i = i + 1;
    }

    let ghost grid_snap = *grid;
    let ghost all = indexed_items(old(positions)@, colours@, n as int);
    proof {
        assert(all.len() == n);
    }

    let mut i: usize = 0;
    while i < n
        invariant
            i <= n,
            *grid == grid_snap,
            positions@.len() == n,
            velocities@.len() == n,
            forall|j: int|
                i <= j < n ==> #[trigger] positions@[j] == old(positions)@[j]
                    && velocities@[j] == old(velocities)@[j],
            forall|j: int|
                0 <= j < i ==> {
                    let f = net_force(
                        *params,
                        dom,
                        *model,
                        old(positions)@,
                        colours@,
                        j,
                        n as int,
                    );
                    let v = step_velocity(old(velocities)@[j], f, dt as int, damping as int);
                    &&& (#[trigger] velocities@[j]).x == v.0
                    &&& velocities@[j].y == v.1
                    &&& positions@[j].x == step_position(dom, old(positions)@[j], v, dt as int).0
                    &&& positions@[j].y == step_position(dom, old(positions)@[j], v, dt as int).1
                    &&& velocities@[j].x * velocities@[j].x + velocities@[j].y * velocities@[j].y
                        <= MAX_SPEED * MAX_SPEED
                    &&& -MAX_SPEED <= velocities@[j].x <= MAX_SPEED
                    &&& -MAX_SPEED <= velocities@[j].y <= MAX_SPEED
                },
            forall|j: int| 0 <= j < i ==> dom.contains(#[trigger] positions@[j]),
        decreases n - i,
    {
        let p = positions[i];
        let v = velocities[i];
        let ci = colours[i];
        let ghost f = accum_fn(*params, dom, *model, p, ci, i as int);
        let ghost pred = grid_snap.within_radius(p, params.attraction_radius as int);

        let results = grid.query(p, params.attraction_radius);
        proof {
            crate::buckets::lemma_filter_multiset(grid_snap.items(), all, pred);
            assert(results@.to_multiset() == all.filter(pred).to_multiset());
            assert(results@.to_multiset().len() == results@.len());
            assert(all.filter(pred).to_multiset().len() == all.filter(pred).len());
            all.lemma_filter_len(pred);
            assert(results@.len() <= n);
        }

        let mut fx: i64 = 0;
        let mut fy: i64 = 0;
        let m = results.len();
        let mut k: usize = 0;
        while k < m
            invariant
                k <= m,
                m == results@.len(),
                m <= n,
                (fx as int, fy as int) == results@.take(k as int).fold_right(f, (0int, 0int)),
                -(k as int) * (MAX_FORCE_STRENGTH as int) <= fx
                    <= (k as int) * (MAX_FORCE_STRENGTH as int),
                -(k as int) * (MAX_FORCE_STRENGTH as int) <= fy
                    <= (k as int) * (MAX_FORCE_STRENGTH as int),
            decreases m - k,
        {
            let (qpos, payload) = results[k];
            let (j_idx, jcol) = payload;
            let ghost item = results@[k as int];
            proof {
                assert(results@.contains(item));
                assert(results@.to_multiset().count(item) > 0);
                crate::buckets::lemma_filter_count(all, pred, item);
                assert(all.to_multiset().count(item) > 0);
                assert(all.contains(item));
                let jj = choose|jj: int| 0 <= jj < all.len() && all[jj] == item;
                assert(item == (old(positions)@[jj], (jj as usize, colours@[jj])));
                assert(qpos == old(positions)@[jj] && jcol == colours@[jj]);
                assert(dom.contains(qpos));
                assert(jcol.index_spec() < params.num_colours);
            }
            let ghost term = f(item, (0int, 0int));
            if j_idx != i {
                let delta = bounds.toroidal_displacement(p, qpos);
                proof {
                    assert(delta.x * delta.x + delta.y * delta.y <= 2 * 32_000_000 * 32_000_000
                        && 0 <= delta.x * delta.x && 0 <= delta.y * delta.y) by (nonlinear_arith)
                        requires
                            -32_000_000 <= delta.x <= 32_000_000,
                            -32_000_000 <= delta.y <= 32_000_000,
                    ;
                }
                let dist_sq = delta.x * delta.x + delta.y * delta.y;
                proof {
                    lemma_tor_dist_sq_flip(dom, qpos, p);
                    assert(dist_sq == tor_dist_sq(dom, p, qpos));
                    assert(dist_sq <= params.attraction_radius * params.attraction_radius);
                }
                if dist_sq != 0 {
                    let dist = isqrt(dist_sq);
                    proof {
                        assert(0 <= dist <= params.attraction_radius) by (nonlinear_arith)
                            requires
                                0 <= dist,
                                dist * dist <= dist_sq,
                                dist_sq <= params.attraction_radius * params.attraction_radius,
                                0 <= params.attraction_radius,
                        ;
                    }
                    let wgt = model.weight(ci, jcol);
                    let mag = magnitude(params, wgt, dist);
                    proof {
                        assert(-(MAX_FORCE_STRENGTH as int) * SCALE <= mag * params.force_strength
                            <= (MAX_FORCE_STRENGTH as int) * SCALE) by (nonlinear_arith)
                            requires
                                -SCALE <= mag <= SCALE,
                                0 <= params.force_strength <= MAX_FORCE_STRENGTH,
                        ;
                    }
                    let g = trunc_div(mag * params.force_strength, SCALE);
                    proof {
                        lemma_div_toward_zero_bound(
                            mag as int * params.force_strength,
                            SCALE as int,
                            MAX_FORCE_STRENGTH as int,
                        );
                        assert(1 <= dist) by {
                            if dist < 1 {
                                assert(dist == 0);
                                assert(dist * dist == 0) by (nonlinear_arith)
                                    requires
                                        dist == 0,
                                ;
                                assert(dist_sq < (dist + 1) * (dist + 1));
                                assert((0int + 1) * (0int + 1) == 1) by (nonlinear_arith);
                            }
                        }
                        assert(-dist <= delta.x <= dist && -dist <= delta.y <= dist)
                            by (nonlinear_arith)
                            requires
                                delta.x * delta.x <= dist_sq,
                                delta.y * delta.y <= dist_sq,
                                dist_sq < (dist + 1) * (dist + 1),
                                0 <= dist,
                        ;
                        assert(-(MAX_FORCE_STRENGTH as int) * dist <= g * delta.x
                            <= (MAX_FORCE_STRENGTH as int) * dist) by (nonlinear_arith)
                            requires
                                -(MAX_FORCE_STRENGTH as int) <= g <= MAX_FORCE_STRENGTH as int,
                                -dist <= delta.x <= dist,
                                1 <= dist,
                        ;
                        assert(-(MAX_FORCE_STRENGTH as int) * dist <= g * delta.y
                            <= (MAX_FORCE_STRENGTH as int) * dist) by (nonlinear_arith)
                            requires
                                -(MAX_FORCE_STRENGTH as int) <= g <= MAX_FORCE_STRENGTH as int,
                                -dist <= delta.y <= dist,
                                1 <= dist,
                        ;
                    }
                    let tx = trunc_div(g * delta.x, dist);
                    let ty = trunc_div(g * delta.y, dist);
                    proof {
                        lemma_div_toward_zero_bound(
                            g as int * delta.x,
                            dist as int,
                            MAX_FORCE_STRENGTH as int,
                        );
                        lemma_div_toward_zero_bound(
                            g as int * delta.y,
                            dist as int,
                            MAX_FORCE_STRENGTH as int,
                        );
                        assert(term == (tx as int, ty as int));
                    }
                    fx = fx + tx;
                    fy = fy + ty;
                } else {
                    proof {
                        assert(term == (0int, 0int));
                    }
                }
            } else {
                proof {
                    assert(term == (0int, 0int));
                }
            }
            proof {
                assert(results@.take(k as int + 1) =~= results@.take(k as int).push(item));
                lemma_fold_push(
                    *params,
                    dom,
                    *model,
                    p,
                    ci,
                    i as int,
                    results@.take(k as int),
                    item,
                );
            }
            k = k + 1;
        }

        proof {
            assert(results@.take(m as int) =~= results@);
            lemma_accum_commutes(*params, dom, *model, p, ci, i as int);
            lemma_fold_right_permutation(results@, all.filter(pred), f, (0int, 0int));
            lemma_fold_filter(*params, dom, *model, p, ci, i as int, all, pred);
            lemma_net_force_fold(
                *params,
                dom,
                *model,
                old(positions)@,
                colours@,
                i as int,
                n as int,
            );
            assert((fx as int, fy as int) == net_force(
                *params,
                dom,
                *model,
                old(positions)@,
                colours@,
                i as int,
                n as int,
            ));
            assert(-(MAX_PARTICLES as int) * (MAX_FORCE_STRENGTH as int) <= fx
                <= (MAX_PARTICLES as int) * (MAX_FORCE_STRENGTH as int)) by (nonlinear_arith)
                requires
                    -(m as int) * (MAX_FORCE_STRENGTH as int) <= fx
                        <= (m as int) * (MAX_FORCE_STRENGTH as int),
                    m <= MAX_PARTICLES,
            ;
            assert(-(MAX_PARTICLES as int) * (MAX_FORCE_STRENGTH as int) <= fy
                <= (MAX_PARTICLES as int) * (MAX_FORCE_STRENGTH as int)) by (nonlinear_arith)
                requires
                    -(m as int) * (MAX_FORCE_STRENGTH as int) <= fy
                        <= (m as int) * (MAX_FORCE_STRENGTH as int),
                    m <= MAX_PARTICLES,
            ;
            assert(-600_000_000_000 <= fx as int * dt <= 600_000_000_000
                && -600_000_000_000 <= fy as int * dt <= 600_000_000_000) by (nonlinear_arith)
                requires
                    -600_000_000 <= fx <= 600_000_000,
                    -600_000_000 <= fy <= 600_000_000,
                    0 <= dt <= SCALE,
            ;
            lemma_div_toward_zero_bound(fx as int * dt, SCALE as int, 600_000_000);
            lemma_div_toward_zero_bound(fy as int * dt, SCALE as int, 600_000_000);
        }

        let vx1 = v.x + trunc_div(fx * dt, SCALE);
        let vy1 = v.y + trunc_div(fy * dt, SCALE);
        proof {
            assert(-700_000_000_000 <= vx1 as int * damping <= 700_000_000_000
                && -700_000_000_000 <= vy1 as int * damping <= 700_000_000_000)
                by (nonlinear_arith)
                requires
                    -700_000_000 <= vx1 <= 700_000_000,
                    -700_000_000 <= vy1 <= 700_000_000,
                    0 <= damping <= SCALE,
            ;
            lemma_div_toward_zero_bound(vx1 as int * damping, SCALE as int, 700_000_000);
            lemma_div_toward_zero_bound(vy1 as int * damping, SCALE as int, 700_000_000);
        }
        let vx2 = trunc_div(vx1 * damping, SCALE);
        let vy2 = trunc_div(vy1 * damping, SCALE);
        proof {
            assert(0 <= vx2 as int * vx2 <= 700_000_000_000_000_000 && 0 <= vy2 as int * vy2
                <= 700_000_000_000_000_000) by (nonlinear_arith)
                requires
                    -700_000_000 <= vx2 <= 700_000_000,
                    -700_000_000 <= vy2 <= 700_000_000,
            ;
        }
        let norm_sq = vx2 * vx2 + vy2 * vy2;
        let vx3: i64;
        let vy3: i64;
        if norm_sq > MAX_SPEED * MAX_SPEED {
            let mut s = isqrt(norm_sq);
            proof {
                assert(s <= 1_200_000_000) by (nonlinear_arith)
                    requires
                        0 <= s,
                        s as int * s <= norm_sq,
                        norm_sq <= 1_400_000_000_000_000_000,
                ;
            }
            if s * s < norm_sq {
                s = s + 1;
            }
            proof {
                assert(s == sqrt_ceil(norm_sq as nat) as int);
                assert(s >= 1) by (nonlinear_arith)
                    requires
                        s * s >= norm_sq,
                        norm_sq > MAX_SPEED * MAX_SPEED,
                        MAX_SPEED >= 1,
                        s >= 0,
                ;
                assert(-200_000_000_000_000 <= vx2 as int * MAX_SPEED <= 200_000_000_000_000
                    && -200_000_000_000_000 <= vy2 as int * MAX_SPEED <= 200_000_000_000_000)
                    by (nonlinear_arith)
                    requires
                        -700_000_000 <= vx2 <= 700_000_000,
                        -700_000_000 <= vy2 <= 700_000_000,
                ;
            }
            vx3 = trunc_div(vx2 * MAX_SPEED, s);
            vy3 = trunc_div(vy2 * MAX_SPEED, s);
        } else {
            vx3 = vx2;
            vy3 = vy2;
        }
        proof {
            lemma_velocity_clamped(vx2 as int, vy2 as int);
            assert((vx3 as int, vy3 as int) == clamped_velocity(vx2 as int, vy2 as int));
            assert((vx3 as int, vy3 as int) == step_velocity(
                old(velocities)@[i as int],
                (fx as int, fy as int),
                dt as int,
                damping as int,
            ));
            assert(-MAX_SPEED <= vx3 <= MAX_SPEED && -MAX_SPEED <= vy3 <= MAX_SPEED)
                by (nonlinear_arith)
                requires
                    vx3 as int * vx3 + vy3 as int * vy3 <= MAX_SPEED * MAX_SPEED,
                    MAX_SPEED >= 1,
            ;
            assert(-(MAX_SPEED as int) * SCALE <= vx3 as int * dt <= (MAX_SPEED as int) * SCALE
                && -(MAX_SPEED as int) * SCALE <= vy3 as int * dt <= (MAX_SPEED as int) * SCALE)
                by (nonlinear_arith)
                requires
                    -MAX_SPEED <= vx3 <= MAX_SPEED,
                    -MAX_SPEED <= vy3 <= MAX_SPEED,
                    0 <= dt <= SCALE,
            ;
            lemma_div_toward_zero_bound(vx3 as int * dt, SCALE as int, MAX_SPEED as int);
            lemma_div_toward_zero_bound(vy3 as int * dt, SCALE as int, MAX_SPEED as int);
        }
        let ghost pos0 = positions@;
        let ghost vel0 = velocities@;
        velocities.set(i, Vec2 { x: vx3, y: vy3 });
        let shifted = Vec2 {
            x: p.x + trunc_div(vx3 * dt, SCALE),
            y: p.y + trunc_div(vy3 * dt, SCALE),
        };
        let np = bounds.toroidal_wrap(shifted);
        positions.set(i, np);
        proof {
            assert(positions@ == pos0.update(i as int, np));
            assert(velocities@ == vel0.update(i as int, Vec2 { x: vx3, y: vy3 }));
            assert forall|j: int|
                i + 1 <= j < n implies #[trigger] positions@[j] == old(positions)@[j]
                && velocities@[j] == old(velocities)@[j] by {
                assert(positions@[j] == pos0[j]);
                assert(velocities@[j] == vel0[j]);
            }
            assert forall|j: int|
                0 <= j < i + 1 implies {
                let f = net_force(*params, dom, *model, old(positions)@, colours@, j, n as int);
                let v2 = step_velocity(old(velocities)@[j], f, dt as int, damping as int);
                &&& (#[trigger] velocities@[j]).x == v2.0
                &&& velocities@[j].y == v2.1
                &&& positions@[j].x == step_position(dom, old(positions)@[j], v2, dt as int).0
                &&& positions@[j].y == step_position(dom, old(positions)@[j], v2, dt as int).1
                &&& velocities@[j].x * velocities@[j].x + velocities@[j].y * velocities@[j].y
                    <= MAX_SPEED * MAX_SPEED
                &&& -MAX_SPEED <= velocities@[j].x <= MAX_SPEED
                &&& -MAX_SPEED <= velocities@[j].y <= MAX_SPEED
            } by {
                if j < i {
                    assert(positions@[j] == pos0[j]);
                    assert(velocities@[j] == vel0[j]);
                } else {
                    assert(velocities@[j] == Vec2 { x: vx3, y: vy3 });
                    assert(positions@[j] == np);
                }
            }
        }
        i = i + 1;
    }
}

} // verus!
