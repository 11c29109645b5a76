//! The simulation plane's size, derived from the screen size: never smaller
//! than a 1920 by 1080 reference plane, and the zoom range that keeps the
//! plane covering the screen.

use vstd::prelude::*;
use crate::math::{Vec2, MAX_COORD, SCALE};

verus! {

/// The current screen size in fixed-point pixels.
#[derive(Clone, Copy, Debug, PartialEq, Eq, Structural)]
pub struct SimulationSize {
    pub width: i64,
    pub height: i64,
}

impl SimulationSize {
    pub open spec fn wf(self) -> bool {
        0 < self.width <= MAX_COORD && 0 < self.height <= MAX_COORD
    }

    /// The simulation plane: the screen, widened to at least the reference
    /// plane of 1920 by 1080 units.
    pub fn dimensions(&self) -> (d: Vec2)
        requires
            self.wf(),
        ensures
            d.x == if self.width > 1920 * SCALE { self.width } else { (1920 * SCALE) as i64 },
            d.y == if self.height > 1080 * SCALE { self.height } else { (1080 * SCALE) as i64 },
            d.bounded(),
    {
        let x = if self.width > 1920 * SCALE {
            self.width
        } else {
            1920 * SCALE
        };
        let y = if self.height > 1080 * SCALE {
            self.height
        } else {
            1080 * SCALE
        };
        Vec2 { x, y }
    }

    pub fn scale_bounds(&self) -> (r: (i64, i64))
        requires
            self.wf(),
        ensures
            r == scale_bounds_spec(self.width as int, self.height as int),
    {
        scale_bounds(self.width, self.height)
    }
}

/// The zoom range for a given screen: fixed lower bound of a tenth, upper
/// bound the largest zoom at which the simulation plane still covers the
/// screen on both axes.
pub open spec fn scale_bounds_spec(screen_width: int, screen_height: int) -> (i64, i64) {
    let sim_width = if screen_width > 1920 * SCALE { screen_width } else { 1920 * SCALE as int };
    let sim_height = if screen_height > 1080 * SCALE { screen_height } else { 1080 * SCALE as int };
    let zx = sim_width * SCALE / screen_width;
    let zy = sim_height * SCALE / screen_height;
    ((SCALE / 10) as i64, (if zx < zy { zx } else { zy }) as i64)
}

/// Allows zooming out exactly until the screen edges meet the edges of the
/// simulation plane.
pub fn scale_bounds(screen_width: i64, screen_height: i64) -> (r: (i64, i64))
    requires
        0 < screen_width <= MAX_COORD,
        0 < screen_height <= MAX_COORD,
    ensures
        r == scale_bounds_spec(screen_width as int, screen_height as int),
        r.0 == SCALE / 10,
        SCALE <= r.1,
{
    let sim_width = if screen_width > 1920 * SCALE {
        screen_width
    } else {
        1920 * SCALE
    };
    let sim_height = if screen_height > 1080 * SCALE {
        screen_height
    } else {
        1080 * SCALE
    };
    proof {
        lemma_cover_ratio_at_least_one(sim_width as int, screen_width as int);
        lemma_cover_ratio_at_least_one(sim_height as int, screen_height as int);
    }
    let zx = sim_width * SCALE / screen_width;
    let zy = sim_height * SCALE / screen_height;
    let z = if zx < zy {
        zx
    } else {
        zy
    };
    (SCALE / 10, z)
}

/// A plane at least as large as the screen yields a covering zoom of at
/// least one.
proof fn lemma_cover_ratio_at_least_one(sim: int, screen: int)
    requires
        0 < screen <= sim,
        sim <= MAX_COORD,
    ensures
        SCALE <= sim * SCALE / screen,
        sim * SCALE / screen <= sim * SCALE,
{
    assert(screen * SCALE <= sim * SCALE) by (nonlinear_arith)
        requires
            0 < screen <= sim,
    ;
    assert(sim * SCALE / screen >= (screen * SCALE) / screen) by (nonlinear_arith)
        requires
            screen * SCALE <= sim * SCALE,
            0 < screen,
    ;
    assert((screen * SCALE) / screen == SCALE) by (nonlinear_arith)
        requires
            0 < screen,
    ;
    assert(sim * SCALE / screen <= sim * SCALE) by (nonlinear_arith)
        requires
            0 < screen,
            0 < sim * SCALE,
    ;
}

} // verus!
