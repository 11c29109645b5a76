//! Toroidal plane math: shortest displacement and position wrapping on a
//! periodic rectangle, plus the linear remap primitive of the force curve.

use vstd::prelude::*;
use vstd::arithmetic::div_mod::{
    lemma_fundamental_div_mod, lemma_fundamental_div_mod_converse_mod,
    lemma_mod_division_less_than_divisor, lemma_mod_multiples_basic, lemma_small_mod,
};

verus! {

/// Fixed-point scale: world coordinates, radii, weights and time deltas are
/// stored as integer multiples of 1/SCALE of their unit.
pub const SCALE: i64 = 1000;

/// Bound on the coordinates of a domain rectangle, in fixed-point units.
pub const MAX_COORD: i64 = 8_000_000;

#[derive(Clone, Copy, Debug, PartialEq, Eq, Structural)]
pub struct Vec2 {
    pub x: i64,
    pub y: i64,
}

impl Vec2 {
    /// Both coordinates small enough for the fixed-point arithmetic of the
    /// simulation to stay well inside the i64 range.
    pub open spec fn bounded(self) -> bool {
        -MAX_COORD <= self.x <= MAX_COORD && -MAX_COORD <= self.y <= MAX_COORD
    }

    pub fn new(x: i64, y: i64) -> (v: Vec2)
        ensures
            v == (Vec2 { x, y }),
    {
        Vec2 { x, y }
    }

    pub fn zero() -> (v: Vec2)
        ensures
            v == (Vec2 { x: 0i64, y: 0i64 }),
    {
        Vec2 { x: 0, y: 0 }
    }

    pub fn splat(c: i64) -> (v: Vec2)
        ensures
            v == (Vec2 { x: c, y: c }),
    {
        Vec2 { x: c, y: c }
    }
}

/// The coordinate `x` brought into the half-open interval from `min`
/// (inclusive) to `max` (exclusive) by adding a whole number of periods.
pub open spec fn wrapped(min: int, max: int, x: int) -> int {
    min + (x - min) % (max - min)
}

/// The per-axis toroidal displacement: the raw difference `d`, shifted by one
/// period when the shorter way around the torus runs through the edge. At the
/// exact midpoint (twice the difference equal to the extent) the raw
/// difference is kept.
pub open spec fn wrap_delta(w: int, d: int) -> int {
    if 2 * d > w {
        d - w
    } else if 2 * d < -w {
        d + w
    } else {
        d
    }
}

/// Quotient rounded toward zero, the rounding used by the fixed-point
/// force computations.
pub open spec fn div_toward_zero(n: int, d: int) -> int {
    if n >= 0 {
        n / d
    } else {
        -((-n) / d)
    }
}

/// An axis-aligned rectangle, the periodic simulation domain: the left/right
/// and top/bottom edges are identified.
#[derive(Clone, Copy, Debug, PartialEq, Eq, Structural)]
pub struct Rect {
    pub min: Vec2,
    pub max: Vec2,
}

impl Rect {
    /// A well-formed domain: non-empty on both axes, coordinates bounded so
    /// that the fixed-point arithmetic over it cannot overflow.
    pub open spec fn wf(self) -> bool {
        &&& self.min.bounded()
        &&& self.max.bounded()
        &&& self.min.x < self.max.x
        &&& self.min.y < self.max.y
    }

    pub open spec fn width(self) -> int {
        self.max.x - self.min.x
    }

    pub open spec fn height(self) -> int {
        self.max.y - self.min.y
    }

    /// A point lies in the domain when each coordinate is in the half-open
    /// interval from min (inclusive) to max (exclusive).
    pub open spec fn contains(self, p: Vec2) -> bool {
        self.min.x <= p.x < self.max.x && self.min.y <= p.y < self.max.y
    }

    pub fn from_center_size(center: Vec2, size: Vec2) -> (r: Rect)
        requires
            2 <= size.x <= MAX_COORD,
            2 <= size.y <= MAX_COORD,
            -MAX_COORD / 2 <= center.x <= MAX_COORD / 2,
            -MAX_COORD / 2 <= center.y <= MAX_COORD / 2,
        ensures
            r.wf(),
            r.min.x == center.x - size.x / 2,
            r.min.y == center.y - size.y / 2,
            r.width() == 2 * (size.x / 2),
            r.height() == 2 * (size.y / 2),
    {
        let hx = size.x / 2;
        let hy = size.y / 2;
        Rect {
            min: Vec2 { x: center.x - hx, y: center.y - hy },
            max: Vec2 { x: center.x + hx, y: center.y + hy },
        }
    }

    pub fn from_center_half_size(center: Vec2, half: Vec2) -> (r: Rect)
        requires
            1 <= half.x <= MAX_COORD / 2,
            1 <= half.y <= MAX_COORD / 2,
            -MAX_COORD / 2 <= center.x <= MAX_COORD / 2,
            -MAX_COORD / 2 <= center.y <= MAX_COORD / 2,
        ensures
            r.wf(),
            r.min == (Vec2 { x: (center.x - half.x) as i64, y: (center.y - half.y) as i64 }),
            r.max == (Vec2 { x: (center.x + half.x) as i64, y: (center.y + half.y) as i64 }),
    {
        Rect {
            min: Vec2 { x: center.x - half.x, y: center.y - half.y },
            max: Vec2 { x: center.x + half.x, y: center.y + half.y },
        }
    }

    /// The shortest-path displacement from `a` to `b` on the torus, one axis
    /// at a time.
    pub fn toroidal_displacement(&self, a: Vec2, b: Vec2) -> (r: Vec2)
        requires
            self.wf(),
            a.bounded(),
            b.bounded(),
        ensures
            r.x == wrap_delta(self.width(), b.x - a.x),
            r.y == wrap_delta(self.height(), b.y - a.y),
    {
        let w = self.max.x - self.min.x;
        let h = self.max.y - self.min.y;

        let mut dx = b.x - a.x;
        let mut dy = b.y - a.y;

        if 2 * dx > w {
            dx = dx - w;
        } else if 2 * dx < -w {
            dx = dx + w;
        }

        if 2 * dy > h {
            dy = dy - h;
        } else if 2 * dy < -h {
            dy = dy + h;
        }

        Vec2 { x: dx, y: dy }
    }

    /// Brings a position into the domain by shifting it a whole number of
    /// periods per axis; correct for arbitrarily distant positions.
    pub fn toroidal_wrap(&self, pos: Vec2) -> (r: Vec2)
        requires
            self.wf(),
        ensures
            r.x == wrapped(self.min.x as int, self.max.x as int, pos.x as int),
            r.y == wrapped(self.min.y as int, self.max.y as int, pos.y as int),
            self.contains(r),
            r.bounded(),
    {
        let x = wrap_coord(self.min.x, self.max.x, pos.x);
        let y = wrap_coord(self.min.y, self.max.y, pos.y);
        Vec2 { x, y }
    }
}

/// One axis of `Rect::toroidal_wrap`.
fn wrap_coord(min: i64, max: i64, x: i64) -> (r: i64)
    requires
        -MAX_COORD <= min < max <= MAX_COORD,
    ensures
        r == wrapped(min as int, max as int, x as int),
        min <= r < max,
{
    proof {
        lemma_wrapped_range(min as int, max as int, x as int);
    }
    let w = (max - min) as i128;
    let off = x as i128 - min as i128;
    if off >= 0 {
        let m = off % w;
        (min as i128 + m) as i64
    } else {
        let neg = -off;
        let m = neg % w;
        proof {
            let q = (neg as int) / (w as int);
            lemma_fundamental_div_mod(neg as int, w as int);
            lemma_mod_division_less_than_divisor(neg as int, w as int);
            if m == 0 {
                assert(off as int == (-q) * (w as int)) by (nonlinear_arith)
                    requires
                        neg as int == (w as int) * q,
                        off as int == -(neg as int),
                ;
                lemma_mod_multiples_basic(-q, w as int);
            } else {
                assert(off as int == (-q - 1) * (w as int) + (w as int - m as int))
                    by (nonlinear_arith)
                    requires
                        neg as int == (w as int) * q + (m as int),
                        off as int == -(neg as int),
                ;
                lemma_fundamental_div_mod_converse_mod(
                    off as int,
                    w as int,
                    -q - 1,
                    w as int - m as int,
                );
            }
        }
        if m == 0 {
            min
        } else {
            (min as i128 + w - m) as i64
        }
    }
}

/// Toroidal displacement is antisymmetric: for every domain and pair of
/// points, the displacement from `a` to `b` is the exact negation of the
/// displacement from `b` to `a`, on both axes.
pub proof fn lemma_displacement_antisymmetric(dom: Rect, a: Vec2, b: Vec2)
    requires
        dom.wf(),
    ensures
        wrap_delta(dom.width(), b.x - a.x) == -wrap_delta(dom.width(), a.x - b.x),
        wrap_delta(dom.height(), b.y - a.y) == -wrap_delta(dom.height(), a.y - b.y),
{
}

/// A wrapped coordinate lies in the half-open domain interval.
pub proof fn lemma_wrapped_range(min: int, max: int, x: int)
    requires
        min < max,
    ensures
        min <= wrapped(min, max, x) < max,
{
    lemma_mod_division_less_than_divisor(x - min, max - min);
}

/// Wrapping is idempotent: wrapping an already wrapped position changes
/// nothing.
pub proof fn lemma_wrap_idempotent(min: int, max: int, x: int)
    requires
        min < max,
    ensures
        wrapped(min, max, wrapped(min, max, x)) == wrapped(min, max, x),
{
    lemma_mod_division_less_than_divisor(x - min, max - min);
    lemma_small_mod(((x - min) % (max - min)) as nat, (max - min) as nat);
}

/// A wrapped coordinate differs from the unwrapped one by a whole number of
/// periods.
pub proof fn lemma_wrapped_congruent(min: int, max: int, x: int)
    requires
        min < max,
    ensures
        (wrapped(min, max, x) - x) % (max - min) == 0,
{
    let w = max - min;
    lemma_fundamental_div_mod(x - min, w);
    let q = (x - min) / w;
    assert(w * (-q) == -(w * q)) by (nonlinear_arith);
    assert(wrapped(min, max, x) - x == w * (-q)) by {
        assert(x - min == w * q + (x - min) % w);
    }
    lemma_mod_multiples_basic(-q, w);
}

/// Restricts `v` to the closed interval from `lo` to `hi`.
pub fn clamp(v: i64, lo: i64, hi: i64) -> (r: i64)
    requires
        lo <= hi,
    ensures
        lo <= r <= hi,
        r == if v < lo { lo } else if v > hi { hi } else { v },
{
    if v < lo {
        lo
    } else if v > hi {
        hi
    } else {
        v
    }
}

/// The integer square root, rounded down.
pub open spec fn sqrt_floor(n: nat) -> nat
    decreases n,
{
    if n == 0 {
        0
    } else {
        let r = sqrt_floor((n - 1) as nat);
        if (r + 1) * (r + 1) <= n {
            (r + 1) as nat
        } else {
            r
        }
    }
}

/// The rounded-down square root brackets its argument between consecutive
/// squares.
pub proof fn lemma_sqrt_floor_bracket(n: nat)
    ensures
        sqrt_floor(n) * sqrt_floor(n) <= n,
        n < (sqrt_floor(n) + 1) * (sqrt_floor(n) + 1),
    decreases n,
{
    if n > 0 {
        lemma_sqrt_floor_bracket((n - 1) as nat);
        let r = sqrt_floor((n - 1) as nat);
        if (r + 1) * (r + 1) <= n {
            assert(sqrt_floor(n) == r + 1);
            assert(n < ((r + 1) + 1) * ((r + 1) + 1)) by (nonlinear_arith)
                requires
                    n <= (n - 1) + 1,
                    (n - 1) < (r + 1) * (r + 1),
            ;
            assert(sqrt_floor(n) * sqrt_floor(n) <= n);
            assert(n < (sqrt_floor(n) + 1) * (sqrt_floor(n) + 1));
        } else {
            assert(sqrt_floor(n) == r);
            assert(r * r <= n - 1 <= n);
            assert(n < (r + 1) * (r + 1));
        }
    } else {
        assert(sqrt_floor(0) == 0);
        assert(0nat * 0nat <= 0 && 0 < (0nat + 1) * (0nat + 1)) by (nonlinear_arith);
    }
}

/// Only one value sits between consecutive squares, so the bracket pins the
/// square root down.
pub proof fn lemma_sqrt_floor_unique(n: nat, s: nat)
    requires
        s * s <= n,
        n < (s + 1) * (s + 1),
    ensures
        s == sqrt_floor(n),
{
    lemma_sqrt_floor_bracket(n);
    let r = sqrt_floor(n);
    assert(s == r) by (nonlinear_arith)
        requires
            s * s <= n < (s + 1) * (s + 1),
            r * r <= n < (r + 1) * (r + 1),
    ;
}

/// The integer square root of a nonnegative i64, by bisection.
pub fn isqrt(n: i64) -> (r: i64)
    requires
        n >= 0,
    ensures
        r == sqrt_floor(n as nat),
        0 <= r,
        r * r <= n,
        n < (r + 1) * (r + 1),
{
    let mut lo: i64 = 0;
    let mut hi: i64;
    if n < 3_037_000_499 {
        hi = n + 1;
        proof {
            assert(n < (n + 1) * (n + 1)) by (nonlinear_arith)
                requires
                    n >= 0,
            ;
        }
    } else {
        hi = 3_037_000_500;
        proof {
            assert((i64::MAX as int) < 3_037_000_500int * 3_037_000_500int) by (nonlinear_arith);
        }
    }
    while lo + 1 < hi
        invariant
            0 <= lo < hi <= 3_037_000_500,
            lo * lo <= n,
            n < hi * hi,
        decreases hi - lo,
    {
        let mid = lo + (hi - lo) / 2;
        proof {
            assert(lo < mid < hi);
            assert(mid * mid <= 3_037_000_500i64 * 3_037_000_500) by (nonlinear_arith)
                requires
                    0 <= mid <= 3_037_000_500i64,
            ;
        }
        if mid <= n / mid {
            proof {
                lemma_le_div_implies_sq_le(n as int, mid as int);
            }
            lo = mid;
        } else {
            proof {
                lemma_gt_div_implies_sq_gt(n as int, mid as int);
            }
            hi = mid;
        }
    }
    proof {
        lemma_sqrt_floor_unique(n as nat, lo as nat);
    }
    lo
}

/// If m <= n / m for positive m, then m * m <= n.
proof fn lemma_le_div_implies_sq_le(n: int, m: int)
    requires
        0 < m,
        0 <= n,
        m <= n / m,
    ensures
        m * m <= n,
{
    vstd::arithmetic::div_mod::lemma_fundamental_div_mod(n, m);
    vstd::arithmetic::div_mod::lemma_mod_division_less_than_divisor(n, m);
    assert(m * m <= m * (n / m)) by (nonlinear_arith)
        requires
            0 < m,
            m <= n / m,
    ;
}

/// If m > n / m for positive m, then m * m > n.
proof fn lemma_gt_div_implies_sq_gt(n: int, m: int)
    requires
        0 < m,
        0 <= n,
        m > n / m,
    ensures
        m * m > n,
{
    vstd::arithmetic::div_mod::lemma_fundamental_div_mod(n, m);
    vstd::arithmetic::div_mod::lemma_mod_division_less_than_divisor(n, m);
    assert(m * (n / m) <= m * (m - 1)) by (nonlinear_arith)
        requires
            0 < m,
            n / m <= m - 1,
    ;
    assert(m * (m - 1) + m == m * m) by (nonlinear_arith);
}

/// Quotient rounded toward zero, the executable counterpart of
/// `div_toward_zero`.
pub fn trunc_div(num: i64, den: i64) -> (q: i64)
    requires
        0 < den,
        -4_000_000_000_000_000_000 <= num <= 4_000_000_000_000_000_000,
    ensures
        q == div_toward_zero(num as int, den as int),
{
    if num >= 0 {
        num / den
    } else {
        -((-num) / den)
    }
}

/// A truncating quotient times its divisor never exceeds the numerator in
/// magnitude, and a bounded numerator gives a bounded quotient.
pub proof fn lemma_div_toward_zero_mul_le(n: int, d: int)
    requires
        1 <= d,
    ensures
        n >= 0 ==> 0 <= div_toward_zero(n, d) * d <= n,
        n < 0 ==> n <= div_toward_zero(n, d) * d <= 0,
{
    if n >= 0 {
        vstd::arithmetic::div_mod::lemma_fundamental_div_mod(n, d);
        vstd::arithmetic::div_mod::lemma_mod_division_less_than_divisor(n, d);
        vstd::arithmetic::div_mod::lemma_div_pos_is_pos(n, d);
        assert((n / d) * d == d * (n / d)) by (nonlinear_arith);
        assert(0 <= (n / d) * d) by (nonlinear_arith)
            requires
                0 <= n / d,
                1 <= d,
        ;
    } else {
        vstd::arithmetic::div_mod::lemma_fundamental_div_mod(-n, d);
        vstd::arithmetic::div_mod::lemma_mod_division_less_than_divisor(-n, d);
        vstd::arithmetic::div_mod::lemma_div_pos_is_pos(-n, d);
        assert(div_toward_zero(n, d) * d == -(((-n) / d) * d)) by (nonlinear_arith)
            requires
                div_toward_zero(n, d) == -((-n) / d),
        ;
        assert(((-n) / d) * d == d * ((-n) / d)) by (nonlinear_arith);
        assert(0 <= ((-n) / d) * d) by (nonlinear_arith)
            requires
                0 <= (-n) / d,
                1 <= d,
        ;
    }
}

/// A numerator within B times the divisor keeps the truncating quotient
/// within B.
pub proof fn lemma_div_toward_zero_bound(n: int, d: int, b: int)
    requires
        1 <= d,
        0 <= b,
        -b * d <= n <= b * d,
    ensures
        -b <= div_toward_zero(n, d) <= b,
{
    lemma_div_toward_zero_mul_le(n, d);
    let q = div_toward_zero(n, d);
    assert(-b <= q <= b) by (nonlinear_arith)
        requires
            1 <= d,
            0 <= b,
            -b * d <= n <= b * d,
            n >= 0 ==> 0 <= q * d <= n,
            n < 0 ==> n <= q * d <= 0,
    ;
}

/// Linearly remaps `v` from the interval `[a, b]` onto `[c, d]`, rounding the
/// interpolation toward zero.
pub fn remap(v: i64, a: i64, b: i64, c: i64, d: i64) -> (r: i64)
    requires
        a <= v <= b,
        a < b,
        b - a <= 2 * MAX_COORD,
        -2 * SCALE <= c <= 2 * SCALE,
        -2 * SCALE <= d <= 2 * SCALE,
    ensures
        r == c + div_toward_zero((v - a) * (d - c), b - a),
        c <= d ==> c <= r <= d,
        d <= c ==> d <= r <= c,
{
    proof {
        lemma_div_toward_zero_bounds((v - a) as int, (d - c) as int, (b - a) as int);
        assert(-(2 * MAX_COORD * 4 * SCALE) <= (v - a) * (d - c) <= 2 * MAX_COORD * 4 * SCALE)
            by (nonlinear_arith)
            requires
                0 <= v - a <= 2 * MAX_COORD,
                -4 * SCALE <= d - c <= 4 * SCALE,
        ;
    }
    let span = b - a;
    let num = (v - a) * (d - c);
    let q = if num >= 0 {
        num / span
    } else {
        -((-num) / span)
    };
    c + q
}

/// The interpolation term of `remap` never leaves the interval spanned by
/// zero and `rise`.
pub proof fn lemma_div_toward_zero_bounds(off: int, rise: int, span: int)
    requires
        0 <= off <= span,
        0 < span,
    ensures
        rise >= 0 ==> 0 <= div_toward_zero(off * rise, span) <= rise,
        rise < 0 ==> rise <= div_toward_zero(off * rise, span) <= 0,
{
    if rise >= 0 {
        let pos = off * rise;
        assert(0 <= pos <= span * rise) by (nonlinear_arith)
            requires
                0 <= off <= span,
                rise >= 0,
                pos == off * rise,
        ;
        assert(pos / span <= (span * rise) / span) by (nonlinear_arith)
            requires
                0 <= pos <= span * rise,
                0 < span,
        ;
        assert((span * rise) / span == rise) by (nonlinear_arith)
            requires
                0 < span,
        ;
        assert(pos / span >= 0) by (nonlinear_arith)
            requires
                0 <= pos,
                0 < span,
        ;
    } else {
        let pos = off * (-rise);
        assert(off * rise == -pos && 0 <= pos <= span * (-rise)) by (nonlinear_arith)
            requires
                0 <= off <= span,
                rise < 0,
                pos == off * (-rise),
        ;
        assert(pos / span <= (span * (-rise)) / span) by (nonlinear_arith)
            requires
                0 <= pos <= span * (-rise),
                0 < span,
        ;
        assert((span * (-rise)) / span == -rise) by (nonlinear_arith)
            requires
                0 < span,
        ;
        assert(pos / span >= 0) by (nonlinear_arith)
            requires
                0 <= pos,
                0 < span,
        ;
        if pos == 0 {
            assert(div_toward_zero(off * rise, span) == 0int / span);
        }
    }
}

} // verus!
