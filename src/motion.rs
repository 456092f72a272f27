//! Movement vectors in fixed point and the per-tick integration step.

use vstd::prelude::*;

verus! {

/// Player speed, in pixels per second.
pub const MOVEMENT_SPEED: u32 = 300;

/// Server integration ticks per second.
pub const SERVER_TICKS_PER_SECOND: u32 = 20;

/// Client input-sampling ticks per second.
pub const CLIENT_TICKS_PER_SECOND: u32 = 60;

/// Positions are stored in thousandths of a pixel.
pub const UNITS_PER_PIXEL: u32 = 1000;

/// Distance covered along one axis in one server tick, in position units.
pub const STEP_PER_TICK: u32 = MOVEMENT_SPEED * UNITS_PER_PIXEL / SERVER_TICKS_PER_SECOND;

/// A raw movement intent: the sum of the held keys along each axis.
#[derive(Clone, Copy, Debug, PartialEq, Eq, Structural)]
pub struct Heading {
    pub x: i8,
    pub y: i8,
}

/// A translation in fixed point (see `UNITS_PER_PIXEL`).
#[derive(Clone, Copy, Debug, PartialEq, Eq, Structural)]
pub struct Position {
    pub x: i64,
    pub y: i64,
    pub z: i64,
}

pub open spec fn is_axis(v: int) -> bool {
    -1 <= v <= 1
}

impl Heading {
    /// Each axis is one of -1, 0 and 1.
    pub open spec fn wf(self) -> bool {
        is_axis(self.x as int) && is_axis(self.y as int)
    }

    /// Both axes are held at once.
    pub open spec fn is_diagonal(self) -> bool {
        self.x != 0 && self.y != 0
    }

    pub fn zero() -> (r: Heading)
        ensures
            r.x == 0 && r.y == 0,
            r.wf(),
    {
        Heading { x: 0, y: 0 }
    }

    /// The heading with the given axes, if each is one of -1, 0 and 1.
    pub fn new(x: i32, y: i32) -> (r: Option<Heading>)
        ensures
            r is Some <==> is_axis(x as int) && is_axis(y as int),
            r matches Some(h) ==> h.x == x && h.y == y && h.wf(),
    {
        if -1 <= x && x <= 1 && -1 <= y && y <= 1 {
            Some(Heading { x: x as i8, y: y as i8 })
        } else {
            None
        }
    }
}

impl Position {
    pub fn origin() -> (r: Position)
        ensures
            r.x == 0 && r.y == 0 && r.z == 0,
    {
        Position { x: 0, y: 0, z: 0 }
    }
}

/// The largest `r` with `r * r <= n`.
pub open spec fn floor_sqrt(n: nat) -> nat
    decreases n,
{
    if n == 0 {
        0
    } else {
        let r = floor_sqrt((n - 1) as nat);
        if (r + 1) * (r + 1) <= n {
            (r + 1) as nat
        } else {
            r
        }
    }
}

/// The length of each axis of a diagonal step of length `step`, rounded down:
/// the largest `r` with `2 * r * r <= step * step`.
pub open spec fn diagonal_of(step: nat) -> nat {
    floor_sqrt(step * step / 2)
}

pub proof fn lemma_floor_sqrt_bounds(n: nat)
    ensures
        floor_sqrt(n) * floor_sqrt(n) <= n < (floor_sqrt(n) + 1) * (floor_sqrt(n) + 1),
    decreases n,
{
    let s = floor_sqrt(n);
    if n > 0 {
        lemma_floor_sqrt_bounds((n - 1) as nat);
        let r = floor_sqrt((n - 1) as nat);
        if (r + 1) * (r + 1) <= n {
            assert(s == r + 1);
            assert(s * s <= n < (s + 1) * (s + 1)) by (nonlinear_arith)
                requires
                    n - 1 < (r + 1) * (r + 1),
                    (r + 1) * (r + 1) <= n,
                    s == r + 1,
            ;
        } else {
            assert(s == r);
            assert(s * s <= n < (s + 1) * (s + 1)) by (nonlinear_arith)
                requires
                    r * r <= n - 1,
                    n < (r + 1) * (r + 1),
                    s == r,
            ;
        }
    } else {
        assert(s == 0);
        assert(s * s <= n < (s + 1) * (s + 1)) by (nonlinear_arith)
            requires s == 0, n == 0;
    }
}

/// Any `r` with `r * r <= n < (r + 1) * (r + 1)` is `floor_sqrt(n)`.
pub proof fn lemma_floor_sqrt_unique(n: nat, r: nat)
    requires
        r * r <= n < (r + 1) * (r + 1),
    ensures
        r == floor_sqrt(n),
{
    lemma_floor_sqrt_bounds(n);
    let s = floor_sqrt(n);
    if r < s {
        assert((r + 1) * (r + 1) <= s * s) by (nonlinear_arith)
            requires r + 1 <= s;
    } else if s < r {
        assert((s + 1) * (s + 1) <= r * r) by (nonlinear_arith)
            requires s + 1 <= r;
    }
}

/// Twice the square of the diagonal component never exceeds the squared step,
/// and one more unit would.
pub proof fn lemma_diagonal_bounds(step: nat)
    ensures
        2 * diagonal_of(step) * diagonal_of(step) <= step * step,
        step * step < 2 * (diagonal_of(step) + 1) * (diagonal_of(step) + 1),
        diagonal_of(step) <= step,
{
    let n = step * step / 2;
    lemma_floor_sqrt_bounds(n);
    let r = diagonal_of(step);
    assert(2 * r * r <= step * step) by (nonlinear_arith)
        requires r * r <= n, n == step * step / 2;
    assert(step * step < 2 * (r + 1) * (r + 1)) by (nonlinear_arith)
        requires n < (r + 1) * (r + 1), n == step * step / 2;
    assert(r <= step) by (nonlinear_arith)
        requires 2 * r * r <= step * step;
}

/// Computes `diagonal_of(step)` by bisection.
pub fn diagonal_step(step: u32) -> (r: u32)
    ensures
        r == diagonal_of(step as nat),
{
    assert((step as u64) * (step as u64) <= 0xffff_ffff * 0xffff_ffff) by (nonlinear_arith)
        requires step <= 0xffff_ffff;
    let n: u64 = (step as u64) * (step as u64) / 2;
    let mut lo: u64 = 0;
    let mut hi: u64 = step as u64 + 1;
    assert(n < hi * hi) by (nonlinear_arith)
        requires n == (step as u64) * (step as u64) / 2, hi == step + 1;
    while lo + 1 < hi
        invariant
            n == (step as u64) * (step as u64) / 2,
            lo < hi <= step as u64 + 1,
            lo * lo <= n < hi * hi,
            (step as u64) * (step as u64) <= 0xffff_ffff * 0xffff_ffff,
        decreases hi - lo,
    {
        let mid: u64 = lo + (hi - lo) / 2;
        assert(mid * mid <= (step as u64) * (step as u64)) by (nonlinear_arith)
            requires mid <= step as u64;
        if mid * mid <= n {
            lo = mid;
        } else {
            hi = mid;
        }
    }
    proof {
        lemma_floor_sqrt_unique(n as nat, lo as nat);
    }
    lo as u32
}

/// `v` held within the range of `i64`.
pub open spec fn clamp_i64(v: int) -> int {
    if v > i64::MAX {
        i64::MAX as int
    } else if v < i64::MIN {
        i64::MIN as int
    } else {
        v
    }
}

/// The displacement of one tick: `step` along each held axis, or the
/// diagonal component along both when both axes are held.
pub open spec fn displacement(h: Heading, step: nat) -> (int, int) {
    if h.is_diagonal() {
        ((h.x as int) * (diagonal_of(step) as int), (h.y as int) * (diagonal_of(step) as int))
    } else {
        ((h.x as int) * (step as int), (h.y as int) * (step as int))
    }
}

/// `p` moved by one tick of `h`; each coordinate saturates at the bounds of `i64`.
pub open spec fn advanced(p: Position, h: Heading, step: nat) -> Position {
    let d = displacement(h, step);
    Position { x: clamp_i64(p.x + d.0) as i64, y: clamp_i64(p.y + d.1) as i64, z: p.z }
}

pub open spec fn square(v: int) -> int {
    v * v
}

fn saturating_shift(v: i64, d: i64) -> (r: i64)
    ensures
        r == clamp_i64(v + d),
{
    if d > 0 && v > i64::MAX - d {
        i64::MAX
    } else if d < 0 && v < i64::MIN - d {
        i64::MIN
    } else {
        v + d
    }
}

fn scaled(a: i8, len: i64) -> (r: i64)
    requires
        is_axis(a as int),
        0 <= len <= u32::MAX,
    ensures
        r == (a as int) * (len as int),
{
    if a > 0 {
        assert((a as int) * (len as int) == len) by (nonlinear_arith)
            requires a == 1;
        len
    } else if a < 0 {
        assert((a as int) * (len as int) == -len) by (nonlinear_arith)
            requires a == -1;
        -len
    } else {
        assert((a as int) * (len as int) == 0) by (nonlinear_arith)
            requires a == 0;
        0
    }
}

/// Moves `p` by one tick of `h`, where a straight step is `step` units and
/// a diagonal one is `diagonal` units along each axis.
pub fn advance(p: Position, h: Heading, step: u32, diagonal: u32) -> (r: Position)
    requires
        h.wf(),
        diagonal == diagonal_of(step as nat),
    ensures
        r == advanced(p, h, step as nat),
{
    let len: i64 = if h.x != 0 && h.y != 0 {
        diagonal as i64
    } else {
        step as i64
    };
    let dx: i64 = scaled(h.x, len);
    let dy: i64 = scaled(h.y, len);
    Position { x: saturating_shift(p.x, dx), y: saturating_shift(p.y, dy), z: p.z }
}

proof fn lemma_clamped_shift(v: int, d: int)
    requires
        i64::MIN <= v <= i64::MAX,
    ensures
        square(clamp_i64(v + d) - v) <= square(d),
{
    let e = clamp_i64(v + d) - v;
    assert(0 <= e <= d || d <= e <= 0);
    assert(e * e <= d * d) by (nonlinear_arith)
        requires 0 <= e <= d || d <= e <= 0;
}

/// One tick never moves a player farther than `step`, also when both axes
/// are held.
pub proof fn lemma_tick_within_step(p: Position, h: Heading, step: nat)
    requires
        h.wf(),
    ensures
        square(advanced(p, h, step).x - p.x) + square(advanced(p, h, step).y - p.y) <= square(
            step as int,
        ),
{
    let d = displacement(h, step);
    lemma_clamped_shift(p.x as int, d.0);
    lemma_clamped_shift(p.y as int, d.1);
    lemma_diagonal_bounds(step);
    let r = diagonal_of(step) as int;
    let st = step as int;
    let x = h.x as int;
    let y = h.y as int;
    if h.is_diagonal() {
        assert(square(d.0) + square(d.1) <= square(st)) by (nonlinear_arith)
            requires
                d.0 == x * r,
                d.1 == y * r,
                x == 1 || x == -1,
                y == 1 || y == -1,
                2 * r * r <= st * st,
        ;
    } else {
        assert(square(d.0) + square(d.1) <= square(st)) by (nonlinear_arith)
            requires
                d.0 == x * st,
                d.1 == y * st,
                -1 <= x <= 1,
                -1 <= y <= 1,
                x == 0 || y == 0,
        ;
    }
}

} // verus!
