//! Integer 2D coordinates with vector arithmetic and Euclidean-distance
//! helpers.
//!
//! Distances are reported as the floor of the Euclidean norm, so that all
//! geometry stays within integer arithmetic.

use vstd::prelude::*;

verus! {

/// A lattice point with non-negative components.
#[derive(Clone, Copy, Debug, PartialEq, Eq, Structural)]
pub struct Coord {
    pub x: usize,
    pub y: usize,
}

/// The floor of the square root of `n`: the largest `r` with `r * r <= n`.
pub open spec fn sqrt_floor(n: nat) -> nat
    decreases n,
{
    if n == 0 {
        0
    } else {
        let s = sqrt_floor((n - 1) as nat);
        if (s + 1) * (s + 1) <= n {
            s + 1
        } else {
            s
        }
    }
}

/// `sqrt_floor` is exactly the integer square root: its square is at most
/// `n`, and the next square is beyond `n`.
pub proof fn lemma_sqrt_floor_bounds(n: nat)
    ensures
        sqrt_floor(n) as int * sqrt_floor(n) as int <= n as int,
        (n as int) < (sqrt_floor(n) as int + 1) * (sqrt_floor(n) as int + 1),
    decreases n,
{
    if n > 0 {
        lemma_sqrt_floor_bounds((n - 1) as nat);
        let s = sqrt_floor((n - 1) as nat);
        assert(sqrt_floor(n) == if (s + 1) * (s + 1) <= n {
            s + 1
        } else {
            s
        });
        if (s + 1) * (s + 1) <= n {
            assert(sqrt_floor(n) as int * sqrt_floor(n) as int <= n as int && (n as int) < (
            sqrt_floor(n) as int + 1) * (sqrt_floor(n) as int + 1)) by (nonlinear_arith)
                requires
                    sqrt_floor(n) == s + 1,
                    (s + 1) * (s + 1) <= n,
                    n - 1 < (s as int + 1) * (s as int + 1),
            ;
        } else {
            assert(sqrt_floor(n) as int * sqrt_floor(n) as int <= n as int && (n as int) < (
            sqrt_floor(n) as int + 1) * (sqrt_floor(n) as int + 1)) by (nonlinear_arith)
                requires
                    sqrt_floor(n) == s,
                    s as int * s as int <= n - 1,
                    !((s + 1) * (s + 1) <= n),
                    n >= 1,
            ;
        }
    } else {
        assert(sqrt_floor(0) == 0);
    }
}

/// Any `r` whose square brackets `n` is the integer square root of `n`.
pub proof fn lemma_sqrt_floor_unique(n: nat, r: nat)
    requires
        r * r <= n,
        n < (r + 1) * (r + 1),
    ensures
        r == sqrt_floor(n),
{
    let s = sqrt_floor(n);
    lemma_sqrt_floor_bounds(n);
    if r < s {
        assert((r + 1) * (r + 1) <= s * s) by (nonlinear_arith)
            requires
                r + 1 <= s,
        ;
    }
    if s < r {
        assert((s + 1) * (s + 1) <= r * r) by (nonlinear_arith)
            requires
                s + 1 <= r,
        ;
    }
}

/// The integer square root is monotone in its argument.
pub proof fn lemma_sqrt_floor_le(m: nat, n: nat)
    requires
        m <= n,
    ensures
        sqrt_floor(m) <= sqrt_floor(n),
{
    lemma_sqrt_floor_bounds(m);
    lemma_sqrt_floor_bounds(n);
    if sqrt_floor(n) < sqrt_floor(m) {
        assert((sqrt_floor(n) + 1) * (sqrt_floor(n) + 1) <= sqrt_floor(m) * sqrt_floor(m))
            by (nonlinear_arith)
            requires
                sqrt_floor(n) + 1 <= sqrt_floor(m),
        ;
    }
}

/// Absolute difference of two integers.
pub open spec fn abs_diff(a: int, b: int) -> int {
    if a >= b {
        a - b
    } else {
        b - a
    }
}

/// The squared Euclidean distance between two coordinates.
pub open spec fn dist_sq(a: Coord, b: Coord) -> int {
    abs_diff(a.x as int, b.x as int) * abs_diff(a.x as int, b.x as int) + abs_diff(
        a.y as int,
        b.y as int,
    ) * abs_diff(a.y as int, b.y as int)
}

/// The Euclidean distance between two coordinates, rounded down.
pub open spec fn spec_dist(a: Coord, b: Coord) -> nat {
    sqrt_floor(dist_sq(a, b) as nat)
}

/// A perfect square's integer square root is its root.
pub proof fn lemma_sqrt_floor_square(s: nat)
    ensures
        sqrt_floor((s * s) as nat) == s,
{
    assert(s * s >= 0 && s * s < (s + 1) * (s + 1)) by (nonlinear_arith);
    lemma_sqrt_floor_unique((s * s) as nat, s);
}

/// The rounded Euclidean distance never exceeds the taxicab distance.
pub proof fn lemma_dist_le_sum(a: Coord, b: Coord)
    ensures
        spec_dist(a, b) <= abs_diff(a.x as int, b.x as int) + abs_diff(a.y as int, b.y as int),
{
    let dx = abs_diff(a.x as int, b.x as int);
    let dy = abs_diff(a.y as int, b.y as int);
    let q = dist_sq(a, b);
    assert(q == dx * dx + dy * dy);
    assert(q >= 0 && q <= (dx + dy) * (dx + dy)) by (nonlinear_arith)
        requires
            q == dx * dx + dy * dy,
            dx >= 0,
            dy >= 0,
    ;
    lemma_sqrt_floor_le(q as nat, ((dx + dy) * (dx + dy)) as nat);
    lemma_sqrt_floor_square((dx + dy) as nat);
    assert(((dx + dy) as nat * (dx + dy) as nat) as nat == ((dx + dy) * (dx + dy)) as nat);
}

/// The rounded distance is zero exactly for coincident coordinates.
pub proof fn lemma_dist_zero_iff(a: Coord, b: Coord)
    ensures
        spec_dist(a, b) == 0 <==> a == b,
{
    let dx = abs_diff(a.x as int, b.x as int);
    let dy = abs_diff(a.y as int, b.y as int);
    let q = dist_sq(a, b);
    if a == b {
        assert(dx == 0 && dy == 0);
        assert(q == 0) by (nonlinear_arith)
            requires
                q == dx * dx + dy * dy,
                dx == 0,
                dy == 0,
        ;
        assert(sqrt_floor(0) == 0);
        assert(spec_dist(a, b) == sqrt_floor(dist_sq(a, b) as nat));
        assert(dist_sq(a, b) as nat == 0);
        assert(spec_dist(a, b) == 0);
    } else {
        assert(dx + dy >= 1);
        assert(q >= 1) by (nonlinear_arith)
            requires
                q == dx * dx + dy * dy,
                dx >= 0,
                dy >= 0,
                dx + dy >= 1,
        ;
        lemma_sqrt_floor_bounds(q as nat);
        if sqrt_floor(q as nat) == 0 {
            assert(q < (0 + 1) * (0 + 1));
        }
        assert(spec_dist(a, b) != 0);
    }
}

/// Executable integer square root by binary search.
fn isqrt_u128(n: u128) -> (r: u128)
    ensures
        r == sqrt_floor(n as nat),
{
    let mut lo: u128 = 0;
    let mut hi: u128 = 0xFFFF_FFFF_FFFF_FFFF;
    proof {
        assert(n < (0xFFFF_FFFF_FFFF_FFFFu128 + 1) * (0xFFFF_FFFF_FFFF_FFFFu128 + 1))
            by (nonlinear_arith)
            requires
                n <= u128::MAX,
        ;
    }
    while lo < hi
        invariant
            lo <= hi <= 0xFFFF_FFFF_FFFF_FFFF,
            lo * lo <= n,
            n < (hi + 1) * (hi + 1),
        decreases hi - lo,
    {
        let mid: u128 = lo + (hi - lo + 1) / 2;
        proof {
            assert(mid * mid <= 0xFFFF_FFFF_FFFF_FFFFu128 * 0xFFFF_FFFF_FFFF_FFFFu128)
                by (nonlinear_arith)
                requires
                    mid <= 0xFFFF_FFFF_FFFF_FFFF,
            ;
        }
        if mid * mid <= n {
            lo = mid;
        } else {
            hi = mid - 1;
        }
    }
    proof {
        lemma_sqrt_floor_unique(n as nat, lo as nat);
    }
    lo
}

impl Coord {
    pub fn new(x: usize, y: usize) -> (c: Coord)
        ensures
            c == (Coord { x, y }),
    {
        Coord { x, y }
    }

    /// The Euclidean norm of `(x, y)` as a vector from the origin, rounded
    /// down to an integer.
    pub fn abs(&self) -> (d: usize)
        requires
            self.x + self.y <= usize::MAX,
        ensures
            d == spec_dist(*self, Coord { x: 0, y: 0 }),
    {
        self.distance(Coord { x: 0, y: 0 })
    }

    /// The Euclidean distance between two coordinates, rounded down. The
    /// absolute value of the per-axis differences is taken first, so the
    /// subtraction cannot underflow.
    pub fn distance(&self, rhs: Coord) -> (d: usize)
        requires
            abs_diff(self.x as int, rhs.x as int) + abs_diff(self.y as int, rhs.y as int)
                <= usize::MAX,
        ensures
            d == spec_dist(*self, rhs),
    {
        let dx: usize = if self.x >= rhs.x {
            self.x - rhs.x
        } else {
            rhs.x - self.x
        };
        let dy: usize = if self.y >= rhs.y {
            self.y - rhs.y
        } else {
            rhs.y - self.y
        };
        proof {
            assert(dx as int * dx as int + dy as int * dy as int <= (dx + dy) * (dx + dy)
                <= usize::MAX as int * usize::MAX as int) by (nonlinear_arith)
                requires
                    dx + dy <= usize::MAX,
            ;
        }
        let sq: u128 = dx as u128 * dx as u128 + dy as u128 * dy as u128;
        let r: u128 = isqrt_u128(sq);
        proof {
            lemma_sqrt_floor_bounds(sq as nat);
            assert(r <= dx + dy) by (nonlinear_arith)
                requires
                    r as int * r as int <= (dx + dy) * (dx + dy),
                    r >= 0,
                    dx >= 0,
                    dy >= 0,
            ;
        }
        r as usize
    }

    /// Component-wise addition.
    pub fn add(self, rhs: Coord) -> (c: Coord)
        requires
            self.x + rhs.x <= usize::MAX,
            self.y + rhs.y <= usize::MAX,
        ensures
            c.x == self.x + rhs.x,
            c.y == self.y + rhs.y,
    {
        Coord { x: self.x + rhs.x, y: self.y + rhs.y }
    }

    /// Component-wise subtraction. A subtraction that would go negative is a
    /// caller error and is ruled out here.
    pub fn sub(self, rhs: Coord) -> (c: Coord)
        requires
            rhs.x <= self.x,
            rhs.y <= self.y,
        ensures
            c.x == self.x - rhs.x,
            c.y == self.y - rhs.y,
    {
        Coord { x: self.x - rhs.x, y: self.y - rhs.y }
    }
}

} // verus!
