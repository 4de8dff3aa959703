//! Integer vectors and rectangles, and powers of two.

use vstd::prelude::*;

verus! {

/// A two-component integer vector.
#[derive(Clone, Copy, Debug, PartialEq, Eq, Structural)]
pub struct Vector2I {
    pub x: i32,
    pub y: i32,
}

/// An integer rectangle: its upper-left corner and its size.
#[derive(Clone, Copy, Debug, PartialEq, Eq, Structural)]
pub struct RectI {
    pub origin: Vector2I,
    pub size: Vector2I,
}

impl Vector2I {
    pub fn new(x: i32, y: i32) -> (r: Vector2I)
        ensures
            r.x == x,
            r.y == y,
    {
        Vector2I { x, y }
    }

    pub fn splat(v: i32) -> (r: Vector2I)
        ensures
            r.x == v,
            r.y == v,
    {
        Vector2I { x: v, y: v }
    }

    pub fn zero() -> (r: Vector2I)
        ensures
            r.x == 0,
            r.y == 0,
    {
        Vector2I { x: 0, y: 0 }
    }
}

impl RectI {
    pub fn new(origin: Vector2I, size: Vector2I) -> (r: RectI)
        ensures
            r.origin == origin,
            r.size == size,
    {
        RectI { origin, size }
    }
}

/// Whether `n` is a positive power of two.
pub open spec fn is_pow2(n: int) -> bool
    decreases n,
{
    if n <= 0 {
        false
    } else if n == 1 {
        true
    } else {
        n % 2 == 0 && is_pow2(n / 2)
    }
}

/// Whether `p` is the least power of two that is at least `n`.
pub open spec fn is_next_pow2(n: int, p: int) -> bool {
    &&& is_pow2(p)
    &&& n <= p
    &&& (p == 1 || p / 2 < n)
}

/// Of two powers of two, the smaller divides the larger, and one that is
/// strictly smaller is at most half of the larger.
pub proof fn lemma_pow2_divides(a: int, b: int)
    requires
        is_pow2(a),
        is_pow2(b),
        a <= b,
    ensures
        b % a == 0,
        a < b ==> a <= b / 2 && (b / 2) % a == 0,
    decreases b,
{
    if a == b {
        vstd::arithmetic::div_mod::lemma_mod_self_0(b);
    } else {
        assert(b >= 2 && b % 2 == 0 && is_pow2(b / 2));
        if a > b / 2 {
            if a == 1 {
                assert(false);
            } else {
                assert(a % 2 == 0 && is_pow2(a / 2));
                lemma_pow2_divides(a / 2, b / 2);
                assert(false);
            }
        }
        lemma_pow2_divides(a, b / 2);
        let k = (b / 2) / a;
        vstd::arithmetic::div_mod::lemma_fundamental_div_mod(b / 2, a);
        assert(b % a == 0) by (nonlinear_arith)
            requires
                b == 2 * (b / 2),
                b / 2 == a * k + (b / 2) % a,
                (b / 2) % a == 0,
                a > 0,
        {
            assert(b == (2 * k) * a);
        }
    }
}

/// The powers of two from `p` upwards, doubling, up to the first that is at
/// least `n`.
pub open spec fn pow2_from(n: int, p: int) -> int
    decreases (if n > p { n - p } else { 0 }),
{
    if p >= n || p <= 0 {
        p
    } else {
        pow2_from(n, 2 * p)
    }
}

/// The least power of two that is at least `n` (one for zero).
pub open spec fn next_pow2(n: int) -> int {
    pow2_from(n, 1)
}

/// `next_pow2` is the least power of two at or above its argument.
pub proof fn lemma_next_pow2(n: int)
    ensures
        is_next_pow2(n, next_pow2(n)),
{
    lemma_pow2_from(n, 1);
}

proof fn lemma_pow2_from(n: int, p: int)
    requires
        is_pow2(p),
        p == 1 || p / 2 < n,
    ensures
        is_next_pow2(n, pow2_from(n, p)),
    decreases (if n > p { n - p } else { 0 }),
{
    if p < n {
        assert((2 * p) / 2 == p);
        lemma_pow2_from(n, 2 * p);
    }
}

/// The least power of two that is at least `n` (one for zero).
pub fn next_power_of_two(n: u32) -> (r: u32)
    requires
        n <= 0x8000_0000,
    ensures
        r == next_pow2(n as int),
        is_next_pow2(n as int, r as int),
{
    proof {
        lemma_next_pow2(n as int);
    }
    let mut p: u32 = 1;
    while p < n
        invariant
            is_pow2(p as int),
            p == 1 || p / 2 < n,
            n <= 0x8000_0000,
            pow2_from(n as int, p as int) == next_pow2(n as int),
        decreases 0x1_0000_0000 - p as int,
    {
        assert(is_pow2(2 * p as int)) by {
            assert((2 * p as int) / 2 == p as int);
        }
        p = p * 2;
    }
    p
}

} // verus!
