//! A 2-component vector with the usual componentwise arithmetic.
//!
//! The struct itself is generic; the arithmetic is provided per element type
//! (signed and unsigned 32-bit), each operation with an exact contract over
//! the unbounded-integer model `Vec2<int>`. Laws such as associativity and
//! commutativity of vector addition and symmetry of the dot product are
//! stated and proved over that model, where they hold without any overflow
//! caveat.

use vstd::prelude::*;

verus! {

/// Marker for element types that carry the componentwise arithmetic.
pub trait Number: Copy {
}

impl Number for i32 {
}

impl Number for u32 {
}

/// 2D vector with generic numeric components.
#[derive(Copy, Clone, Debug, PartialEq, Eq, Structural)]
pub struct Vec2<T> {
    pub x: T,
    pub y: T,
}

/// Magnitude of an integer.
pub open spec fn iabs(a: int) -> int {
    if a < 0 {
        -a
    } else {
        a
    }
}

/// Division rounding toward zero, as the hardware's signed division does.
pub open spec fn div_trunc(a: int, b: int) -> int {
    if (a < 0) == (b < 0) {
        iabs(a) / iabs(b)
    } else {
        -(iabs(a) / iabs(b))
    }
}

/// The integer model of a signed 32-bit vector.
pub open spec fn v2i(v: Vec2<i32>) -> Vec2<int> {
    Vec2 { x: v.x as int, y: v.y as int }
}

/// The integer model of an unsigned 32-bit vector.
pub open spec fn v2u(v: Vec2<u32>) -> Vec2<int> {
    Vec2 { x: v.x as int, y: v.y as int }
}

/// Componentwise sum over the integer model.
pub open spec fn vadd(a: Vec2<int>, b: Vec2<int>) -> Vec2<int> {
    Vec2 { x: a.x + b.x, y: a.y + b.y }
}

/// Componentwise difference over the integer model.
pub open spec fn vsub(a: Vec2<int>, b: Vec2<int>) -> Vec2<int> {
    Vec2 { x: a.x - b.x, y: a.y - b.y }
}

/// Scalar scaling over the integer model.
pub open spec fn vscale(a: Vec2<int>, s: int) -> Vec2<int> {
    Vec2 { x: a.x * s, y: a.y * s }
}

/// Both components equal to `n`.
pub open spec fn vsplat(n: int) -> Vec2<int> {
    Vec2 { x: n, y: n }
}

/// Dot product over the integer model.
pub open spec fn vdot(a: Vec2<int>, b: Vec2<int>) -> int {
    a.x * b.x + a.y * b.y
}

/// What `cross` computes, over the integer model. Note: this is
/// `a.x * b.y - b.x * b.y`, which is not the conventional 2D cross product
/// `a.x * b.y - a.y * b.x`; the formula is kept as the library has always
/// shipped it, so callers that depend on it keep their behaviour.
pub open spec fn vcross(a: Vec2<int>, b: Vec2<int>) -> int {
    a.x * b.y - b.x * b.y
}

impl<T: Number> Vec2<T> {
    pub fn new(x: T, y: T) -> (r: Self)
        ensures
            r.x == x,
            r.y == y,
    {
        Vec2 { x, y }
    }

    pub fn splat(n: T) -> (r: Self)
        ensures
            r.x == n,
            r.y == n,
    {
        Vec2 { x: n, y: n }
    }
}

impl Vec2<i32> {
    pub fn dot(&self, rhs: Self) -> (r: i32)
        requires
            i32::MIN <= self.x * rhs.x <= i32::MAX,
            i32::MIN <= self.y * rhs.y <= i32::MAX,
            i32::MIN <= self.x * rhs.x + self.y * rhs.y <= i32::MAX,
        ensures
            r == vdot(v2i(*self), v2i(rhs)),
    {
        self.x * rhs.x + self.y * rhs.y
    }

    /// See `vcross` for the exact (unconventional) formula this computes.
    pub fn cross(self, rhs: Self) -> (r: i32)
        requires
            i32::MIN <= self.x * rhs.y <= i32::MAX,
            i32::MIN <= rhs.x * rhs.y <= i32::MAX,
            i32::MIN <= self.x * rhs.y - rhs.x * rhs.y <= i32::MAX,
        ensures
            r == vcross(v2i(self), v2i(rhs)),
    {
        self.x * rhs.y - rhs.x * rhs.y
    }

    pub fn add(self, rhs: Self) -> (r: Self)
        requires
            i32::MIN <= self.x + rhs.x <= i32::MAX,
            i32::MIN <= self.y + rhs.y <= i32::MAX,
        ensures
            v2i(r) == vadd(v2i(self), v2i(rhs)),
    {
        Vec2 { x: self.x + rhs.x, y: self.y + rhs.y }
    }

    pub fn add_assign(&mut self, rhs: Self)
        requires
            i32::MIN <= old(self).x + rhs.x <= i32::MAX,
            i32::MIN <= old(self).y + rhs.y <= i32::MAX,
        ensures
            v2i(*final(self)) == vadd(v2i(*old(self)), v2i(rhs)),
    {
        self.x = self.x + rhs.x;
        self.y = self.y + rhs.y;
    }

    pub fn sub(self, rhs: Self) -> (r: Self)
        requires
            i32::MIN <= self.x - rhs.x <= i32::MAX,
            i32::MIN <= self.y - rhs.y <= i32::MAX,
        ensures
            v2i(r) == vsub(v2i(self), v2i(rhs)),
    {
        Vec2 { x: self.x - rhs.x, y: self.y - rhs.y }
    }

    pub fn sub_assign(&mut self, rhs: Self)
        requires
            i32::MIN <= old(self).x - rhs.x <= i32::MAX,
            i32::MIN <= old(self).y - rhs.y <= i32::MAX,
        ensures
            v2i(*final(self)) == vsub(v2i(*old(self)), v2i(rhs)),
    {
        self.x = self.x - rhs.x;
        self.y = self.y - rhs.y;
    }

    pub fn mul(self, rhs: i32) -> (r: Self)
        requires
            i32::MIN <= self.x * rhs <= i32::MAX,
            i32::MIN <= self.y * rhs <= i32::MAX,
        ensures
            v2i(r) == vscale(v2i(self), rhs as int),
    {
        Vec2 { x: self.x * rhs, y: self.y * rhs }
    }

    pub fn mul_assign(&mut self, rhs: i32)
        requires
            i32::MIN <= old(self).x * rhs <= i32::MAX,
            i32::MIN <= old(self).y * rhs <= i32::MAX,
        ensures
            v2i(*final(self)) == vscale(v2i(*old(self)), rhs as int),
    {
        self.x = self.x * rhs;
        self.y = self.y * rhs;
    }
}

/// Signed division rounding toward zero, computed on magnitudes so the
/// quotient is pinned exactly.
fn div_i32(a: i32, b: i32) -> (r: i32)
    requires
        b != 0,
        !(a == i32::MIN && b == -1),
    ensures
        r == div_trunc(a as int, b as int),
{
    let neg: bool = (a < 0) != (b < 0);
    let ua: u32 = if a < 0 {
        (-(a as i64)) as u32
    } else {
        a as u32
    };
    let ub: u32 = if b < 0 {
        (-(b as i64)) as u32
    } else {
        b as u32
    };
    let q: u32 = ua / ub;
    proof {
        assert(ua == iabs(a as int));
        assert(ub == iabs(b as int));
    }
    if q == 0x8000_0000u32 {
        // reached only for the minimum value divided by one
        proof {
            vstd::arithmetic::div_mod::lemma_fundamental_div_mod(ua as int, ub as int);
            vstd::arithmetic::div_mod::lemma_mod_bound(ua as int, ub as int);
            assert(ub == 1) by (nonlinear_arith)
                requires
                    ua as int == ub as int * ((ua as int) / (ub as int)) + (ua as int) % (
                    ub as int),
                    (ua as int) % (ub as int) >= 0,
                    (ua as int) / (ub as int) == 0x8000_0000,
                    ua as int <= 0x8000_0000,
                    ub as int >= 1,
            ;
            assert(ua == 0x8000_0000);
            assert(a == i32::MIN && b == 1);
        }
        i32::MIN
    } else if neg {
        -(q as i32)
    } else {
        q as i32
    }
}

impl Vec2<i32> {
    pub fn div(self, rhs: i32) -> (r: Self)
        requires
            rhs != 0,
            !(self.x == i32::MIN && rhs == -1),
            !(self.y == i32::MIN && rhs == -1),
        ensures
            r.x == div_trunc(self.x as int, rhs as int),
            r.y == div_trunc(self.y as int, rhs as int),
    {
        Vec2 { x: div_i32(self.x, rhs), y: div_i32(self.y, rhs) }
    }

    pub fn div_assign(&mut self, rhs: i32)
        requires
            rhs != 0,
            !(old(self).x == i32::MIN && rhs == -1),
            !(old(self).y == i32::MIN && rhs == -1),
        ensures
            final(self).x == div_trunc(old(self).x as int, rhs as int),
            final(self).y == div_trunc(old(self).y as int, rhs as int),
    {
        self.x = div_i32(self.x, rhs);
        self.y = div_i32(self.y, rhs);
    }
}

impl Vec2<u32> {
    pub fn dot(&self, rhs: Self) -> (r: u32)
        requires
            self.x * rhs.x <= u32::MAX,
            self.y * rhs.y <= u32::MAX,
            self.x * rhs.x + self.y * rhs.y <= u32::MAX,
        ensures
            r == vdot(v2u(*self), v2u(rhs)),
    {
        self.x * rhs.x + self.y * rhs.y
    }

    /// See `vcross` for the exact (unconventional) formula this computes.
    pub fn cross(self, rhs: Self) -> (r: u32)
        requires
            self.x * rhs.y <= u32::MAX,
            rhs.x * rhs.y <= self.x * rhs.y,
        ensures
            r == vcross(v2u(self), v2u(rhs)),
    {
        self.x * rhs.y - rhs.x * rhs.y
    }

    pub fn add(self, rhs: Self) -> (r: Self)
        requires
            self.x + rhs.x <= u32::MAX,
            self.y + rhs.y <= u32::MAX,
        ensures
            v2u(r) == vadd(v2u(self), v2u(rhs)),
    {
        Vec2 { x: self.x + rhs.x, y: self.y + rhs.y }
    }

    pub fn add_assign(&mut self, rhs: Self)
        requires
            old(self).x + rhs.x <= u32::MAX,
            old(self).y + rhs.y <= u32::MAX,
        ensures
            v2u(*final(self)) == vadd(v2u(*old(self)), v2u(rhs)),
    {
        self.x = self.x + rhs.x;
        self.y = self.y + rhs.y;
    }

    pub fn sub(self, rhs: Self) -> (r: Self)
        requires
            rhs.x <= self.x,
            rhs.y <= self.y,
        ensures
            v2u(r) == vsub(v2u(self), v2u(rhs)),
    {
        Vec2 { x: self.x - rhs.x, y: self.y - rhs.y }
    }

    pub fn sub_assign(&mut self, rhs: Self)
        requires
            rhs.x <= old(self).x,
            rhs.y <= old(self).y,
        ensures
            v2u(*final(self)) == vsub(v2u(*old(self)), v2u(rhs)),
    {
        self.x = self.x - rhs.x;
        self.y = self.y - rhs.y;
    }

    pub fn mul(self, rhs: u32) -> (r: Self)
        requires
            self.x * rhs <= u32::MAX,
            self.y * rhs <= u32::MAX,
        ensures
            v2u(r) == vscale(v2u(self), rhs as int),
    {
        Vec2 { x: self.x * rhs, y: self.y * rhs }
    }

    pub fn mul_assign(&mut self, rhs: u32)
        requires
            old(self).x * rhs <= u32::MAX,
            old(self).y * rhs <= u32::MAX,
        ensures
            v2u(*final(self)) == vscale(v2u(*old(self)), rhs as int),
    {
        self.x = self.x * rhs;
        self.y = self.y * rhs;
    }

    pub fn div(self, rhs: u32) -> (r: Self)
        requires
            rhs != 0,
        ensures
            r.x == self.x as int / rhs as int,
            r.y == self.y as int / rhs as int,
    {
        Vec2 { x: self.x / rhs, y: self.y / rhs }
    }

    pub fn div_assign(&mut self, rhs: u32)
        requires
            rhs != 0,
        ensures
            final(self).x == old(self).x as int / rhs as int,
            final(self).y == old(self).y as int / rhs as int,
    {
        self.x = self.x / rhs;
        self.y = self.y / rhs;
    }
}

/// Law: vector addition is associative over the integer model.
pub proof fn lemma_add_assoc(a: Vec2<int>, b: Vec2<int>, c: Vec2<int>)
    ensures
        vadd(vadd(a, b), c) == vadd(a, vadd(b, c)),
{
}

/// Law: vector addition is commutative over the integer model.
pub proof fn lemma_add_comm(a: Vec2<int>, b: Vec2<int>)
    ensures
        vadd(a, b) == vadd(b, a),
{
}

/// Law: the zero vector is an identity for vector addition.
pub proof fn lemma_add_identity(a: Vec2<int>)
    ensures
        vadd(a, vsplat(0)) == a,
{
}

/// Law: the dot product is symmetric.
pub proof fn lemma_dot_symmetry(a: Vec2<int>, b: Vec2<int>)
    ensures
        vdot(a, b) == vdot(b, a),
{
}

} // verus!
