//! Vectors, rays and spheres in fixed-point arithmetic.
//!
//! `Vector3` is used interchangeably as point, direction and RGB color, as
//! in any small path tracer.  Its mathematical model is `V3`, a triple of
//! unbounded integers (the stored scalars); every operation's contract is an
//! exact equation over that model.

use vstd::prelude::*;

use crate::fixed::{
    dt, fdiv, fmul, fsqrt, fx_div, fx_mul, isqrt, lemma_dt_exact, lemma_dt_ge, lemma_dt_le,
    lemma_dt_neg, lemma_dt_range, lemma_fmul_bound, lemma_mul_le, lemma_sqrt_floor,
    lemma_sqrt_unique, sqrt_floor, FX_DIV_LIM, FX_LIM, FX_ONE,
};

verus! {

/// Largest magnitude accepted for scene coordinates: sphere centers, radii,
/// camera parameters and initial ray origins.
pub const COORD_LIM: i128 = 268435456;

/// Largest magnitude accepted for the components of a vector that is
/// normalized, reflected or refracted.
pub const VEC_LIM: i128 = 274877906944;

/// Largest magnitude accepted for the components of dot-product operands.
pub const DOT_LIM: i128 = 4503599627370496;

/// Largest ray-origin magnitude the intersection routines accept; bounced
/// rays stay below it for the whole depth budget of the integrator.
pub const ORG_MAX: i128 = 219311767552;

/// Stand-in for an unbounded ray parameter: the far limit of every
/// intersection query.
pub const T_FAR: i128 = 4294967296;

/// Magnitude bound on the normal a sphere intersection can report: the
/// farthest representable hit point rescaled by the smallest positive
/// radius.
pub const NORMAL_LIM: i128 = 14671883161042944;

/// The mathematical model of a `Vector3`: its three scalars, unbounded.
pub struct V3 {
    pub x: int,
    pub y: int,
    pub z: int,
}

/// All three components lie within `m` in magnitude.
pub open spec fn bounded3(v: V3, m: int) -> bool {
    &&& -m <= v.x <= m
    &&& -m <= v.y <= m
    &&& -m <= v.z <= m
}

/// The unscaled sum of squared components, `65536^2` times the squared
/// euclidean length of the value.
pub open spec fn rsq(v: V3) -> int {
    v.x * v.x + v.y * v.y + v.z * v.z
}

pub open spec fn v_add(a: V3, b: V3) -> V3 {
    V3 { x: a.x + b.x, y: a.y + b.y, z: a.z + b.z }
}

pub open spec fn v_sub(a: V3, b: V3) -> V3 {
    V3 { x: a.x - b.x, y: a.y - b.y, z: a.z - b.z }
}

pub open spec fn v_neg(a: V3) -> V3 {
    V3 { x: -a.x, y: -a.y, z: -a.z }
}

/// Component-wise fixed-point product.
pub open spec fn v_mul(a: V3, b: V3) -> V3 {
    V3 { x: fmul(a.x, b.x), y: fmul(a.y, b.y), z: fmul(a.z, b.z) }
}

/// Fixed-point product with the scalar `k`.
pub open spec fn v_scale(a: V3, k: int) -> V3 {
    V3 { x: fmul(a.x, k), y: fmul(a.y, k), z: fmul(a.z, k) }
}

/// Fixed-point quotient by the scalar `k`.
pub open spec fn v_div(a: V3, k: int) -> V3 {
    V3 { x: fdiv(a.x, k), y: fdiv(a.y, k), z: fdiv(a.z, k) }
}

/// Fixed-point dot product.
pub open spec fn v_dot(a: V3, b: V3) -> int {
    dt(a.x * b.x + a.y * b.y + a.z * b.z, FX_ONE as int)
}

/// Fixed-point cross product.
pub open spec fn v_cross(a: V3, b: V3) -> V3 {
    V3 {
        x: fmul(a.y, b.z) - fmul(a.z, b.y),
        y: fmul(a.z, b.x) - fmul(a.x, b.z),
        z: fmul(a.x, b.y) - fmul(a.y, b.x),
    }
}

/// Fixed-point squared length.
pub open spec fn v_sq_len(a: V3) -> int {
    dt(rsq(a), FX_ONE as int)
}

/// Fixed-point length: the floor of the square root of the raw square sum.
pub open spec fn v_len(a: V3) -> int {
    sqrt_floor(rsq(a))
}

/// The normalization of `a`: each component rescaled by the length.
pub open spec fn v_normalized(a: V3) -> V3 {
    v_div(a, v_len(a))
}

/// Reflection of `v` about the normal `n`.
pub open spec fn v_reflect(v: V3, n: V3) -> V3 {
    let d = v_dot(v, n);
    V3 { x: v.x - 2 * fmul(n.x, d), y: v.y - 2 * fmul(n.y, d), z: v.z - 2 * fmul(n.z, d) }
}

/// Refraction of `v` through a surface with normal `n` and refraction ratio
/// `ratio`; `None` exactly when the discriminant is negative — total
/// internal reflection.  At a discriminant of zero the ray still
/// refracts, along the well-defined tangent direction.
pub open spec fn v_refract(v: V3, n: V3, ratio: int) -> Option<V3> {
    let uv = v_normalized(v);
    let d = v_dot(uv, n);
    let disc = FX_ONE - fmul(fmul(ratio, ratio), FX_ONE - fmul(d, d));
    if disc >= 0 {
        Some(v_sub(v_scale(v_sub(uv, v_scale(n, d)), ratio), v_scale(n, fsqrt(disc))))
    } else {
        None
    }
}

/// Some component differs from zero.
pub open spec fn nonzero3(v: V3) -> bool {
    !(v.x == 0 && v.y == 0 && v.z == 0)
}

/// The components all lie in `[0, FX_ONE]`: a color in linear RGB space.
pub open spec fn in_unit_box(v: V3) -> bool {
    &&& 0 <= v.x <= FX_ONE
    &&& 0 <= v.y <= FX_ONE
    &&& 0 <= v.z <= FX_ONE
}

/// What normalization guarantees: components within one, and a square sum
/// that cannot collapse.  Every ray direction satisfies it.
pub open spec fn unit_dir(d: V3) -> bool {
    &&& bounded3(d, FX_ONE as int)
    &&& rsq(d) >= 1073741824
}

/// A surface normal fit for shading: unit-scale within a small rounding
/// band.  Exact arithmetic always yields a unit normal; the band absorbs
/// the fixed-point rounding of the intersection computation.  The
/// integrator treats a record whose normal leaves the band as absorbed.
pub open spec fn norm_ok(n: V3) -> bool {
    &&& bounded3(n, 2 * (FX_ONE as int))
    &&& FX_ONE * FX_ONE - 268435456 <= rsq(n) <= FX_ONE * FX_ONE + 268435456
}

/// A nonzero integer vector has a square sum of at least one.
pub proof fn lemma_nonzero_rsq(v: V3)
    requires
        nonzero3(v),
    ensures
        1 <= rsq(v),
{
    assert(0 <= v.x * v.x && 0 <= v.y * v.y && 0 <= v.z * v.z) by (nonlinear_arith);
    if v.x != 0 {
        assert(1 <= v.x * v.x) by (nonlinear_arith)
            requires
                v.x != 0,
        ;
    } else if v.y != 0 {
        assert(1 <= v.y * v.y) by (nonlinear_arith)
            requires
                v.y != 0,
        ;
    } else {
        assert(1 <= v.z * v.z) by (nonlinear_arith)
            requires
                v.z != 0,
        ;
    }
}

/// Bounds on a vector and a scalar bound their fixed-point product: any `m`
/// with `la * lk <= m * FX_ONE` bounds every component.
pub proof fn lemma_scale_bound(a: V3, k: int, la: int, lk: int, m: int)
    requires
        0 <= la,
        0 <= lk,
        0 <= m,
        bounded3(a, la),
        -lk <= k <= lk,
        la * lk <= m * FX_ONE,
    ensures
        bounded3(v_scale(a, k), m),
{
    lemma_fmul_bound(a.x, k, la, lk, m);
    lemma_fmul_bound(a.y, k, la, lk, m);
    lemma_fmul_bound(a.z, k, la, lk, m);
}

/// Bounds on two vectors bound their fixed-point dot product: any `md` with
/// `3 * (m * m) <= md * FX_ONE` bounds it.
pub proof fn lemma_dot_bound(a: V3, b: V3, m: int, md: int)
    requires
        0 <= m,
        0 <= md,
        bounded3(a, m),
        bounded3(b, m),
        3 * (m * m) <= md * FX_ONE,
    ensures
        -md <= v_dot(a, b) <= md,
{
    lemma_mul_le(a.x, b.x, m, m);
    lemma_mul_le(a.y, b.y, m, m);
    lemma_mul_le(a.z, b.z, m, m);
    lemma_dt_le(a.x * b.x + a.y * b.y + a.z * b.z, FX_ONE as int, md);
}

/// A 3-D vector of fixed-point scalars; also a point, also an RGB color.
#[derive(Debug, PartialEq, Eq, Structural, Copy, Clone)]
pub struct Vector3 {
    pub x: i128,
    pub y: i128,
    pub z: i128,
}

impl View for Vector3 {
    type V = V3;

    open spec fn view(&self) -> V3 {
        V3 { x: self.x as int, y: self.y as int, z: self.z as int }
    }
}

impl Vector3 {
    pub fn new(x: i128, y: i128, z: i128) -> (v: Vector3)
        ensures
            v@ == (V3 { x: x as int, y: y as int, z: z as int }),
    {
        Vector3 { x, y, z }
    }

    /// Component-wise sum.
    pub fn plus(&self, other: &Vector3) -> (r: Vector3)
        requires
            bounded3(self@, FX_DIV_LIM as int),
            bounded3(other@, FX_DIV_LIM as int),
        ensures
            r@ == v_add(self@, other@),
    {
        Vector3 { x: self.x + other.x, y: self.y + other.y, z: self.z + other.z }
    }

    /// Component-wise difference.
    pub fn minus(&self, other: &Vector3) -> (r: Vector3)
        requires
            bounded3(self@, FX_DIV_LIM as int),
            bounded3(other@, FX_DIV_LIM as int),
        ensures
            r@ == v_sub(self@, other@),
    {
        Vector3 { x: self.x - other.x, y: self.y - other.y, z: self.z - other.z }
    }

    /// Component-wise negation.
    pub fn neg(&self) -> (r: Vector3)
        requires
            bounded3(self@, FX_DIV_LIM as int),
        ensures
            r@ == v_neg(self@),
    {
        Vector3 { x: -self.x, y: -self.y, z: -self.z }
    }

    /// Component-wise fixed-point product.
    pub fn mul_v(&self, other: &Vector3) -> (r: Vector3)
        requires
            bounded3(self@, FX_LIM as int),
            bounded3(other@, FX_LIM as int),
        ensures
            r@ == v_mul(self@, other@),
    {
        proof {
            lemma_mul_le(self@.x, other@.x, FX_LIM as int, FX_LIM as int);
            lemma_mul_le(self@.y, other@.y, FX_LIM as int, FX_LIM as int);
            lemma_mul_le(self@.z, other@.z, FX_LIM as int, FX_LIM as int);
        }
        Vector3 {
            x: fx_mul(self.x, other.x),
            y: fx_mul(self.y, other.y),
            z: fx_mul(self.z, other.z),
        }
    }

    /// Fixed-point product with the scalar `k`.
    pub fn scale(&self, k: i128) -> (r: Vector3)
        requires
            bounded3(self@, FX_LIM as int),
            -FX_LIM <= k <= FX_LIM,
        ensures
            r@ == v_scale(self@, k as int),
    {
        proof {
            lemma_mul_le(self@.x, k as int, FX_LIM as int, FX_LIM as int);
            lemma_mul_le(self@.y, k as int, FX_LIM as int, FX_LIM as int);
            lemma_mul_le(self@.z, k as int, FX_LIM as int, FX_LIM as int);
        }
        Vector3 { x: fx_mul(self.x, k), y: fx_mul(self.y, k), z: fx_mul(self.z, k) }
    }

    /// Fixed-point quotient by the positive scalar `k`.
    pub fn div_by(&self, k: i128) -> (r: Vector3)
        requires
            bounded3(self@, FX_DIV_LIM as int),
            0 < k,
        ensures
            r@ == v_div(self@, k as int),
    {
        Vector3 { x: fx_div(self.x, k), y: fx_div(self.y, k), z: fx_div(self.z, k) }
    }

    /// Fixed-point dot product.
    pub fn dot(a: &Vector3, b: &Vector3) -> (r: i128)
        requires
            bounded3(a@, DOT_LIM as int),
            bounded3(b@, DOT_LIM as int),
        ensures
            r == v_dot(a@, b@),
            -3 * DOT_LIM * DOT_LIM <= r <= 3 * DOT_LIM * DOT_LIM,
    {
        proof {
            lemma_mul_le(a@.x, b@.x, DOT_LIM as int, DOT_LIM as int);
            lemma_mul_le(a@.y, b@.y, DOT_LIM as int, DOT_LIM as int);
            lemma_mul_le(a@.z, b@.z, DOT_LIM as int, DOT_LIM as int);
            lemma_dt_le(
                a@.x * b@.x + a@.y * b@.y + a@.z * b@.z,
                FX_ONE as int,
                3 * (DOT_LIM as int) * (DOT_LIM as int),
            );
        }
        (a.x * b.x + a.y * b.y + a.z * b.z) / FX_ONE
    }

    /// Fixed-point cross product.
    pub fn cross(a: &Vector3, b: &Vector3) -> (r: Vector3)
        requires
            bounded3(a@, FX_LIM as int),
            bounded3(b@, FX_LIM as int),
        ensures
            r@ == v_cross(a@, b@),
    {
        proof {
            lemma_mul_le(a@.y, b@.z, FX_LIM as int, FX_LIM as int);
            lemma_mul_le(a@.z, b@.y, FX_LIM as int, FX_LIM as int);
            lemma_mul_le(a@.z, b@.x, FX_LIM as int, FX_LIM as int);
            lemma_mul_le(a@.x, b@.z, FX_LIM as int, FX_LIM as int);
            lemma_mul_le(a@.x, b@.y, FX_LIM as int, FX_LIM as int);
            lemma_mul_le(a@.y, b@.x, FX_LIM as int, FX_LIM as int);
            lemma_dt_le(a@.y * b@.z, FX_ONE as int, FX_LIM as int * FX_LIM as int);
            lemma_dt_le(a@.z * b@.y, FX_ONE as int, FX_LIM as int * FX_LIM as int);
            lemma_dt_le(a@.z * b@.x, FX_ONE as int, FX_LIM as int * FX_LIM as int);
            lemma_dt_le(a@.x * b@.z, FX_ONE as int, FX_LIM as int * FX_LIM as int);
            lemma_dt_le(a@.x * b@.y, FX_ONE as int, FX_LIM as int * FX_LIM as int);
            lemma_dt_le(a@.y * b@.x, FX_ONE as int, FX_LIM as int * FX_LIM as int);
        }
        Vector3 {
            x: fx_mul(a.y, b.z) - fx_mul(a.z, b.y),
            y: fx_mul(a.z, b.x) - fx_mul(a.x, b.z),
            z: fx_mul(a.x, b.y) - fx_mul(a.y, b.x),
        }
    }

    /// Fixed-point squared length.
    pub fn squared_length(&self) -> (r: i128)
        requires
            bounded3(self@, DOT_LIM as int),
        ensures
            r == v_sq_len(self@),
            0 <= r <= 3 * DOT_LIM * DOT_LIM,
    {
        proof {
            lemma_mul_le(self@.x, self@.x, DOT_LIM as int, DOT_LIM as int);
            lemma_mul_le(self@.y, self@.y, DOT_LIM as int, DOT_LIM as int);
            lemma_mul_le(self@.z, self@.z, DOT_LIM as int, DOT_LIM as int);
            assert(0 <= self@.x * self@.x && 0 <= self@.y * self@.y && 0 <= self@.z * self@.z)
                by (nonlinear_arith);
            lemma_dt_le(rsq(self@), FX_ONE as int, 3 * (DOT_LIM as int) * (DOT_LIM as int));
            lemma_dt_range(rsq(self@), FX_ONE as int);
        }
        (self.x * self.x + self.y * self.y + self.z * self.z) / FX_ONE
    }

    /// Fixed-point length.
    pub fn length(&self) -> (r: i128)
        requires
            bounded3(self@, DOT_LIM as int),
        ensures
            r == v_len(self@),
            0 <= r,
            r * r <= rsq(self@) < (r + 1) * (r + 1),
    {
        proof {
            lemma_mul_le(self@.x, self@.x, DOT_LIM as int, DOT_LIM as int);
            lemma_mul_le(self@.y, self@.y, DOT_LIM as int, DOT_LIM as int);
            lemma_mul_le(self@.z, self@.z, DOT_LIM as int, DOT_LIM as int);
            assert(0 <= self@.x * self@.x && 0 <= self@.y * self@.y && 0 <= self@.z * self@.z)
                by (nonlinear_arith);
        }
        isqrt(self.x * self.x + self.y * self.y + self.z * self.z)
    }

    /// A copy of this vector rescaled to (fixed-point) unit length.
    ///
    /// Normalizing collapses neither to zero nor past the unit box: every
    /// component ends within one, and the largest keeps at least half.
    pub fn normalized(&self) -> (r: Vector3)
        requires
            bounded3(self@, VEC_LIM as int),
            1 <= rsq(self@),
        ensures
            r@ == v_normalized(self@),
            bounded3(r@, FX_ONE as int),
            rsq(r@) >= 1073741824,
    {
        let l = self.length();
        proof {
            lemma_len_positive(self@, l as int);
            lemma_norm_unit_box(self@, l as int);
            lemma_norm_nonzero(self@, l as int);
        }
        self.div_by(l)
    }

    /// Rescale this vector in place to unit length.
    pub fn normalize(&mut self)
        requires
            bounded3(old(self)@, VEC_LIM as int),
            1 <= rsq(old(self)@),
        ensures
            final(self)@ == v_normalized(old(self)@),
            bounded3(final(self)@, FX_ONE as int),
            rsq(final(self)@) >= 1073741824,
    {
        *self = self.normalized();
    }

    /// Reflection of `v` about the normal `n`.
    pub fn reflect(v: &Vector3, n: &Vector3) -> (r: Vector3)
        requires
            bounded3(v@, VEC_LIM as int),
            bounded3(n@, VEC_LIM as int),
        ensures
            r@ == v_reflect(v@, n@),
    {
        let d = Vector3::dot(v, n);
        proof {
            lemma_dot_bound(v@, n@, VEC_LIM as int, 3458764513820540928);
            lemma_fmul_bound(n@.x, d as int, VEC_LIM as int, 3458764513820540928,
                14507109835375550096474112);
            lemma_fmul_bound(n@.y, d as int, VEC_LIM as int, 3458764513820540928,
                14507109835375550096474112);
            lemma_fmul_bound(n@.z, d as int, VEC_LIM as int, 3458764513820540928,
                14507109835375550096474112);
        }
        Vector3 {
            x: v.x - 2 * fx_mul(n.x, d),
            y: v.y - 2 * fx_mul(n.y, d),
            z: v.z - 2 * fx_mul(n.z, d),
        }
    }

    /// Refraction of `v` through a surface with outward normal `n`;
    /// `None` exactly when the discriminant is negative — total internal
    /// reflection.  The normal must be unit-scale, as every normal a hit
    /// record carries is.
    pub fn refract(v: &Vector3, n: &Vector3, ni_over_nt: i128) -> (r: Option<Vector3>)
        requires
            bounded3(v@, VEC_LIM as int),
            1 <= rsq(v@),
            bounded3(n@, 2 * FX_ONE as int),
            0 < ni_over_nt <= COORD_LIM,
        ensures
            (r is Some) == (v_refract(v@, n@, ni_over_nt as int) is Some),
            r matches Some(w) ==> v_refract(v@, n@, ni_over_nt as int) matches Some(u) && w@
                == u,
            r matches Some(w) ==> bounded3(w@, VEC_LIM as int),
            ({
                let d = v_dot(v_normalized(v@), n@);
                let disc = FX_ONE - fmul(
                    fmul(ni_over_nt as int, ni_over_nt as int),
                    FX_ONE - fmul(d, d),
                );
                (r is None) <==> disc < 0
            }),
    {
        let uv = v.normalized();
        let d = Vector3::dot(&uv, n);
        proof {
            lemma_dot_bound(uv@, n@, 131072, 786432);
            lemma_fmul_bound(d as int, d as int, 786432, 786432, 9437184);
            lemma_fmul_bound(ni_over_nt as int, ni_over_nt as int, COORD_LIM as int,
                COORD_LIM as int, 1099511627776);
        }
        let dd = fx_mul(d, d);
        let rr = fx_mul(ni_over_nt, ni_over_nt);
        proof {
            lemma_fmul_bound(rr as int, FX_ONE - dd, 1099511627776, 9502720, 159429186027520);
        }
        let disc = FX_ONE - fx_mul(rr, FX_ONE - dd);
        if disc >= 0 {
            let s = crate::fixed::fx_sqrt(disc);
            proof {
                assert(s <= 34359738368) by (nonlinear_arith)
                    requires
                        0 <= s,
                        s * s <= disc * FX_ONE,
                        disc <= 159429186093056,
                ;
                lemma_scale_bound(n@, d as int, 2 * FX_ONE as int, 786432, 1572864);
            }
            let t1 = uv.minus(&n.scale(d));
            proof {
                lemma_scale_bound(t1@, ni_over_nt as int, 1638400, COORD_LIM as int, 6710886400);
                lemma_scale_bound(n@, s as int, 2 * FX_ONE as int, 34359738368, 68719476736);
            }
            let t2 = t1.scale(ni_over_nt);
            let t3 = n.scale(s);
            Some(t2.minus(&t3))
        } else {
            None
        }
    }
}

/// The mathematical model of a `Ray`.
pub struct RayV {
    pub origin: V3,
    pub direction: V3,
}

/// The point a ray reaches at parameter `t`.
pub open spec fn ray_at(r: RayV, t: int) -> V3 {
    v_add(r.origin, v_scale(r.direction, t))
}

/// A ray: an origin and a direction, normalized at construction.
#[derive(Debug, Copy, Clone)]
pub struct Ray {
    pub origin: Vector3,
    pub direction: Vector3,
}

impl View for Ray {
    type V = RayV;

    open spec fn view(&self) -> RayV {
        RayV { origin: self.origin@, direction: self.direction@ }
    }
}

impl Ray {
    /// A ray from `origin` along `direction`, which is normalized and so
    /// must not be the zero vector.
    pub fn new(origin: Vector3, direction: Vector3) -> (r: Ray)
        requires
            bounded3(direction@, VEC_LIM as int),
            1 <= rsq(direction@),
        ensures
            r@.origin == origin@,
            r@.direction == v_normalized(direction@),
            unit_dir(r@.direction),
    {
        Ray { origin, direction: direction.normalized() }
    }

    /// The point at parameter `t` along the ray.
    pub fn point_at(&self, t: i128) -> (r: Vector3)
        requires
            bounded3(self.direction@, VEC_LIM as int),
            bounded3(self.origin@, ORG_MAX as int),
            -T_FAR <= t <= T_FAR,
        ensures
            r@ == ray_at(self@, t as int),
    {
        proof {
            lemma_fmul_bound(self@.direction.x, t as int, VEC_LIM as int, T_FAR as int,
                18014398509481984);
            lemma_fmul_bound(self@.direction.y, t as int, VEC_LIM as int, T_FAR as int,
                18014398509481984);
            lemma_fmul_bound(self@.direction.z, t as int, VEC_LIM as int, T_FAR as int,
                18014398509481984);
        }
        self.origin.plus(&self.direction.scale(t))
    }
}

/// A positive raw square sum forces a positive fixed-point length.
proof fn lemma_len_positive(v: V3, l: int)
    requires
        1 <= rsq(v),
        0 <= l,
        l * l <= rsq(v) < (l + 1) * (l + 1),
    ensures
        1 <= l,
{
    if l == 0 {
        assert((l + 1) * (l + 1) == 1) by (nonlinear_arith)
            requires
                l == 0,
        ;
    }
}

/// Each component of a vector divided by its length lands in the unit box.
proof fn lemma_norm_unit_box(v: V3, l: int)
    requires
        1 <= l,
        l * l <= rsq(v) < (l + 1) * (l + 1),
    ensures
        bounded3(v_div(v, l), FX_ONE as int),
{
    assert(0 <= v.x * v.x && 0 <= v.y * v.y && 0 <= v.z * v.z) by (nonlinear_arith);
    lemma_norm_component(v.x, rsq(v), l);
    lemma_norm_component(v.y, rsq(v), l);
    lemma_norm_component(v.z, rsq(v), l);
}

/// One component, squared at most the square sum, divides to within one.
proof fn lemma_norm_component(xi: int, sum: int, l: int)
    requires
        1 <= l,
        xi * xi <= sum,
        sum < (l + 1) * (l + 1),
    ensures
        -(FX_ONE as int) <= dt(xi * FX_ONE, l) <= FX_ONE as int,
{
    assert(-l <= xi <= l) by (nonlinear_arith)
        requires
            1 <= l,
            xi * xi <= sum,
            sum < (l + 1) * (l + 1),
    ;
    lemma_mul_le(xi, FX_ONE as int, l, FX_ONE as int);
    lemma_dt_le(xi * FX_ONE, l, FX_ONE as int);
}

/// The largest component of a normalized vector keeps at least half of one,
/// so normalization cannot collapse a nonzero vector.
proof fn lemma_norm_nonzero(v: V3, l: int)
    requires
        1 <= l,
        1 <= rsq(v),
        l * l <= rsq(v) < (l + 1) * (l + 1),
    ensures
        rsq(v_div(v, l)) >= 1073741824,
{
    let w = v_div(v, l);
    assert(0 <= w.x * w.x && 0 <= w.y * w.y && 0 <= w.z * w.z) by (nonlinear_arith);
    if v.x * v.x >= v.y * v.y && v.x * v.x >= v.z * v.z {
        lemma_norm_big_component(v.x, rsq(v), l);
        assert(w.x * w.x >= 1073741824) by (nonlinear_arith)
            requires
                dt(v.x * FX_ONE, l) * dt(v.x * FX_ONE, l) >= 1073741824,
                w.x == dt(v.x * FX_ONE, l),
        ;
    } else if v.y * v.y >= v.z * v.z {
        lemma_norm_big_component(v.y, rsq(v), l);
        assert(w.y * w.y >= 1073741824) by (nonlinear_arith)
            requires
                dt(v.y * FX_ONE, l) * dt(v.y * FX_ONE, l) >= 1073741824,
                w.y == dt(v.y * FX_ONE, l),
        ;
    } else {
        lemma_norm_big_component(v.z, rsq(v), l);
        assert(w.z * w.z >= 1073741824) by (nonlinear_arith)
            requires
                dt(v.z * FX_ONE, l) * dt(v.z * FX_ONE, l) >= 1073741824,
                w.z == dt(v.z * FX_ONE, l),
        ;
    }
}

/// A component whose square carries at least a third of the square sum
/// divides by the length to at least half of one.
proof fn lemma_norm_big_component(xi: int, sum: int, l: int)
    requires
        1 <= l,
        1 <= sum,
        l * l <= sum,
        3 * (xi * xi) >= sum,
    ensures
        dt(xi * FX_ONE, l) * dt(xi * FX_ONE, l) >= 1073741824,
{
    let a = if xi >= 0 {
        xi
    } else {
        -xi
    };
    assert(a * a == xi * xi) by (nonlinear_arith)
        requires
            a == xi || a == -xi,
    ;
    assert(1 <= a) by (nonlinear_arith)
        requires
            3 * (a * a) >= sum,
            1 <= sum,
            0 <= a,
    ;
    assert(l <= 2 * a - 1) by (nonlinear_arith)
        requires
            0 <= l,
            1 <= a,
            l * l <= sum,
            3 * (a * a) >= sum,
    ;
    assert(32768 * l <= a * FX_ONE) by {
        assert(32768 * l <= 32768 * (2 * a - 1));
        assert(32768 * (2 * a - 1) == a * FX_ONE - 32768) by (nonlinear_arith);
    };
    lemma_dt_ge(a * FX_ONE, l, 32768);
    if xi >= 0 {
        assert(dt(xi * FX_ONE, l) >= 32768);
        assert(dt(xi * FX_ONE, l) * dt(xi * FX_ONE, l) >= 1073741824) by (nonlinear_arith)
            requires
                dt(xi * FX_ONE, l) >= 32768,
        ;
    } else {
        assert(xi * FX_ONE == -(a * FX_ONE)) by (nonlinear_arith)
            requires
                a == -xi,
        ;
        lemma_dt_neg(a * FX_ONE, l);
        assert(dt(xi * FX_ONE, l) <= -32768);
        assert(dt(xi * FX_ONE, l) * dt(xi * FX_ONE, l) >= 1073741824) by (nonlinear_arith)
            requires
                dt(xi * FX_ONE, l) <= -32768,
        ;
    }
}

} // verus!


verus! {

/// A sphere: a center, a positive radius, and the material it owns.
#[derive(Debug, Copy, Clone)]
pub struct Sphere {
    pub center: Vector3,
    pub radius: i128,
    pub material: crate::material::Material,
}

impl Sphere {
    /// The construction invariants: a representable center, a positive
    /// representable radius, a well-formed material.
    pub open spec fn wf(self) -> bool {
        &&& bounded3(self.center@, COORD_LIM as int)
        &&& 0 < self.radius <= COORD_LIM
        &&& self.material.wf()
    }

    pub fn new(center: Vector3, radius: i128, material: crate::material::Material) -> (s: Sphere)
        requires
            bounded3(center@, COORD_LIM as int),
            0 < radius <= COORD_LIM,
            material.wf(),
        ensures
            s.center == center,
            s.radius == radius,
            s.material == material,
            s.wf(),
    {
        Sphere { center, radius, material }
    }

    /// Intersect the ray with this sphere over the open interval
    /// `(t_min, t_max)`, exactly as `sphere_hit_spec` states.
    pub fn hit(&self, ray: &Ray, t_min: i128, t_max: i128) -> (r: Option<
        crate::tracing::HitRecord,
    >)
        requires
            self.wf(),
            unit_dir(ray@.direction),
            bounded3(ray@.origin, ORG_MAX as int),
            0 <= t_min,
            t_max <= T_FAR,
        ensures
            (r is Some) == (sphere_hit_spec(*self, ray@, t_min as int, t_max as int) is Some),
            r matches Some(h) ==> sphere_hit_spec(*self, ray@, t_min as int, t_max as int)
                matches Some(hr) && h@ == hr,
            r matches Some(h) ==> t_min < h.t < t_max && bounded3(h@.normal, NORMAL_LIM as int)
                && h.material == self.material && bounded3(v_sub(h@.point, ray@.origin),
                t_max as int) && h@.point == ray_at(ray@, h.t as int),
            ({
                let oc = v_sub(ray@.origin, self.center@);
                let a = v_dot(ray@.direction, ray@.direction);
                let b = v_dot(ray@.direction, oc);
                let c = v_dot(oc, oc) - fmul(self.radius as int, self.radius as int);
                let disc = fmul(b, b) - fmul(a, c);
                let t_near = fdiv(-b - fsqrt(disc), a);
                let t_far = fdiv(-b + fsqrt(disc), a);
                (r is Some) <==> disc > 0 && (t_min < t_near < t_max || t_min < t_far < t_max)
            }),
    {
        let oc = ray.origin.minus(&self.center);
        proof {
            lemma_dt_ge(rsq(ray@.direction), FX_ONE as int, 1);
            lemma_dot_bound(ray@.direction, ray@.direction, 65536, 196608);
            lemma_dot_bound(ray@.direction, oc@, 219580203008, 2207128855271964672);
            lemma_dot_bound(oc@, oc@, 219580203008, 2207128855271964672);
            lemma_fmul_bound(self.radius as int, self.radius as int, COORD_LIM as int,
                COORD_LIM as int, 1099511627776);
        }
        let a = Vector3::dot(&ray.direction, &ray.direction);
        let b = Vector3::dot(&ray.direction, &oc);
        let c = Vector3::dot(&oc, &oc) - fx_mul(self.radius, self.radius);
        proof {
            lemma_fmul_bound(b as int, b as int, 2207128855271964672, 2207128855271964672,
                74331936397920733265649198956544);
            lemma_fmul_bound(a as int, c as int, 196608, 2207129954783592448,
                6621389864350777344);
        }
        let disc = fx_mul(b, b) - fx_mul(a, c);
        if disc > 0 {
            let sq = crate::fixed::fx_sqrt(disc);
            proof {
                assert(sq <= 2207128855272062977) by (nonlinear_arith)
                    requires
                        0 <= sq,
                        sq * sq <= disc * FX_ONE,
                        disc <= 74331936397927354655513549733888,
                ;
            }
            let mut t = fx_div(-b - sq, a);
            if t <= t_min || t >= t_max {
                t = fx_div(-b + sq, a);
            }
            if t > t_min && t < t_max {
                let p = ray.point_at(t);
                proof {
                    lemma_fmul_bound(ray@.direction.x, t as int, FX_ONE as int, t_max as int,
                        t_max as int);
                    lemma_fmul_bound(ray@.direction.y, t as int, FX_ONE as int, t_max as int,
                        t_max as int);
                    lemma_fmul_bound(ray@.direction.z, t as int, FX_ONE as int, t_max as int,
                        t_max as int);
                }
                let pc = p.minus(&self.center);
                proof {
                    lemma_mul_le(pc@.x, FX_ONE as int, 223875170304, FX_ONE as int);
                    lemma_mul_le(pc@.y, FX_ONE as int, 223875170304, FX_ONE as int);
                    lemma_mul_le(pc@.z, FX_ONE as int, 223875170304, FX_ONE as int);
                    assert(NORMAL_LIM <= NORMAL_LIM * self.radius) by (nonlinear_arith)
                        requires
                            1 <= self.radius,
                    ;
                    lemma_dt_le(pc@.x * FX_ONE, self.radius as int, NORMAL_LIM as int);
                    lemma_dt_le(pc@.y * FX_ONE, self.radius as int, NORMAL_LIM as int);
                    lemma_dt_le(pc@.z * FX_ONE, self.radius as int, NORMAL_LIM as int);
                }
                let n = pc.div_by(self.radius);
                Some(crate::tracing::HitRecord { t, point: p, normal: n, material: self.material })
            } else {
                None
            }
        } else {
            None
        }
    }
}

/// The intersection of a ray and a sphere over the open interval
/// `(t_min, t_max)`: the half-form quadratic, a hit exactly when a root
/// lies strictly inside the interval, the nearer admissible root
/// preferred.
pub open spec fn sphere_hit_spec(s: Sphere, rv: RayV, t_min: int, t_max: int) -> Option<
    crate::tracing::HRec,
> {
    let oc = v_sub(rv.origin, s.center@);
    let a = v_dot(rv.direction, rv.direction);
    let b = v_dot(rv.direction, oc);
    let c = v_dot(oc, oc) - fmul(s.radius as int, s.radius as int);
    let disc = fmul(b, b) - fmul(a, c);
    if disc > 0 {
        let sq = fsqrt(disc);
        let t0 = fdiv(-b - sq, a);
        let t = if t_min < t0 && t0 < t_max {
            t0
        } else {
            fdiv(-b + sq, a)
        };
        if t_min < t && t < t_max {
            let p = ray_at(rv, t);
            let n = v_div(v_sub(p, s.center@), s.radius as int);
            Some(crate::tracing::HRec { t, point: p, normal: n, material: s.material })
        } else {
            None
        }
    } else {
        None
    }
}

/// Shrinking the far end of the query interval can only lose a hit, never
/// create one.
pub proof fn lemma_sphere_hit_tighter(s: Sphere, rv: RayV, t_min: int, c1: int, c2: int)
    requires
        rsq(rv.direction) >= FX_ONE,
        c1 <= c2,
        sphere_hit_spec(s, rv, t_min, c2) is None,
    ensures
        sphere_hit_spec(s, rv, t_min, c1) is None,
{
    lemma_sphere_roots_ordered(s, rv);
}

/// Re-querying with the returned parameter as the far end reports nothing:
/// the returned hit is the earliest the sphere offers.
pub proof fn lemma_sphere_hit_self(s: Sphere, rv: RayV, t_min: int, c: int, h: crate::tracing::HRec)
    requires
        rsq(rv.direction) >= FX_ONE,
        sphere_hit_spec(s, rv, t_min, c) == Some(h),
    ensures
        sphere_hit_spec(s, rv, t_min, h.t) is None,
{
    lemma_sphere_roots_ordered(s, rv);
}

/// The two candidate roots of the intersection quadratic are ordered, and
/// the quadratic's leading coefficient is positive.
proof fn lemma_sphere_roots_ordered(s: Sphere, rv: RayV)
    requires
        rsq(rv.direction) >= FX_ONE,
    ensures
        ({
            let oc = v_sub(rv.origin, s.center@);
            let a = v_dot(rv.direction, rv.direction);
            let b = v_dot(rv.direction, oc);
            let c = v_dot(oc, oc) - fmul(s.radius as int, s.radius as int);
            let disc = fmul(b, b) - fmul(a, c);
            a >= 1 && (disc > 0 ==> fsqrt(disc) >= 0 && fdiv(-b - fsqrt(disc), a) <= fdiv(
                -b + fsqrt(disc),
                a,
            ))
        }),
{
    let oc = v_sub(rv.origin, s.center@);
    let a = v_dot(rv.direction, rv.direction);
    let b = v_dot(rv.direction, oc);
    let c = v_dot(oc, oc) - fmul(s.radius as int, s.radius as int);
    let disc = fmul(b, b) - fmul(a, c);
    lemma_dt_ge(rsq(rv.direction), FX_ONE as int, 1);
    if disc > 0 {
        lemma_sqrt_floor(disc * FX_ONE);
        let sq = fsqrt(disc);
        assert((-b - sq) * FX_ONE <= (-b + sq) * FX_ONE) by (nonlinear_arith)
            requires
                sq >= 0,
        ;
        crate::fixed::lemma_dt_mono_signed((-b - sq) * FX_ONE, (-b + sq) * FX_ONE, a);
    }
}

} // verus!

verus! {

/// The raw (unrescaled) dot product of two integer vectors.
pub open spec fn rdot(a: V3, b: V3) -> int {
    a.x * b.x + a.y * b.y + a.z * b.z
}

/// An integer vector scaled by a raw integer factor, without rescaling.
pub open spec fn v_scale_raw(a: V3, k: int) -> V3 {
    V3 { x: a.x * k, y: a.y * k, z: a.z * k }
}

/// The reflection law, in exact integer arithmetic with denominators
/// cleared: reflecting `v` about `n` negates the component of `v` along
/// `n` and touches nothing else.  With `s` the square length of `n`, the
/// reflection scaled by `s` is `v*s - 2*(v.n)*n`, and its dot with `n` is
/// the negation of `(v.n)*s`.
pub proof fn lemma_reflect_normal_component(v: V3, n: V3)
    ensures
        rdot(v_sub(v_scale_raw(v, rdot(n, n)), v_scale_raw(n, 2 * rdot(v, n))), n) == -(rdot(
            v,
            n,
        ) * rdot(n, n)),
{
    lemma_reflect_expand(v.x, v.y, v.z, n.x, n.y, n.z, rdot(n, n), rdot(v, n));
    assert(rdot(v, n) * rdot(n, n) - 2 * rdot(v, n) * rdot(n, n) == -(rdot(v, n) * rdot(n, n)))
        by (nonlinear_arith);
}

/// Distributing the cleared-denominator reflection over a dot product.
proof fn lemma_reflect_expand(vx: int, vy: int, vz: int, nx: int, ny: int, nz: int, s: int, d: int)
    ensures
        (vx * s - nx * (2 * d)) * nx + (vy * s - ny * (2 * d)) * ny + (vz * s - nz * (2 * d))
            * nz == (vx * nx + vy * ny + vz * nz) * s - 2 * d * (nx * nx + ny * ny + nz * nz),
{
    assert((vx * s - nx * (2 * d)) * nx == (vx * nx) * s - 2 * d * (nx * nx)) by (nonlinear_arith);
    assert((vy * s - ny * (2 * d)) * ny == (vy * ny) * s - 2 * d * (ny * ny)) by (nonlinear_arith);
    assert((vz * s - nz * (2 * d)) * nz == (vz * nz) * s - 2 * d * (nz * nz)) by (nonlinear_arith);
    lemma_dist3(vx * nx, vy * ny, vz * nz, s);
    lemma_dist3(nx * nx, ny * ny, nz * nz, 2 * d);
    assert(2 * d * (nx * nx + ny * ny + nz * nz) == (nx * nx + ny * ny + nz * nz) * (2 * d))
        by (nonlinear_arith);
    assert((nx * nx) * (2 * d) == 2 * d * (nx * nx) && (ny * ny) * (2 * d) == 2 * d * (ny * ny)
        && (nz * nz) * (2 * d) == 2 * d * (nz * nz)) by (nonlinear_arith);
}

/// Reflection about a normal is an involution, in exact integer
/// arithmetic with denominators cleared: reflecting twice scales by the
/// square of the normal's square length and changes nothing else, so for
/// a unit normal the vector comes back identically.
pub proof fn lemma_reflect_involution(v: V3, n: V3)
    ensures
        ({
            let s = rdot(n, n);
            let d = rdot(v, n);
            let r1 = v_sub(v_scale_raw(v, s), v_scale_raw(n, 2 * d));
            v_sub(v_scale_raw(r1, s), v_scale_raw(n, 2 * rdot(r1, n))) == v_scale_raw(
                v,
                s * s,
            )
        }),
{
    let s = rdot(n, n);
    let d = rdot(v, n);
    let r1 = v_sub(v_scale_raw(v, s), v_scale_raw(n, 2 * d));
    lemma_reflect_normal_component(v, n);
    assert(rdot(r1, n) == -(d * s));
    lemma_involution_comp(v.x, n.x, s, d);
    lemma_involution_comp(v.y, n.y, s, d);
    lemma_involution_comp(v.z, n.z, s, d);
}

/// One component of the doubly reflected vector.
proof fn lemma_involution_comp(a: int, b: int, s: int, d: int)
    ensures
        (a * s - b * (2 * d)) * s - b * (2 * (-(d * s))) == a * (s * s),
{
    assert((a * s - b * (2 * d)) * s - b * (2 * (-(d * s))) == a * (s * s))
        by (nonlinear_arith);
}

/// Multiplication distributes over a three-part sum.
proof fn lemma_dist3(a: int, b: int, c: int, s: int)
    ensures
        (a + b + c) * s == a * s + b * s + c * s,
{
    assert((a + b + c) * s == a * s + b * s + c * s) by (nonlinear_arith);
}

} // verus!

verus! {

/// A vector of exactly unit square sum normalizes to itself.
pub proof fn lemma_unit_normalized(n: V3)
    requires
        rsq(n) == FX_ONE * FX_ONE,
    ensures
        v_normalized(n) == n,
{
    lemma_sqrt_floor(FX_ONE as int * FX_ONE);
    lemma_sqrt_unique(FX_ONE as int * FX_ONE, sqrt_floor(FX_ONE as int * FX_ONE), FX_ONE as int);
    assert(v_len(n) == FX_ONE);
    lemma_dt_exact(n.x, FX_ONE as int);
    lemma_dt_exact(n.y, FX_ONE as int);
    lemma_dt_exact(n.z, FX_ONE as int);
    assert(v_normalized(n) == n);
}

} // verus!

verus! {

/// One rescaled component, squared: bracketing by the exact quotient.
/// With `q` the rescaling of `xi` by `l`, the square of `q*l` falls within
/// `2*l*l*FX_ONE` below the square of `xi*FX_ONE`, and never above it.
proof fn lemma_norm_comp_sq(xi: int, l: int)
    requires
        1 <= l,
        -l <= xi <= l,
    ensures
        dt(xi * FX_ONE, l) * dt(xi * FX_ONE, l) * (l * l) <= (xi * xi) * (FX_ONE as int
            * FX_ONE),
        dt(xi * FX_ONE, l) * dt(xi * FX_ONE, l) * (l * l) >= (xi * xi) * (FX_ONE as int
            * FX_ONE) - 2 * (l * l) * FX_ONE,
{
    let one = FX_ONE as int;
    let a = if xi >= 0 {
        xi * one
    } else {
        -(xi * one)
    };
    assert(0 <= a && a <= l * one && a * a == (xi * xi) * (one * one)) by (nonlinear_arith)
        requires
            -l <= xi <= l,
            1 <= l,
            a == (if xi >= 0 {
                xi * one
            } else {
                -(xi * one)
            }),
            one == 65536,
    ;
    let q = dt(a, l);
    lemma_dt_range(a, l);
    if xi >= 0 {
        assert(dt(xi * FX_ONE, l) == q);
    } else {
        lemma_dt_neg(xi * one, l);
        assert(dt(xi * FX_ONE, l) == -q);
    }
    assert(dt(xi * FX_ONE, l) * dt(xi * FX_ONE, l) == q * q) by (nonlinear_arith)
        requires
            dt(xi * FX_ONE, l) == q || dt(xi * FX_ONE, l) == -q,
    ;
    assert(q * q * (l * l) <= a * a) by (nonlinear_arith)
        requires
            0 <= q,
            0 < l,
            l * q <= a,
    ;
    assert(q * q * (l * l) >= a * a - 2 * (a * l)) by (nonlinear_arith)
        requires
            0 <= q,
            0 < l,
            0 <= a,
            a < l * (q + 1),
    ;
    assert(a * l <= (l * l) * one) by (nonlinear_arith)
        requires
            0 <= a <= l * one,
            0 < l,
    ;
}

/// Normalizing a vector of euclidean length at least one yields a vector
/// whose fixed-point length is one, to within four units of the last
/// place.  Much shorter vectors lose too much to rescaling for any such
/// bound: the vector of three smallest positive scalars normalizes to a
/// vector of length about the square root of three.
pub proof fn lemma_normalized_length(v: V3)
    requires
        bounded3(v, VEC_LIM as int),
        rsq(v) >= FX_ONE * FX_ONE,
    ensures
        FX_ONE - 4 <= v_len(v_normalized(v)) <= FX_ONE,
{
    let one = FX_ONE as int;
    let sum = rsq(v);
    let l = v_len(v);
    lemma_sqrt_floor(sum);
    assert(l + 1 > one) by (nonlinear_arith)
        requires
            sum < (l + 1) * (l + 1),
            sum >= one * one,
            0 <= l,
            one == 65536,
    ;
    assert(v.x * v.x <= sum && v.y * v.y <= sum && v.z * v.z <= sum) by (nonlinear_arith)
        requires
            sum == v.x * v.x + v.y * v.y + v.z * v.z,
    ;
    assert(-l <= v.x <= l && -l <= v.y <= l && -l <= v.z <= l) by (nonlinear_arith)
        requires
            v.x * v.x <= sum && v.y * v.y <= sum && v.z * v.z <= sum,
            sum < (l + 1) * (l + 1),
            0 <= l,
    ;
    lemma_norm_comp_sq(v.x, l);
    lemma_norm_comp_sq(v.y, l);
    lemma_norm_comp_sq(v.z, l);
    let w = v_normalized(v);
    let wsum = rsq(w);
    lemma_dist3(w.x * w.x, w.y * w.y, w.z * w.z, l * l);
    lemma_dist3(v.x * v.x, v.y * v.y, v.z * v.z, one * one);
    assert(wsum * (l * l) <= sum * (one * one));
    assert(wsum * (l * l) >= sum * (one * one) - 6 * ((l * l) * one));
    // Lower bound: the square sum keeps all but six parts in 65536 of one.
    assert(sum * (one * one) >= (l * l) * (one * one)) by (nonlinear_arith)
        requires
            l * l <= sum,
            one == 65536,
    ;
    assert(wsum >= one * one - 6 * one) by (nonlinear_arith)
        requires
            wsum * (l * l) >= (l * l) * (one * one) - 6 * ((l * l) * one),
            0 < l,
            one == 65536,
    ;
    // Upper bound: it cannot reach the next representable square.
    assert(sum * (one * one) <= (l * l) * (one * one) + (2 * l) * (one * one))
        by (nonlinear_arith)
        requires
            sum < (l + 1) * (l + 1),
            one == 65536,
            0 <= l,
    ;
    assert(wsum < (one + 1) * (one + 1)) by (nonlinear_arith)
        requires
            wsum * (l * l) <= (l * l) * (one * one) + (2 * l) * (one * one),
            l >= one,
            one == 65536,
            0 < l,
    ;
    // Read the bounds back through the square root.
    lemma_sqrt_floor(wsum);
    let r = sqrt_floor(wsum);
    assert(r <= one) by (nonlinear_arith)
        requires
            r * r <= wsum,
            wsum < (one + 1) * (one + 1),
            0 <= r,
            one == 65536,
    ;
    assert(r >= one - 4) by (nonlinear_arith)
        requires
            wsum < (r + 1) * (r + 1),
            wsum >= one * one - 6 * one,
            0 <= r,
            one == 65536,
    ;
}

} // verus!
