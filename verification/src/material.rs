//! Materials: how light bounces at a hit.
//!
//! Each material has a deterministic core (`scatter_with`), whose contract
//! is an exact equation over the spec mirror of its arithmetic, and a
//! `scatter` entry point that draws the random inputs and hands them to the
//! core.  A scattered direction that rounds to the zero vector would have
//! no direction at all; such a ray is redirected along the surface normal,
//! which the contracts state explicitly.

use vstd::prelude::*;

use crate::fixed::{
    dt, fdiv, fmul, fsqrt, fx_div, fx_mul, lemma_dt_ge, lemma_dt_le, lemma_dt_range,
    lemma_fmul_bound, FX_ONE,
};
use crate::geometry::{
    bounded3, in_unit_box, lemma_dot_bound, lemma_nonzero_rsq, lemma_scale_bound, nonzero3,
    norm_ok, rdot, rsq, unit_dir, v_add, v_dot, v_neg, v_normalized, v_reflect, v_refract,
    v_scale, v_sub, Ray, RayV, Vector3, COORD_LIM, ORG_MAX, V3, VEC_LIM,
};
use crate::tracing::{HRec, HitRecord};
use crate::utils::{random_fx, random_in_unit_sphere};

verus! {

/// A diffuse surface that always scatters, tinted by its albedo.
#[derive(Debug, Copy, Clone)]
pub struct Lambertian {
    pub albedo: Vector3,
}

/// A reflective surface with an optional fuzz perturbation.
#[derive(Debug, Copy, Clone)]
pub struct Metal {
    pub albedo: Vector3,
    pub fuzz: i128,
}

/// A clear refracting surface such as glass.
#[derive(Debug, Copy, Clone)]
pub struct Dielectric {
    pub refractive_index: i128,
}

/// The closed set of materials a sphere can carry.
#[derive(Debug, Copy, Clone)]
pub enum Material {
    Lambertian(Lambertian),
    Metal(Metal),
    Dielectric(Dielectric),
}

impl Material {
    /// The construction invariants of each material: albedos are colors in
    /// the unit box, fuzz lies in `[0, 1]`, a refractive index is at least
    /// one and representable.
    pub open spec fn wf(self) -> bool {
        match self {
            Material::Lambertian(l) => in_unit_box(l.albedo@),
            Material::Metal(m) => in_unit_box(m.albedo@) && 0 <= m.fuzz <= FX_ONE,
            Material::Dielectric(d) => FX_ONE <= d.refractive_index <= COORD_LIM,
        }
    }
}

/// What a unit-sphere sample satisfies: inside the cube and the sphere.
pub open spec fn sample_ok(s: V3) -> bool {
    &&& bounded3(s, FX_ONE as int)
    &&& rsq(s) < FX_ONE * FX_ONE
}

/// The view of an optional attenuation-and-ray pair.
pub open spec fn opt_pair_view(o: Option<(Vector3, Ray)>) -> Option<(V3, RayV)> {
    match o {
        Some(p) => Some((p.0@, p.1@)),
        None => None,
    }
}

/// An outcome the material could hand back for this bounce: some
/// admissible random draw explains it.  Diffuse and clear materials never
/// absorb, so their admissible outcomes are all of the `Some` form.
pub open spec fn scatter_admissible(m: Material, rv: RayV, hr: HRec, out: Option<
    (V3, RayV),
>) -> bool {
    match m {
        Material::Lambertian(l) => exists|smp: V3|
            sample_ok(smp) && out == Some(lambertian_scatter_spec(l, hr, smp)),
        Material::Metal(mm) => exists|smp: V3|
            sample_ok(smp) && out == metal_scatter_spec(mm, rv, hr, smp),
        Material::Dielectric(d) => exists|coin: int|
            0 <= coin < FX_ONE && out == Some(dielectric_scatter_spec(d, rv, hr, coin)),
    }
}

/// The direction a scattered ray takes: `d` normalized, unless `d` rounded
/// to zero, in which case the surface normal.
pub open spec fn dir_or_normal(d: V3, n: V3) -> V3 {
    if nonzero3(d) {
        v_normalized(d)
    } else {
        v_normalized(n)
    }
}

/// What `Lambertian::scatter_with` returns: the albedo, and a ray from the
/// hit point along the normal perturbed by the sample.
pub open spec fn lambertian_scatter_spec(mat: Lambertian, hr: HRec, smp: V3) -> (V3, RayV) {
    (
        mat.albedo@,
        RayV { origin: hr.point, direction: dir_or_normal(v_add(hr.normal, smp), hr.normal) },
    )
}

/// What `Metal::scatter_with` returns: the reflection, fuzz-perturbed, kept
/// only when it leaves the surface.
pub open spec fn metal_scatter_spec(mat: Metal, rv: RayV, hr: HRec, smp: V3) -> Option<
    (V3, RayV),
> {
    let d = v_add(v_reflect(rv.direction, hr.normal), v_scale(smp, mat.fuzz as int));
    if nonzero3(d) {
        let dir = v_normalized(d);
        if v_dot(dir, hr.normal) > 0 {
            Some((mat.albedo@, RayV { origin: hr.point, direction: dir }))
        } else {
            None
        }
    } else {
        None
    }
}

/// A cosine clamped into `[-1, 1]`; exact arithmetic never leaves it.
pub open spec fn clamp_unit(c: int) -> int {
    if c > FX_ONE {
        FX_ONE as int
    } else if c < -FX_ONE {
        -(FX_ONE as int)
    } else {
        c
    }
}

/// The Schlick reflectance approximation, in fixed point.
pub open spec fn schlick_spec(cosine: int, refractive_index: int) -> int {
    let r0a = fdiv(FX_ONE - refractive_index, FX_ONE + refractive_index);
    let r0 = fmul(r0a, r0a);
    let p = FX_ONE - cosine;
    let p2 = fmul(p, p);
    let p5 = fmul(fmul(p2, p2), p);
    r0 + fmul(FX_ONE - r0, p5)
}

/// What `Dielectric::scatter_with` returns: white attenuation, and either
/// the refraction or the reflection of the incoming ray, the choice made by
/// total internal reflection and by the coin against the Schlick
/// reflectance.
pub open spec fn dielectric_scatter_spec(mat: Dielectric, rv: RayV, hr: HRec, coin: int) -> (
    V3,
    RayV,
) {
    let ri = mat.refractive_index as int;
    let refl = v_reflect(rv.direction, hr.normal);
    let d = v_dot(rv.direction, hr.normal);
    let ni_over_nt = if d > 0 {
        ri
    } else {
        fdiv(FX_ONE as int, ri)
    };
    let outward = if d > 0 {
        v_neg(hr.normal)
    } else {
        hr.normal
    };
    let cosine = clamp_unit(
        if d > 0 {
            fmul(ri, d)
        } else {
            -d
        },
    );
    let white = V3 { x: FX_ONE as int, y: FX_ONE as int, z: FX_ONE as int };
    match v_refract(rv.direction, outward, ni_over_nt) {
        Some(refr) => {
            if coin < schlick_spec(cosine, ri) {
                (white, RayV { origin: hr.point, direction: dir_or_normal(refl, hr.normal) })
            } else {
                (white, RayV { origin: hr.point, direction: dir_or_normal(refr, hr.normal) })
            }
        },
        None => (white, RayV { origin: hr.point, direction: dir_or_normal(refl, hr.normal) }),
    }
}

/// Whether a clear material refracts this ray at this hit: the stochastic
/// coin matters only when it does.
pub open spec fn dielectric_refracts(mat: Dielectric, rv: RayV, hr: HRec) -> bool {
    let ri = mat.refractive_index as int;
    let d = v_dot(rv.direction, hr.normal);
    let ni_over_nt = if d > 0 {
        ri
    } else {
        fdiv(FX_ONE as int, ri)
    };
    let outward = if d > 0 {
        v_neg(hr.normal)
    } else {
        hr.normal
    };
    v_refract(rv.direction, outward, ni_over_nt) is Some
}

/// A ray along `dir`, or along the normal when `dir` rounded to zero.
fn ray_or_normal(point: &Vector3, dir: &Vector3, normal: &Vector3) -> (r: Ray)
    requires
        bounded3(dir@, VEC_LIM as int),
        norm_ok(normal@),
    ensures
        r@.origin == point@,
        r@.direction == dir_or_normal(dir@, normal@),
        unit_dir(r@.direction),
{
    if dir.x != 0 || dir.y != 0 || dir.z != 0 {
        proof {
            lemma_nonzero_rsq(dir@);
        }
        Ray::new(*point, *dir)
    } else {
        Ray::new(*point, *normal)
    }
}

impl Lambertian {
    pub fn new(albedo: Vector3) -> (r: Lambertian)
        requires
            in_unit_box(albedo@),
        ensures
            r.albedo == albedo,
            Material::Lambertian(r).wf(),
    {
        Lambertian { albedo }
    }

    /// Scatter with the unit-sphere sample given: the deterministic core of
    /// the diffuse bounce.
    pub fn scatter_with(&self, hit: &HitRecord, sample: &Vector3) -> (r: (Vector3, Ray))
        requires
            in_unit_box(self.albedo@),
            norm_ok(hit.normal@),
            bounded3(hit.point@, ORG_MAX as int),
            bounded3(sample@, FX_ONE as int),
        ensures
            (r.0@, r.1@) == lambertian_scatter_spec(*self, hit@, sample@),
            in_unit_box(r.0@),
            r.1@.origin == hit.point@,
            unit_dir(r.1@.direction),
    {
        let tangent = hit.point.plus(&hit.normal).plus(sample);
        let d = tangent.minus(&hit.point);
        proof {
            assert(d@ == v_add(hit@.normal, sample@));
        }
        (self.albedo, ray_or_normal(&hit.point, &d, &hit.normal))
    }
}

impl Metal {
    /// A metal with the given albedo; fuzz is clamped into `[0, 1]`.
    pub fn new(albedo: Vector3, fuzz: i128) -> (r: Metal)
        requires
            in_unit_box(albedo@),
        ensures
            r.albedo == albedo,
            r.fuzz == (if fuzz < 0 {
                0i128
            } else if fuzz < FX_ONE {
                fuzz
            } else {
                FX_ONE
            }),
            Material::Metal(r).wf(),
    {
        Metal {
            albedo,
            fuzz: if fuzz < 0 {
                0
            } else if fuzz < FX_ONE {
                fuzz
            } else {
                FX_ONE
            },
        }
    }

    /// Scatter with the unit-sphere sample given: the deterministic core of
    /// the fuzzy reflection, absorbing rays that would enter the surface.
    pub fn scatter_with(&self, ray: &Ray, hit: &HitRecord, sample: &Vector3) -> (r: Option<
        (Vector3, Ray),
    >)
        requires
            in_unit_box(self.albedo@),
            0 <= self.fuzz <= FX_ONE,
            unit_dir(ray@.direction),
            norm_ok(hit.normal@),
            bounded3(hit.point@, ORG_MAX as int),
            bounded3(sample@, FX_ONE as int),
        ensures
            match (r, metal_scatter_spec(*self, ray@, hit@, sample@)) {
                (Some(p), Some(q)) => (p.0@, p.1@) == q && in_unit_box(p.0@) && p.1@.origin
                    == hit.point@ && unit_dir(p.1@.direction),
                (None, None) => true,
                _ => false,
            },
    {
        let reflected = Vector3::reflect(&ray.direction, &hit.normal);
        proof {
            lemma_dot_bound(ray@.direction, hit@.normal, 131072, 786432);
            lemma_fmul_bound(hit@.normal.x, v_dot(ray@.direction, hit@.normal), 131072, 786432,
                1572864);
            lemma_fmul_bound(hit@.normal.y, v_dot(ray@.direction, hit@.normal), 131072, 786432,
                1572864);
            lemma_fmul_bound(hit@.normal.z, v_dot(ray@.direction, hit@.normal), 131072, 786432,
                1572864);
            lemma_scale_bound(sample@, self.fuzz as int, FX_ONE as int, FX_ONE as int,
                FX_ONE as int);
        }
        let d = reflected.plus(&sample.scale(self.fuzz));
        if d.x != 0 || d.y != 0 || d.z != 0 {
            proof {
                lemma_nonzero_rsq(d@);
            }
            let scattered = Ray::new(hit.point, d);
            let alignment = Vector3::dot(&scattered.direction, &hit.normal);
            if alignment > 0 {
                Some((self.albedo, scattered))
            } else {
                None
            }
        } else {
            None
        }
    }
}

impl Dielectric {
    /// A clear material; the refractive index must be at least one.
    pub fn new(refractive_index: i128) -> (r: Dielectric)
        requires
            FX_ONE <= refractive_index <= COORD_LIM,
        ensures
            r.refractive_index == refractive_index,
            Material::Dielectric(r).wf(),
    {
        Dielectric { refractive_index }
    }

    /// Whether this ray refracts at this hit, so that a caller can draw
    /// the stochastic coin only when the choice between refraction and
    /// reflection is actually open.
    pub fn refracts(&self, ray: &Ray, hit: &HitRecord) -> (b: bool)
        requires
            FX_ONE <= self.refractive_index <= COORD_LIM,
            unit_dir(ray@.direction),
            norm_ok(hit.normal@),
        ensures
            b == dielectric_refracts(*self, ray@, hit@),
    {
        let d = Vector3::dot(&ray.direction, &hit.normal);
        proof {
            lemma_dot_bound(ray@.direction, hit@.normal, 131072, 786432);
        }
        if d > 0 {
            Vector3::refract(&ray.direction, &hit.normal.neg(), self.refractive_index).is_some()
        } else {
            proof {
                lemma_dt_ge(FX_ONE as int * FX_ONE, self.refractive_index as int, 1);
                assert((COORD_LIM as int) * (self.refractive_index as int) >= (COORD_LIM as int)
                    * (FX_ONE as int)) by (nonlinear_arith)
                    requires
                        self.refractive_index >= FX_ONE,
                ;
                lemma_dt_le(FX_ONE as int * FX_ONE, self.refractive_index as int,
                    COORD_LIM as int);
            }
            Vector3::refract(&ray.direction, &hit.normal, fx_div(FX_ONE, self.refractive_index))
                .is_some()
        }
    }

    /// Scatter with the stochastic coin given: the deterministic core of
    /// refraction against reflection.  The medium absorbs nothing, so a
    /// scattered ray always comes back.
    pub fn scatter_with(&self, ray: &Ray, hit: &HitRecord, coin: i128) -> (r: (Vector3, Ray))
        requires
            FX_ONE <= self.refractive_index <= COORD_LIM,
            unit_dir(ray@.direction),
            norm_ok(hit.normal@),
            bounded3(hit.point@, ORG_MAX as int),
            0 <= coin < FX_ONE,
        ensures
            (r.0@, r.1@) == dielectric_scatter_spec(*self, ray@, hit@, coin as int),
            in_unit_box(r.0@),
            r.1@.origin == hit.point@,
            unit_dir(r.1@.direction),
    {
        let reflected = Vector3::reflect(&ray.direction, &hit.normal);
        let d = Vector3::dot(&ray.direction, &hit.normal);
        proof {
            lemma_dot_bound(ray@.direction, hit@.normal, 131072, 786432);
            lemma_fmul_bound(hit@.normal.x, d as int, 131072, 786432, 1572864);
            lemma_fmul_bound(hit@.normal.y, d as int, 131072, 786432, 1572864);
            lemma_fmul_bound(hit@.normal.z, d as int, 131072, 786432, 1572864);
        }
        let ni_over_nt: i128;
        let outward: Vector3;
        let mut cosine: i128;
        if d > 0 {
            proof {
                lemma_fmul_bound(self.refractive_index as int, d as int, COORD_LIM as int,
                    786432, 3221225472);
            }
            ni_over_nt = self.refractive_index;
            outward = hit.normal.neg();
            cosine = fx_mul(self.refractive_index, d);
        } else {
            proof {
                lemma_dt_ge(FX_ONE as int * FX_ONE, self.refractive_index as int, 1);
                assert((COORD_LIM as int) * (self.refractive_index as int) >= (COORD_LIM as int)
                    * (FX_ONE as int)) by (nonlinear_arith)
                    requires
                        self.refractive_index >= FX_ONE,
                ;
                lemma_dt_le(FX_ONE as int * FX_ONE, self.refractive_index as int,
                    COORD_LIM as int);
            }
            ni_over_nt = fx_div(FX_ONE, self.refractive_index);
            outward = hit.normal;
            cosine = -d;
        }
        if cosine > FX_ONE {
            cosine = FX_ONE;
        } else if cosine < -FX_ONE {
            cosine = -FX_ONE;
        }
        let attenuation = Vector3::new(FX_ONE, FX_ONE, FX_ONE);
        match Vector3::refract(&ray.direction, &outward, ni_over_nt) {
            Some(refracted) => {
                let reflect_prob = schlick(cosine, self.refractive_index);
                if coin < reflect_prob {
                    (attenuation, ray_or_normal(&hit.point, &reflected, &hit.normal))
                } else {
                    (attenuation, ray_or_normal(&hit.point, &refracted, &hit.normal))
                }
            },
            None => (attenuation, ray_or_normal(&hit.point, &reflected, &hit.normal)),
        }
    }
}

/// The Schlick reflectance approximation for a cosine in `[-1, 1]`.
pub fn schlick(cosine: i128, refractive_index: i128) -> (r: i128)
    requires
        -FX_ONE <= cosine <= FX_ONE,
        FX_ONE <= refractive_index <= COORD_LIM,
    ensures
        r == schlick_spec(cosine as int, refractive_index as int),
{
    proof {
        assert(((refractive_index - FX_ONE) as int) * (FX_ONE as int) <= (FX_ONE as int) * ((
        FX_ONE + refractive_index) as int)) by (nonlinear_arith)
            requires
                FX_ONE <= refractive_index,
        ;
        lemma_dt_le((FX_ONE - refractive_index) as int * (FX_ONE as int), (FX_ONE
            + refractive_index) as int, FX_ONE as int);
    }
    let r0a = fx_div(FX_ONE - refractive_index, FX_ONE + refractive_index);
    proof {
        lemma_fmul_bound(r0a as int, r0a as int, FX_ONE as int, FX_ONE as int, FX_ONE as int);
        assert(0 <= (r0a as int) * (r0a as int)) by (nonlinear_arith);
        lemma_dt_range((r0a as int) * (r0a as int), FX_ONE as int);
    }
    let r0 = fx_mul(r0a, r0a);
    let p = FX_ONE - cosine;
    proof {
        lemma_fmul_bound(p as int, p as int, 131072, 131072, 262144);
        assert(0 <= (p as int) * (p as int)) by (nonlinear_arith);
        lemma_dt_range((p as int) * (p as int), FX_ONE as int);
    }
    let p2 = fx_mul(p, p);
    proof {
        lemma_fmul_bound(p2 as int, p2 as int, 262144, 262144, 1048576);
        assert(0 <= (p2 as int) * (p2 as int)) by (nonlinear_arith);
        lemma_dt_range((p2 as int) * (p2 as int), FX_ONE as int);
    }
    let p4 = fx_mul(p2, p2);
    proof {
        lemma_fmul_bound(p4 as int, p as int, 1048576, 131072, 2097152);
    }
    let p5 = fx_mul(p4, p);
    proof {
        lemma_fmul_bound((FX_ONE - r0) as int, p5 as int, FX_ONE as int, 2097152, 2097152);
    }
    r0 + fx_mul(FX_ONE - r0, p5)
}

impl Material {
    /// Ask the material how the ray bounces at the hit: draw whatever
    /// random inputs the material consumes and run its deterministic core.
    /// `None` means the ray was absorbed; diffuse and clear materials
    /// always scatter.
    pub fn scatter(&self, ray: &Ray, hit: &HitRecord) -> (r: Option<(Vector3, Ray)>)
        requires
            self.wf(),
            unit_dir(ray@.direction),
            norm_ok(hit.normal@),
            bounded3(hit.point@, ORG_MAX as int),
        ensures
            r matches Some(p) ==> in_unit_box(p.0@) && p.1@.origin == hit.point@ && unit_dir(
                p.1@.direction,
            ),
            scatter_admissible(*self, ray@, hit@, opt_pair_view(r)),
    {
        match self {
            Material::Lambertian(l) => {
                let sample = random_in_unit_sphere();
                let p = l.scatter_with(hit, &sample);
                proof {
                    assert(sample_ok(sample@) && (p.0@, p.1@) == lambertian_scatter_spec(
                        *l,
                        hit@,
                        sample@,
                    ));
                }
                Some(p)
            },
            Material::Metal(m) => {
                let sample = random_in_unit_sphere();
                let r = m.scatter_with(ray, hit, &sample);
                proof {
                    assert(sample_ok(sample@) && opt_pair_view(r) == metal_scatter_spec(
                        *m,
                        ray@,
                        hit@,
                        sample@,
                    ));
                }
                r
            },
            Material::Dielectric(dl) => {
                // Draw the uniform number only when refraction is open,
                // as the recipe prescribes; on total internal reflection
                // the core ignores the coin.
                let coin = if dl.refracts(ray, hit) {
                    random_fx()
                } else {
                    0
                };
                let p = dl.scatter_with(ray, hit, coin);
                proof {
                    assert(0 <= coin < FX_ONE && (p.0@, p.1@) == dielectric_scatter_spec(
                        *dl,
                        ray@,
                        hit@,
                        coin as int,
                    ));
                }
                Some(p)
            },
        }
    }
}

} // verus!

verus! {

/// A clear material with refractive index exactly one never reflects a ray
/// at normal incidence: the Schlick reflectance is zero there, so whatever
/// the stochastic coin shows, the ray refracts, and the refracted
/// direction equals the incoming direction exactly — the medium bends
/// nothing.
pub proof fn lemma_dielectric_index_one(mat: Dielectric, rv: RayV, hr: HRec, coin: int)
    requires
        mat.refractive_index == FX_ONE,
        rsq(hr.normal) == FX_ONE * FX_ONE,
        rv.direction == v_neg(hr.normal),
        0 <= coin,
    ensures
        schlick_spec(FX_ONE as int, FX_ONE as int) == 0,
        dielectric_scatter_spec(mat, rv, hr, coin).1.direction == rv.direction,
{
    let n = hr.normal;
    let one = FX_ONE as int;
    vstd::arithmetic::div_mod::lemma_div_of0(one);
    vstd::arithmetic::div_mod::lemma_div_of0(2 * one);
    // schlick_spec(1, 1) == 0: the numerator of r0 and the cosine term both vanish.
    assert(fdiv(0, 2 * one) == 0);
    assert(fmul(0, 0) == dt(0, one) && dt(0, one) == 0);
    assert(fmul(one, 0) == dt(0, one));
    assert(schlick_spec(one, one) == 0);
    // The incoming direction is exactly unit, so it normalizes to itself.
    assert(rsq(v_neg(n)) == rsq(n)) by (nonlinear_arith);
    crate::geometry::lemma_unit_normalized(v_neg(n));
    // Its dot with the normal is exactly minus one.
    assert(rdot(v_neg(n), n) == -(one * one)) by (nonlinear_arith)
        requires
            rsq(n) == one * one,
    ;
    crate::fixed::lemma_dt_exact(one, one);
    crate::fixed::lemma_dt_neg(one * one, one);
    assert(v_dot(v_neg(n), n) == -one);
    let d = v_dot(rv.direction, n);
    assert(d == -one);
    // Entering the medium: the ratio is 1/1 == 1, the outward normal is n.
    assert(fdiv(one, one) == dt(one * one, one));
    assert(fdiv(one, one) == one);
    // The refraction discriminant is exactly one, so refraction happens.
    assert(fmul(-one, -one) == dt(one * one, one)) by {
        assert((-one) * (-one) == one * one) by (nonlinear_arith);
    };
    assert(fmul(one, one - fmul(-one, -one)) == dt(0, one)) by {
        assert(one * 0 == 0) by (nonlinear_arith);
    };
    let disc = one - fmul(fmul(one, one), one - fmul(v_dot(v_neg(n), n), v_dot(v_neg(n), n)));
    assert(fmul(one, one) == one);
    assert(disc == one);
    // Its square root is one, and the refracted vector collapses to -n.
    crate::fixed::lemma_sqrt_floor(one * one);
    crate::fixed::lemma_sqrt_unique(one * one, crate::fixed::sqrt_floor(one * one), one);
    assert(fsqrt(one) == one);
    assert(v_scale(n, -one) == v_neg(n)) by {
        assert(n.x * -one == -(n.x * one) && n.y * -one == -(n.y * one) && n.z * -one == -(n.z
            * one)) by (nonlinear_arith);
        crate::fixed::lemma_dt_exact(n.x, one);
        crate::fixed::lemma_dt_exact(n.y, one);
        crate::fixed::lemma_dt_exact(n.z, one);
        crate::fixed::lemma_dt_neg(n.x * one, one);
        crate::fixed::lemma_dt_neg(n.y * one, one);
        crate::fixed::lemma_dt_neg(n.z * one, one);
    };
    let zero = V3 { x: 0, y: 0, z: 0 };
    assert(v_sub(v_neg(n), v_neg(n)) == zero);
    assert(v_scale(zero, one) == zero) by {
        assert(0 * one == 0) by (nonlinear_arith);
    };
    assert(v_scale(n, one) == n) by {
        crate::fixed::lemma_dt_exact(n.x, one);
        crate::fixed::lemma_dt_exact(n.y, one);
        crate::fixed::lemma_dt_exact(n.z, one);
    };
    assert(v_refract(rv.direction, n, one) == Some(v_neg(n)));
    // The normal, hence the refracted vector, is not the zero vector.
    assert(nonzero3(n)) by {
        if n.x == 0 && n.y == 0 && n.z == 0 {
            assert(rsq(n) == 0) by (nonlinear_arith)
                requires
                    n.x == 0 && n.y == 0 && n.z == 0,
            ;
        }
    };
    assert(nonzero3(v_neg(n)));
    // Reflectance zero and a nonnegative coin force the refraction branch.
    assert(clamp_unit(-d) == one);
    assert(dielectric_scatter_spec(mat, rv, hr, coin).1.direction == dir_or_normal(
        v_neg(n),
        n,
    ));
    crate::geometry::lemma_unit_normalized(v_neg(n));
}

} // verus!
