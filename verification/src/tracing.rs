//! The scene aggregate, the shading integrator, and the camera.

use vstd::prelude::*;

use crate::fixed::{dt, fmul, lemma_dt_exact, lemma_dt_le, lemma_dt_mono, lemma_dt_range,
    lemma_fmul_bound, lemma_mul_le, lemma_mul_succ, FX_ONE};
use crate::geometry::{bounded3, in_unit_box, lemma_scale_bound, norm_ok, rsq, unit_dir, v_add,
    v_scale, v_sub, Ray, RayV, Vector3, V3};
use crate::material::Material;

verus! {

/// Lower bound of every shading intersection query: a guard against a
/// bounced ray immediately re-hitting its own origin (about `0.001`).
pub const EPS: i128 = 66;

/// The bounce budget of the integrator.
pub const MAX_DEPTH: u32 = 50;

/// The mathematical model of a `HitRecord`.
pub struct HRec {
    pub t: int,
    pub point: V3,
    pub normal: V3,
    pub material: Material,
}

/// What an intersection test reports: the ray parameter, the point struck,
/// the outward unit normal there, and the material of the struck object.
pub struct HitRecord {
    pub t: i128,
    pub point: Vector3,
    pub normal: Vector3,
    pub material: Material,
}

impl View for HitRecord {
    type V = HRec;

    open spec fn view(&self) -> HRec {
        HRec { t: self.t as int, point: self.point@, normal: self.normal@, material: self.material }
    }
}

/// The background: a vertical gradient from white at the bottom to sky
/// blue at the top, interpolated by the ray direction's height.
pub open spec fn background_spec(d: V3) -> V3 {
    let t = dt(d.y + FX_ONE, 2);
    v_add(
        v_scale(V3 { x: FX_ONE as int, y: FX_ONE as int, z: FX_ONE as int }, FX_ONE - t),
        v_scale(V3 { x: 32768, y: 45875, z: FX_ONE as int }, t),
    )
}

/// The background gradient is a color: every channel stays in the unit box.
pub proof fn lemma_background_box(d: V3)
    requires
        -FX_ONE <= d.y <= FX_ONE,
    ensures
        in_unit_box(background_spec(d)),
{
    let t = dt(d.y + FX_ONE, 2);
    lemma_dt_range(d.y + FX_ONE, 2);
    lemma_dt_le(d.y + FX_ONE, 2, FX_ONE as int);
    lemma_dt_exact(FX_ONE - t, FX_ONE as int);
    lemma_dt_exact(t, FX_ONE as int);
    assert(fmul(FX_ONE as int, FX_ONE - t) == FX_ONE - t);
    assert(fmul(FX_ONE as int, t) == t);
    lemma_mul_le(32768, t, 32768, FX_ONE as int);
    lemma_mul_le(45875, t, 45875, FX_ONE as int);
    lemma_dt_range(32768 * t, FX_ONE as int);
    lemma_dt_range(45875 * t, FX_ONE as int);
    assert(32768 * t <= FX_ONE * t && 45875 * t <= FX_ONE * t) by (nonlinear_arith)
        requires
            0 <= t,
    ;
    lemma_dt_mono(32768 * t, FX_ONE * t, FX_ONE as int);
    lemma_dt_mono(45875 * t, FX_ONE * t, FX_ONE as int);
    assert(FX_ONE * t == t * FX_ONE) by (nonlinear_arith);
    lemma_dt_exact(t, FX_ONE as int);
}

/// The background gradient for a ray direction, exactly as
/// `background_spec` states it.
pub fn background_color(direction: &Vector3) -> (c: Vector3)
    requires
        bounded3(direction@, FX_ONE as int),
    ensures
        c@ == background_spec(direction@),
        in_unit_box(c@),
{
    proof {
        lemma_background_box(direction@);
        let t = dt(direction@.y + FX_ONE, 2);
        lemma_dt_range(direction@.y + FX_ONE, 2);
        lemma_dt_le(direction@.y + FX_ONE, 2, FX_ONE as int);
        lemma_mul_le(FX_ONE as int, FX_ONE - t, FX_ONE as int, FX_ONE as int);
        lemma_mul_le(32768, t, FX_ONE as int, FX_ONE as int);
        lemma_mul_le(45875, t, FX_ONE as int, FX_ONE as int);
        lemma_mul_le(FX_ONE as int, t, FX_ONE as int, FX_ONE as int);
    }
    let t = (direction.y + FX_ONE) / 2;
    let white = Vector3::new(FX_ONE, FX_ONE, FX_ONE);
    let sky = Vector3::new(32768, 45875, FX_ONE);
    white.scale(FX_ONE - t).plus(&sky.scale(t))
}

} // verus!

verus! {

/// The view of an optional hit record.
pub open spec fn hit_view(o: Option<HitRecord>) -> Option<HRec> {
    match o {
        Some(h) => Some(h@),
        None => None,
    }
}

/// What the linear scan of the scene reports: each member is queried with
/// the interval narrowed to the best parameter found so far, and the last
/// report wins.
pub open spec fn world_hit_spec(ss: Seq<crate::geometry::Sphere>, rv: RayV, t_min: int, t_max: int) -> Option<HRec>
    decreases ss.len(),
{
    if ss.len() == 0 {
        None
    } else {
        let prev = world_hit_spec(ss.drop_last(), rv, t_min, t_max);
        let cur_max = match prev {
            Some(h) => h.t,
            None => t_max,
        };
        match crate::geometry::sphere_hit_spec(ss.last(), rv, t_min, cur_max) {
            Some(h) => Some(h),
            None => prev,
        }
    }
}

/// The scene aggregate: an ordered collection of spheres, scanned linearly
/// for the nearest intersection.
pub struct HitWorld {
    targets: Vec<crate::geometry::Sphere>,
}

impl View for HitWorld {
    type V = Seq<crate::geometry::Sphere>;

    closed spec fn view(&self) -> Seq<crate::geometry::Sphere> {
        self.targets@
    }
}

impl HitWorld {
    /// Every member is well-formed.
    pub open spec fn wf(self) -> bool {
        forall|i: int| 0 <= i < self@.len() ==> (#[trigger] self@[i]).wf()
    }

    pub fn new() -> (w: HitWorld)
        ensures
            w@.len() == 0,
            w.wf(),
    {
        HitWorld { targets: Vec::new() }
    }

    /// Append a shape to the scene.
    pub fn add(&mut self, target: crate::geometry::Sphere)
        requires
            old(self).wf(),
            target.wf(),
        ensures
            final(self)@ == old(self)@.push(target),
            final(self).wf(),
    {
        self.targets.push(target);
        proof {
            assert forall|i: int| 0 <= i < self@.len() implies (#[trigger] self@[i]).wf() by {
                if i < old(self)@.len() {
                    assert(self@[i] == old(self)@[i]);
                } else {
                    assert(self@[i] == target);
                }
            }
        }
    }

    /// The nearest intersection of the ray with any member over the open
    /// interval `(t_min, t_max)`.  On a hit, no member intersects the ray
    /// anywhere before the returned parameter — regardless of insertion
    /// order, the record with the smallest parameter wins.
    pub fn hit(&self, ray: &Ray, t_min: i128, t_max: i128) -> (r: Option<HitRecord>)
        requires
            self.wf(),
            unit_dir(ray@.direction),
            bounded3(ray@.origin, crate::geometry::ORG_MAX as int),
            0 <= t_min,
            t_max <= crate::geometry::T_FAR,
        ensures
            hit_view(r) == world_hit_spec(self@, ray@, t_min as int, t_max as int),
            r matches Some(h) ==> t_min < h.t < t_max && bounded3(h@.normal,
                crate::geometry::NORMAL_LIM as int) && h.material.wf() && bounded3(
                v_sub(h@.point, ray@.origin),
                t_max as int,
            ),
            r matches Some(h) ==> forall|i: int| 0 <= i < self@.len()
                ==> crate::geometry::sphere_hit_spec(self@[i], ray@, t_min as int, h@.t) is None,
            r is None ==> forall|i: int| 0 <= i < self@.len()
                ==> crate::geometry::sphere_hit_spec(self@[i], ray@, t_min as int, t_max as int)
                is None,
    {
        let mut result: Option<HitRecord> = None;
        let mut closest = t_max;
        let mut idx: usize = 0;
        while idx < self.targets.len()
            invariant
                0 <= idx <= self.targets@.len(),
                self.wf(),
                unit_dir(ray@.direction),
                bounded3(ray@.origin, crate::geometry::ORG_MAX as int),
                0 <= t_min,
                t_max <= crate::geometry::T_FAR,
                hit_view(result) == world_hit_spec(
                    self@.subrange(0, idx as int),
                    ray@,
                    t_min as int,
                    t_max as int,
                ),
                result matches Some(h) ==> closest == h.t && t_min < h.t < t_max && bounded3(
                    h@.normal,
                    crate::geometry::NORMAL_LIM as int,
                ) && h.material.wf() && bounded3(v_sub(h@.point, ray@.origin), t_max as int),
                result is None ==> closest == t_max,
                forall|j: int| 0 <= j < idx
                    ==> crate::geometry::sphere_hit_spec(self@[j], ray@, t_min as int,
                    closest as int) is None,
            decreases self.targets@.len() - idx,
        {
            match self.targets[idx].hit(ray, t_min, closest) {
                Some(rec) => {
                    proof {
                        assert forall|j: int| 0 <= j < idx implies crate::geometry::sphere_hit_spec(
                            self@[j],
                            ray@,
                            t_min as int,
                            rec.t as int,
                        ) is None by {
                            crate::geometry::lemma_sphere_hit_tighter(self@[j], ray@,
                                t_min as int, rec.t as int, closest as int);
                        }
                        crate::geometry::lemma_sphere_hit_self(self@[idx as int], ray@,
                            t_min as int, closest as int, rec@);
                    }
                    closest = rec.t;
                    result = Some(rec);
                },
                None => {},
            }
            proof {
                assert(self@.subrange(0, idx + 1).drop_last() =~= self@.subrange(0, idx as int));
                assert(self@.subrange(0, idx + 1).last() == self@[idx as int]);
            }
            idx = idx + 1;
        }
        proof {
            assert(self@.subrange(0, idx as int) =~= self@);
        }
        result
    }
}

/// Color channels multiply within the unit box.
pub proof fn lemma_unit_mul(a: V3, b: V3)
    requires
        in_unit_box(a),
        in_unit_box(b),
    ensures
        in_unit_box(crate::geometry::v_mul(a, b)),
{
    lemma_mul_le(a.x, b.x, FX_ONE as int, FX_ONE as int);
    lemma_mul_le(a.y, b.y, FX_ONE as int, FX_ONE as int);
    lemma_mul_le(a.z, b.z, FX_ONE as int, FX_ONE as int);
    assert(0 <= a.x * b.x && 0 <= a.y * b.y && 0 <= a.z * b.z) by (nonlinear_arith)
        requires
            0 <= a.x && 0 <= b.x && 0 <= a.y && 0 <= b.y && 0 <= a.z && 0 <= b.z,
    ;
    lemma_dt_range(a.x * b.x, FX_ONE as int);
    lemma_dt_range(a.y * b.y, FX_ONE as int);
    lemma_dt_range(a.z * b.z, FX_ONE as int);
    lemma_dt_le(a.x * b.x, FX_ONE as int, FX_ONE as int);
    lemma_dt_le(a.y * b.y, FX_ONE as int, FX_ONE as int);
    lemma_dt_le(a.z * b.z, FX_ONE as int, FX_ONE as int);
}

/// What the shading recursion may hand back for one admissible material
/// outcome: an absorbed ray yields black; a scattered ray yields the
/// outcome's attenuation times a unit-box color from the rest of the walk,
/// which is exactly the background if the scattered ray misses the scene,
/// and black if it hits with the bounce budget spent.
pub open spec fn bounce_result_ok(
    out: Option<(V3, RayV)>,
    ss: Seq<crate::geometry::Sphere>,
    next_depth: u32,
    c: V3,
) -> bool {
    match out {
        None => c == (V3 { x: 0, y: 0, z: 0 }),
        Some(p) => exists|rest: V3|
            {
                &&& #[trigger] in_unit_box(rest)
                &&& c == crate::geometry::v_mul(p.0, rest)
                &&& world_hit_spec(ss, p.1, EPS as int, crate::geometry::T_FAR as int) is None
                    ==> rest == background_spec(p.1.direction)
                &&& world_hit_spec(ss, p.1, EPS as int, crate::geometry::T_FAR as int) is Some
                    && next_depth == MAX_DEPTH ==> rest == (V3 { x: 0, y: 0, z: 0 })
            },
    }
}

/// What `ray_color` guarantees of a hit below the bounce budget: if the
/// record's normal is fit for shading, some admissible outcome of its
/// material explains the color as `bounce_result_ok` states; a record
/// whose rounded normal left the unit band shades as absorbed.
pub open spec fn hit_shading_ok(
    wh: Option<HRec>,
    depth: u32,
    rv: RayV,
    ss: Seq<crate::geometry::Sphere>,
    c: V3,
) -> bool {
    match wh {
        Some(h) => depth < MAX_DEPTH ==> if norm_ok(h.normal) {
            exists|out: Option<(V3, RayV)>|
                #[trigger] crate::material::scatter_admissible(h.material, rv, h, out)
                    && bounce_result_ok(out, ss, (depth + 1) as u32, c)
        } else {
            c == (V3 { x: 0, y: 0, z: 0 })
        },
        None => true,
    }
}

/// Whether a reported normal is fit for shading: unit-scale within the
/// rounding band.
fn normal_in_band(n: &Vector3) -> (b: bool)
    requires
        bounded3(n@, crate::geometry::NORMAL_LIM as int),
    ensures
        b == norm_ok(n@),
{
    if -131072 <= n.x && n.x <= 131072 && -131072 <= n.y && n.y <= 131072 && -131072 <= n.z
        && n.z <= 131072 {
        proof {
            lemma_mul_le(n@.x, n@.x, 131072, 131072);
            lemma_mul_le(n@.y, n@.y, 131072, 131072);
            lemma_mul_le(n@.z, n@.z, 131072, 131072);
        }
        let nr = n.x * n.x + n.y * n.y + n.z * n.z;
        4026531840 <= nr && nr <= 4563402752
    } else {
        false
    }
}

/// The shading integrator: follow the ray into the scene, bounce it off
/// the materials it strikes, and accumulate attenuation, up to `MAX_DEPTH`
/// bounces.  A miss returns the background gradient exactly; a hit below
/// the budget shades as `hit_shading_ok` states — black when the material
/// absorbs the ray, attenuation times the rest of the walk when it
/// scatters; a hit with the budget spent is black; every result is a
/// color in the unit box.  Termination is by the bounce budget alone,
/// whatever the materials do.
pub fn ray_color(r: &Ray, target: &HitWorld, depth: u32) -> (c: Vector3)
    requires
        target.wf(),
        unit_dir(r@.direction),
        depth <= MAX_DEPTH,
        bounded3(r@.origin, crate::geometry::COORD_LIM + depth as int * (
        crate::geometry::T_FAR as int)),
    ensures
        in_unit_box(c@),
        world_hit_spec(target@, r@, EPS as int, crate::geometry::T_FAR as int) is None ==> c@
            == background_spec(r@.direction),
        world_hit_spec(target@, r@, EPS as int, crate::geometry::T_FAR as int) is Some && depth
            == MAX_DEPTH ==> c@ == (V3 { x: 0, y: 0, z: 0 }),
        hit_shading_ok(
            world_hit_spec(target@, r@, EPS as int, crate::geometry::T_FAR as int),
            depth,
            r@,
            target@,
            c@,
        ),
    decreases MAX_DEPTH - depth,
{
    proof {
        assert(depth as int * (crate::geometry::T_FAR as int) <= 50 * (
        crate::geometry::T_FAR as int)) by (nonlinear_arith)
            requires
                0 <= depth <= 50,
        ;
    }
    match target.hit(r, EPS, crate::geometry::T_FAR) {
        Some(h) => {
            if depth < MAX_DEPTH {
                if normal_in_band(&h.normal) {
                    match h.material.scatter(r, &h) {
                        Some((attenuation, scattered)) => {
                            proof {
                                lemma_mul_succ(depth as int, crate::geometry::T_FAR as int);
                            }
                            let rec = ray_color(&scattered, target, depth + 1);
                            proof {
                                lemma_unit_mul(attenuation@, rec@);
                            }
                            let out = attenuation.mul_v(&rec);
                            proof {
                                let ghost sc = Some((attenuation@, scattered@));
                                assert(bounce_result_ok(sc, target@, (depth + 1) as u32, out@));
                                assert(crate::material::scatter_admissible(h.material, r@, h@,
                                    sc) && bounce_result_ok(sc, target@, (depth + 1) as u32, out@));
                            }
                            out
                        },
                        None => {
                            proof {
                                let ghost sc = None::<(V3, RayV)>;
                                assert(crate::material::scatter_admissible(h.material, r@, h@,
                                    sc) && bounce_result_ok(sc, target@, (depth + 1) as u32,
                                    (V3 { x: 0, y: 0, z: 0 })));
                            }
                            Vector3::new(0, 0, 0)
                        },
                    }
                } else {
                    Vector3::new(0, 0, 0)
                }
            } else {
                Vector3::new(0, 0, 0)
            }
        },
        None => background_color(&r.direction),
    }
}

} // verus!

verus! {

/// Bound on the derived camera vectors.
pub const CAM_LIM: i128 = 2147483648;

/// A point of the unit lens disk.
pub open spec fn in_disk(rd: V3) -> bool {
    &&& bounded3(rd, FX_ONE as int)
    &&& rsq(rd) < FX_ONE * FX_ONE
    &&& rd.z == 0
}

/// The camera's backward axis.
pub open spec fn camera_w(lookfrom: V3, lookat: V3) -> V3 {
    crate::geometry::v_normalized(v_sub(lookfrom, lookat))
}

/// The camera's rightward axis.
pub open spec fn camera_u(lookfrom: V3, lookat: V3, vup: V3) -> V3 {
    crate::geometry::v_normalized(crate::geometry::v_cross(vup, camera_w(lookfrom, lookat)))
}

/// The camera's upward axis.
pub open spec fn camera_v(lookfrom: V3, lookat: V3, vup: V3) -> V3 {
    crate::geometry::v_cross(camera_w(lookfrom, lookat), camera_u(lookfrom, lookat, vup))
}

/// The view-ray direction a camera derives for image coordinates `(s, t)`.
pub open spec fn camera_dir_spec(c: Camera, s: int, t: int) -> V3 {
    v_sub(
        v_add(
            v_add(c.lower_left_corner@, v_scale(c.horizontal@, s)),
            v_scale(c.vertical@, t),
        ),
        c.origin@,
    )
}

/// The ray a camera emits for `(s, t)` under the lens sample `rd`: the
/// origin shifts onto the lens, the target stays, and a direction that
/// rounded to zero falls back to the pinhole ray.
pub open spec fn camera_ray_spec(c: Camera, s: int, t: int, rd: V3) -> RayV {
    let off = v_scale(rd, c.lens_radius as int);
    let base = camera_dir_spec(c, s, t);
    let d2 = v_sub(base, off);
    if crate::geometry::nonzero3(d2) {
        RayV { origin: v_add(c.origin@, off), direction: crate::geometry::v_normalized(d2) }
    } else {
        RayV { origin: c.origin@, direction: crate::geometry::v_normalized(base) }
    }
}

/// The camera: an origin and the derived image-plane frame, plus a lens
/// radius for depth of field (zero means a pinhole).
#[derive(Debug)]
pub struct Camera {
    pub origin: Vector3,
    pub lower_left_corner: Vector3,
    pub horizontal: Vector3,
    pub vertical: Vector3,
    pub lens_radius: i128,
}

impl Camera {
    /// The derived fields stay representable.
    pub open spec fn wf(self) -> bool {
        &&& bounded3(self.origin@, crate::geometry::COORD_LIM as int)
        &&& bounded3(self.lower_left_corner@, CAM_LIM as int)
        &&& bounded3(self.horizontal@, CAM_LIM as int)
        &&& bounded3(self.vertical@, CAM_LIM as int)
        &&& 0 <= self.lens_radius <= crate::geometry::COORD_LIM
    }

    /// A pinhole camera.  The caller supplies the tangent of half the
    /// vertical field of view, since trigonometry has no place in
    /// fixed-point scalars; the driving program computes it once.
    pub fn new(
        lookfrom: Vector3,
        lookat: Vector3,
        vup: Vector3,
        tan_half_vfov: i128,
        aspect: i128,
    ) -> (r: Camera)
        requires
            bounded3(lookfrom@, crate::geometry::COORD_LIM as int),
            bounded3(lookat@, crate::geometry::COORD_LIM as int),
            bounded3(vup@, crate::geometry::COORD_LIM as int),
            0 < tan_half_vfov <= 1048576,
            0 < aspect <= 1048576,
            1 <= rsq(v_sub(lookfrom@, lookat@)),
            1 <= rsq(crate::geometry::v_cross(vup@, camera_w(lookfrom@, lookat@))),
        ensures
            r.origin == lookfrom,
            r.lens_radius == 0,
            ({
                let w = camera_w(lookfrom@, lookat@);
                let u = camera_u(lookfrom@, lookat@, vup@);
                let v = camera_v(lookfrom@, lookat@, vup@);
                let hw = crate::fixed::fmul(aspect as int, tan_half_vfov as int);
                &&& r.lower_left_corner@ == v_sub(
                    v_sub(v_sub(lookfrom@, v_scale(u, hw)), v_scale(v, tan_half_vfov as int)),
                    w,
                )
                &&& r.horizontal@ == v_scale(v_scale(u, hw), 2 * FX_ONE as int)
                &&& r.vertical@ == v_scale(
                    v_scale(v, tan_half_vfov as int),
                    2 * FX_ONE as int,
                )
            }),
            r.wf(),
    {
        let w = lookfrom.minus(&lookat).normalized();
        let cu = Vector3::cross(&vup, &w);
        proof {
            lemma_fmul_bound(vup@.x, w@.y, crate::geometry::COORD_LIM as int, FX_ONE as int,
                crate::geometry::COORD_LIM as int);
            lemma_fmul_bound(vup@.x, w@.z, crate::geometry::COORD_LIM as int, FX_ONE as int,
                crate::geometry::COORD_LIM as int);
            lemma_fmul_bound(vup@.y, w@.x, crate::geometry::COORD_LIM as int, FX_ONE as int,
                crate::geometry::COORD_LIM as int);
            lemma_fmul_bound(vup@.y, w@.z, crate::geometry::COORD_LIM as int, FX_ONE as int,
                crate::geometry::COORD_LIM as int);
            lemma_fmul_bound(vup@.z, w@.x, crate::geometry::COORD_LIM as int, FX_ONE as int,
                crate::geometry::COORD_LIM as int);
            lemma_fmul_bound(vup@.z, w@.y, crate::geometry::COORD_LIM as int, FX_ONE as int,
                crate::geometry::COORD_LIM as int);
        }
        let u = cu.normalized();
        let v = Vector3::cross(&w, &u);
        proof {
            lemma_fmul_bound(w@.x, u@.y, FX_ONE as int, FX_ONE as int, FX_ONE as int);
            lemma_fmul_bound(w@.x, u@.z, FX_ONE as int, FX_ONE as int, FX_ONE as int);
            lemma_fmul_bound(w@.y, u@.x, FX_ONE as int, FX_ONE as int, FX_ONE as int);
            lemma_fmul_bound(w@.y, u@.z, FX_ONE as int, FX_ONE as int, FX_ONE as int);
            lemma_fmul_bound(w@.z, u@.x, FX_ONE as int, FX_ONE as int, FX_ONE as int);
            lemma_fmul_bound(w@.z, u@.y, FX_ONE as int, FX_ONE as int, FX_ONE as int);
            lemma_fmul_bound(aspect as int, tan_half_vfov as int, 1048576, 1048576, 16777216);
        }
        let half_width = crate::fixed::fx_mul(aspect, tan_half_vfov);
        proof {
            lemma_scale_bound(u@, half_width as int, FX_ONE as int, 16777216, 16777216);
            lemma_scale_bound(v@, tan_half_vfov as int, 131072, 1048576, 2097152);
        }
        let uhw = u.scale(half_width);
        let vth = v.scale(tan_half_vfov);
        proof {
            lemma_scale_bound(uhw@, 2 * FX_ONE as int, 16777216, 131072, 33554432);
            lemma_scale_bound(vth@, 2 * FX_ONE as int, 2097152, 131072, 4194304);
        }
        Camera {
            origin: lookfrom,
            lower_left_corner: lookfrom.minus(&uhw).minus(&vth).minus(&w),
            horizontal: uhw.scale(2 * FX_ONE),
            vertical: vth.scale(2 * FX_ONE),
            lens_radius: 0,
        }
    }

    /// The ray through image coordinates `(s, t)`, both in `[0, 1]`.  With
    /// a positive lens radius the origin is jittered on the lens disk for
    /// depth of field; whatever the lens sample, the emitted ray is
    /// `camera_ray_spec` of that sample.
    pub fn get_ray(&self, s: i128, t: i128) -> (r: Ray)
        requires
            self.wf(),
            0 <= s <= FX_ONE,
            0 <= t <= FX_ONE,
            crate::geometry::nonzero3(camera_dir_spec(*self, s as int, t as int)),
        ensures
            exists|rd: V3|
                in_disk(rd) && r@ == camera_ray_spec(*self, s as int, t as int, rd),
            self.lens_radius == 0 ==> r@ == (RayV {
                origin: self.origin@,
                direction: crate::geometry::v_normalized(
                    camera_dir_spec(*self, s as int, t as int),
                ),
            }),
            unit_dir(r@.direction),
    {
        proof {
            lemma_scale_bound(self.horizontal@, s as int, CAM_LIM as int, FX_ONE as int,
                CAM_LIM as int);
            lemma_scale_bound(self.vertical@, t as int, CAM_LIM as int, FX_ONE as int,
                CAM_LIM as int);
        }
        let base = self.lower_left_corner.plus(&self.horizontal.scale(s)).plus(
            &self.vertical.scale(t),
        ).minus(&self.origin);
        let ghost zero = V3 { x: 0, y: 0, z: 0 };
        if self.lens_radius > 0 {
            let rd = crate::utils::random_in_unit_disk();
            proof {
                lemma_scale_bound(rd@, self.lens_radius as int, FX_ONE as int,
                    crate::geometry::COORD_LIM as int, crate::geometry::COORD_LIM as int);
            }
            let off = rd.scale(self.lens_radius);
            let d2 = base.minus(&off);
            if d2.x != 0 || d2.y != 0 || d2.z != 0 {
                proof {
                    crate::geometry::lemma_nonzero_rsq(d2@);
                }
                let r = Ray::new(self.origin.plus(&off), d2);
                proof {
                    assert(in_disk(rd@) && r@ == camera_ray_spec(*self, s as int, t as int,
                        rd@));
                }
                r
            } else {
                proof {
                    crate::geometry::lemma_nonzero_rsq(base@);
                }
                let r = Ray::new(self.origin, base);
                proof {
                    assert(in_disk(rd@) && r@ == camera_ray_spec(*self, s as int, t as int,
                        rd@));
                }
                r
            }
        } else {
            proof {
                crate::geometry::lemma_nonzero_rsq(base@);
            }
            let r = Ray::new(self.origin, base);
            proof {
                vstd::arithmetic::div_mod::lemma_div_of0(FX_ONE as int);
                assert(crate::fixed::fmul(0, self.lens_radius as int) == 0);
                assert(v_scale(zero, self.lens_radius as int) == zero);
                assert(v_sub(base@, zero) == base@);
                assert(v_add(self.origin@, zero) == self.origin@);
                assert(in_disk(zero) && r@ == camera_ray_spec(*self, s as int, t as int, zero));
            }
            r
        }
    }
}

} // verus!

verus! {

impl Camera {
    /// A camera with depth of field: the image-plane extents scale to the
    /// focus distance, and rays start from a lens disk of half the given
    /// aperture, so that all rays through one image point converge at the
    /// focus plane.
    pub fn new_with_lens(
        lookfrom: Vector3,
        lookat: Vector3,
        vup: Vector3,
        tan_half_vfov: i128,
        aspect: i128,
        aperture: i128,
        focus_dist: i128,
    ) -> (r: Camera)
        requires
            bounded3(lookfrom@, crate::geometry::COORD_LIM as int),
            bounded3(lookat@, crate::geometry::COORD_LIM as int),
            bounded3(vup@, crate::geometry::COORD_LIM as int),
            0 < tan_half_vfov <= 1048576,
            0 < aspect <= 1048576,
            0 <= aperture <= crate::geometry::COORD_LIM,
            0 < focus_dist <= 4194304,
            1 <= rsq(v_sub(lookfrom@, lookat@)),
            1 <= rsq(crate::geometry::v_cross(vup@, camera_w(lookfrom@, lookat@))),
        ensures
            r.origin == lookfrom,
            r.lens_radius == aperture / 2,
            ({
                let w = camera_w(lookfrom@, lookat@);
                let u = camera_u(lookfrom@, lookat@, vup@);
                let v = camera_v(lookfrom@, lookat@, vup@);
                let hwf = crate::fixed::fmul(
                    crate::fixed::fmul(aspect as int, tan_half_vfov as int),
                    focus_dist as int,
                );
                let hhf = crate::fixed::fmul(tan_half_vfov as int, focus_dist as int);
                &&& r.lower_left_corner@ == v_sub(
                    v_sub(v_sub(lookfrom@, v_scale(u, hwf)), v_scale(v, hhf)),
                    v_scale(w, focus_dist as int),
                )
                &&& r.horizontal@ == v_scale(v_scale(u, hwf), 2 * FX_ONE as int)
                &&& r.vertical@ == v_scale(v_scale(v, hhf), 2 * FX_ONE as int)
            }),
            r.wf(),
    {
        let w = lookfrom.minus(&lookat).normalized();
        let cu = Vector3::cross(&vup, &w);
        proof {
            lemma_fmul_bound(vup@.x, w@.y, crate::geometry::COORD_LIM as int, FX_ONE as int,
                crate::geometry::COORD_LIM as int);
            lemma_fmul_bound(vup@.x, w@.z, crate::geometry::COORD_LIM as int, FX_ONE as int,
                crate::geometry::COORD_LIM as int);
            lemma_fmul_bound(vup@.y, w@.x, crate::geometry::COORD_LIM as int, FX_ONE as int,
                crate::geometry::COORD_LIM as int);
            lemma_fmul_bound(vup@.y, w@.z, crate::geometry::COORD_LIM as int, FX_ONE as int,
                crate::geometry::COORD_LIM as int);
            lemma_fmul_bound(vup@.z, w@.x, crate::geometry::COORD_LIM as int, FX_ONE as int,
                crate::geometry::COORD_LIM as int);
            lemma_fmul_bound(vup@.z, w@.y, crate::geometry::COORD_LIM as int, FX_ONE as int,
                crate::geometry::COORD_LIM as int);
        }
        let u = cu.normalized();
        let v = Vector3::cross(&w, &u);
        proof {
            lemma_fmul_bound(w@.x, u@.y, FX_ONE as int, FX_ONE as int, FX_ONE as int);
            lemma_fmul_bound(w@.x, u@.z, FX_ONE as int, FX_ONE as int, FX_ONE as int);
            lemma_fmul_bound(w@.y, u@.x, FX_ONE as int, FX_ONE as int, FX_ONE as int);
            lemma_fmul_bound(w@.y, u@.z, FX_ONE as int, FX_ONE as int, FX_ONE as int);
            lemma_fmul_bound(w@.z, u@.x, FX_ONE as int, FX_ONE as int, FX_ONE as int);
            lemma_fmul_bound(w@.z, u@.y, FX_ONE as int, FX_ONE as int, FX_ONE as int);
            lemma_fmul_bound(aspect as int, tan_half_vfov as int, 1048576, 1048576, 16777216);
        }
        let half_width = crate::fixed::fx_mul(aspect, tan_half_vfov);
        proof {
            lemma_fmul_bound(half_width as int, focus_dist as int, 16777216, 4194304,
                1073741824);
            lemma_fmul_bound(tan_half_vfov as int, focus_dist as int, 1048576, 4194304,
                67108864);
        }
        let hwf = crate::fixed::fx_mul(half_width, focus_dist);
        let hhf = crate::fixed::fx_mul(tan_half_vfov, focus_dist);
        proof {
            lemma_scale_bound(u@, hwf as int, FX_ONE as int, 1073741824, 1073741824);
            lemma_scale_bound(v@, hhf as int, 131072, 67108864, 134217728);
            lemma_scale_bound(w@, focus_dist as int, FX_ONE as int, 4194304, 4194304);
        }
        let uhw = u.scale(hwf);
        let vth = v.scale(hhf);
        proof {
            lemma_scale_bound(uhw@, 2 * FX_ONE as int, 1073741824, 131072, CAM_LIM as int);
            lemma_scale_bound(vth@, 2 * FX_ONE as int, 134217728, 131072, 268435456);
        }
        Camera {
            origin: lookfrom,
            lower_left_corner: lookfrom.minus(&uhw).minus(&vth).minus(&w.scale(focus_dist)),
            horizontal: uhw.scale(2 * FX_ONE),
            vertical: vth.scale(2 * FX_ONE),
            lens_radius: aperture / 2,
        }
    }
}

} // verus!
