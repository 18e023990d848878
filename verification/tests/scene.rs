use raytracer::fixed::FX_ONE;
use raytracer::geometry::{Ray, Sphere, Vector3, T_FAR};
use raytracer::material::{Dielectric, Lambertian, Material, Metal};
use raytracer::tracing::{ray_color, Camera, HitRecord, HitWorld, EPS};
use raytracer::utils::{random_fx, random_in_unit_disk, random_in_unit_sphere};

const ONE: i128 = FX_ONE;

fn gray() -> Material {
    Material::Lambertian(Lambertian::new(Vector3::new(ONE / 2, ONE / 2, ONE / 2)))
}

#[test]
fn test_sphere_hit_dead_center() {
    // A sphere half a unit wide, one unit down the axis, hit square on.
    let s = Sphere::new(Vector3::new(0, 0, -ONE), ONE / 2, gray());
    let r = Ray::new(Vector3::new(0, 0, 0), Vector3::new(0, 0, -ONE));
    let h = s.hit(&r, 0, T_FAR).unwrap();
    assert_eq!(h.t, ONE / 2);
    assert_eq!(h.point, Vector3::new(0, 0, -ONE / 2));
    assert_eq!(h.normal, Vector3::new(0, 0, ONE));
}

#[test]
fn test_sphere_miss() {
    let s = Sphere::new(Vector3::new(0, 0, -ONE), ONE / 2, gray());
    let r = Ray::new(Vector3::new(0, 0, 0), Vector3::new(0, ONE, 0));
    assert!(s.hit(&r, 0, T_FAR).is_none());
}

#[test]
fn test_world_miss_background() {
    // A ray that misses everything gets the exact background gradient,
    // identical to what an empty scene yields.
    let empty = HitWorld::new();
    let mut world = HitWorld::new();
    world.add(Sphere::new(Vector3::new(0, -3 * ONE, 0), ONE, gray()));
    let up = Ray::new(Vector3::new(0, 0, 0), Vector3::new(0, ONE, 0));
    let sky = Vector3::new(32768, 45875, ONE);
    assert_eq!(ray_color(&up, &world, 0), sky);
    assert_eq!(ray_color(&up, &empty, 0), sky);
    let level = Ray::new(Vector3::new(0, 0, 0), Vector3::new(0, 0, ONE));
    // Halfway up the gradient: the even mix of white and sky blue.
    assert_eq!(ray_color(&level, &empty, 0), Vector3::new(49152, 55705, ONE));
}

#[test]
fn test_world_overlap_order() {
    // Two overlapping spheres on the axis: whichever is inserted first,
    // the nearer intersection wins.
    let near = Sphere::new(
        Vector3::new(0, 0, -2 * ONE),
        ONE,
        Material::Lambertian(Lambertian::new(Vector3::new(ONE, 0, 0))),
    );
    let far = Sphere::new(
        Vector3::new(0, 0, -4 * ONE),
        2 * ONE,
        Material::Lambertian(Lambertian::new(Vector3::new(0, ONE, 0))),
    );
    let r = Ray::new(Vector3::new(0, 0, 0), Vector3::new(0, 0, -ONE));

    let mut w1 = HitWorld::new();
    w1.add(near);
    w1.add(far);
    let h1 = w1.hit(&r, EPS, T_FAR).unwrap();

    let mut w2 = HitWorld::new();
    w2.add(far);
    w2.add(near);
    let h2 = w2.hit(&r, EPS, T_FAR).unwrap();

    assert_eq!(h1.t, ONE);
    assert_eq!(h2.t, ONE);
    for h in [h1, h2] {
        match h.material {
            Material::Lambertian(l) => assert_eq!(l.albedo, Vector3::new(ONE, 0, 0)),
            _ => panic!("wrong material"),
        }
    }
}

#[test]
fn test_ray_color_depth_cutoff() {
    // Diffuse material always scatters, so only the bounce budget stops
    // the walk: at the last allowed depth a hit yields black outright,
    // and from any depth the recursion returns a color in the unit box.
    let mut world = HitWorld::new();
    world.add(Sphere::new(Vector3::new(0, 0, 0), 2 * ONE, gray()));
    let r = Ray::new(Vector3::new(0, 0, 0), Vector3::new(0, 0, -ONE));
    assert_eq!(ray_color(&r, &world, 50), Vector3::new(0, 0, 0));
    let c = ray_color(&r, &world, 0);
    assert!(0 <= c.x && c.x <= ONE);
    assert!(0 <= c.y && c.y <= ONE);
    assert!(0 <= c.z && c.z <= ONE);
}

#[test]
fn test_dielectric_index_one() {
    // Index one at normal incidence: reflectance is zero, so whatever the
    // coin, the ray refracts, and the direction is unchanged.
    let d = Dielectric::new(ONE);
    let r = Ray::new(Vector3::new(0, 0, 0), Vector3::new(0, 0, -ONE));
    let hit = HitRecord {
        t: ONE / 2,
        point: Vector3::new(0, 0, -ONE / 2),
        normal: Vector3::new(0, 0, ONE),
        material: Material::Dielectric(d),
    };
    for coin in [0, 1, 32768, ONE - 1] {
        let (attenuation, scattered) = d.scatter_with(&r, &hit, coin);
        assert_eq!(attenuation, Vector3::new(ONE, ONE, ONE));
        assert_eq!(scattered.direction, Vector3::new(0, 0, -ONE));
        assert_eq!(scattered.origin, hit.point);
    }
}

#[test]
fn test_lambertian_pinned_scatter() {
    // With the unit-sphere sample pinned, the whole first bounce is
    // deterministic: hit dead center, scatter, miss everything, and pick
    // up the background through the albedo.
    let albedo = Vector3::new(ONE / 2, ONE / 2, ONE / 2);
    let lam = Lambertian::new(albedo);
    let mut world = HitWorld::new();
    world.add(Sphere::new(Vector3::new(0, 0, -ONE), ONE / 2, Material::Lambertian(lam)));
    let r = Ray::new(Vector3::new(0, 0, 0), Vector3::new(0, 0, -ONE));
    let hit = world.hit(&r, EPS, T_FAR).unwrap();
    assert_eq!(hit.normal, Vector3::new(0, 0, ONE));

    let sample = Vector3::new(0, 16384, 0);
    let (attenuation, scattered) = lam.scatter_with(&hit, &sample);
    assert_eq!(attenuation, albedo);
    assert_eq!(scattered.origin, Vector3::new(0, 0, -ONE / 2));
    assert_eq!(scattered.direction, Vector3::new(0, 15895, 63580));

    // The scattered ray leaves the scene, so the rest is deterministic.
    let rest = ray_color(&scattered, &world, 1);
    assert_eq!(rest, Vector3::new(45178, 53321, ONE));
    assert_eq!(attenuation.mul_v(&rest), Vector3::new(22589, 26660, 32768));
}

#[test]
fn test_metal_scatter_and_absorb() {
    let m = Metal::new(Vector3::new(ONE, ONE, ONE), 0);
    let r = Ray::new(Vector3::new(0, 0, 0), Vector3::new(0, 0, -ONE));
    let outward = HitRecord {
        t: ONE,
        point: Vector3::new(0, 0, -ONE),
        normal: Vector3::new(0, 0, ONE),
        material: Material::Metal(m),
    };
    let sample = Vector3::new(0, 0, 0);
    let (_, scattered) = m.scatter_with(&r, &outward, &sample).unwrap();
    assert_eq!(scattered.direction, Vector3::new(0, 0, ONE));
    // A reflection that would point into the surface is absorbed.
    let inward = HitRecord { normal: Vector3::new(0, 0, -ONE), ..outward };
    assert!(m.scatter_with(&r, &inward, &sample).is_none());
}

#[test]
fn test_metal_new_clamps_fuzz() {
    assert_eq!(Metal::new(Vector3::new(ONE, 0, 0), 3 * ONE).fuzz, ONE);
    assert_eq!(Metal::new(Vector3::new(ONE, 0, 0), -5).fuzz, 0);
    assert_eq!(Metal::new(Vector3::new(ONE, 0, 0), 123).fuzz, 123);
}

#[test]
fn test_random_samples_in_range() {
    for _ in 0..100 {
        let u = random_fx();
        assert!(0 <= u && u < ONE);
        let p = random_in_unit_sphere();
        assert!(p.squared_length() < ONE);
        assert!(p.x.abs() <= ONE && p.y.abs() <= ONE && p.z.abs() <= ONE);
        let q = random_in_unit_disk();
        assert!(q.squared_length() < ONE);
        assert_eq!(q.z, 0);
    }
}

#[test]
fn test_camera_frame_and_ray() {
    // A square 90-degree camera looking down the axis: tan of half the
    // field of view is one, and the center ray goes straight ahead.
    let cam = Camera::new(
        Vector3::new(0, 0, 0),
        Vector3::new(0, 0, -ONE),
        Vector3::new(0, ONE, 0),
        ONE,
        2 * ONE,
    );
    assert_eq!(cam.origin, Vector3::new(0, 0, 0));
    assert_eq!(cam.lower_left_corner, Vector3::new(-2 * ONE, -ONE, -ONE));
    assert_eq!(cam.horizontal, Vector3::new(4 * ONE, 0, 0));
    assert_eq!(cam.vertical, Vector3::new(0, 2 * ONE, 0));
    assert_eq!(cam.lens_radius, 0);
    let r = cam.get_ray(ONE / 2, ONE / 2);
    assert_eq!(r.origin, Vector3::new(0, 0, 0));
    assert_eq!(r.direction, Vector3::new(0, 0, -ONE));
}

#[test]
fn test_ray_new_normalizes() {
    let r = Ray::new(Vector3::new(ONE, 2 * ONE, 3 * ONE), Vector3::new(0, 0, -7 * ONE));
    assert_eq!(r.origin, Vector3::new(ONE, 2 * ONE, 3 * ONE));
    assert_eq!(r.direction, Vector3::new(0, 0, -ONE));
    assert_eq!(r.point_at(ONE / 2), Vector3::new(ONE, 2 * ONE, 3 * ONE - ONE / 2));
}

#[test]
fn test_dielectric_exit_branches() {
    // A ray leaving glass square on: the Schlick reflectance at normal
    // incidence is 2621 parts in 65536, so a small coin reflects back
    // inside and any larger coin passes straight through.
    let d = Dielectric::new(98304);
    let r = Ray::new(Vector3::new(0, 0, 0), Vector3::new(0, 0, -ONE));
    let hit = HitRecord {
        t: ONE,
        point: Vector3::new(0, 0, -ONE),
        normal: Vector3::new(0, 0, -ONE),
        material: Material::Dielectric(d),
    };
    let (_, reflected) = d.scatter_with(&r, &hit, 0);
    assert_eq!(reflected.direction, Vector3::new(0, 0, ONE));
    let (_, passed) = d.scatter_with(&r, &hit, 2621);
    assert_eq!(passed.direction, Vector3::new(0, 0, -ONE));
}

#[test]
fn test_camera_with_lens() {
    let cam = Camera::new_with_lens(
        Vector3::new(0, 0, 0),
        Vector3::new(0, 0, -ONE),
        Vector3::new(0, ONE, 0),
        ONE,
        2 * ONE,
        ONE / 4,
        2 * ONE,
    );
    assert_eq!(cam.lens_radius, ONE / 8);
    assert_eq!(cam.lower_left_corner, Vector3::new(-4 * ONE, -2 * ONE, -2 * ONE));
    assert_eq!(cam.horizontal, Vector3::new(8 * ONE, 0, 0));
    assert_eq!(cam.vertical, Vector3::new(0, 4 * ONE, 0));
    // The emitted ray starts on the lens disk and is always normalized.
    let r = cam.get_ray(ONE / 2, ONE / 2);
    assert!((r.origin.x - cam.origin.x).abs() <= cam.lens_radius);
    assert!((r.origin.y - cam.origin.y).abs() <= cam.lens_radius);
    assert_eq!(r.origin.z, 0);
    let l = r.direction.length();
    assert!(ONE - 4 <= l && l <= ONE);
}
