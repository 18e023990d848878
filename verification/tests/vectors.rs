use raytracer::fixed::{fx_div, fx_mul, fx_sqrt, FX_ONE};
use raytracer::geometry::Vector3;
use raytracer::material::schlick;

const ONE: i128 = FX_ONE;

fn fx(v: i128) -> i128 {
    v * ONE
}

#[test]
fn test_vector3_ops() {
    assert_eq!(
        Vector3::new(fx(0), fx(1), fx(2)).plus(&Vector3::new(fx(-2), fx(3), fx(4))),
        Vector3::new(fx(-2), fx(4), fx(6))
    );
    assert_eq!(
        Vector3::new(fx(0), fx(1), fx(2)).minus(&Vector3::new(fx(-2), fx(3), fx(4))),
        Vector3::new(fx(2), fx(-2), fx(-2))
    );
    assert_eq!(
        Vector3::new(fx(2), fx(3), fx(4)).div_by(fx(2)),
        Vector3::new(fx(1), 98304, fx(2))
    );
    assert_eq!(
        Vector3::new(fx(2), fx(3), fx(4)).scale(fx(2)),
        Vector3::new(fx(4), fx(6), fx(8))
    );
}

#[test]
fn test_vector3_fns() {
    assert_eq!(Vector3::new(fx(1), fx(2), fx(3)).squared_length(), fx(14));
    assert_eq!(Vector3::new(fx(3), fx(4), fx(5)).length(), 463409);
    assert_eq!(Vector3::new(fx(1), fx(2), fx(3)).normalized().length(), 65535);
}

#[test]
fn test_normalized_components_exact() {
    let n = Vector3::new(fx(1), fx(2), fx(3)).normalized();
    assert_eq!(n, Vector3::new(17515, 35030, 52545));
}

#[test]
fn test_normalized_length_near_one() {
    // Any vector of euclidean length at least one normalizes to length
    // within four units below one; spot-check a few directions.
    for v in [
        Vector3::new(fx(1), 0, 0),
        Vector3::new(fx(7), fx(-3), fx(2)),
        Vector3::new(123456, 654321, -98765),
        Vector3::new(fx(100), 1, -1),
    ] {
        let l = v.normalized().length();
        assert!(ONE - 4 <= l && l <= ONE, "length was {l}");
    }
}

#[test]
fn test_dot_and_cross() {
    let a = Vector3::new(fx(1), fx(2), fx(3));
    let b = Vector3::new(fx(4), fx(-5), fx(6));
    assert_eq!(Vector3::dot(&a, &b), fx(12));
    assert_eq!(Vector3::cross(&a, &b), Vector3::new(fx(27), fx(6), fx(-13)));
    assert_eq!(a.neg(), Vector3::new(fx(-1), fx(-2), fx(-3)));
    assert_eq!(a.mul_v(&b), Vector3::new(fx(4), fx(-10), fx(18)));
}

#[test]
fn test_reflect_normal_component() {
    // Reflecting about a unit normal negates the normal component.
    let n = Vector3::new(0, 0, ONE);
    for v in [
        Vector3::new(0, 0, -ONE),
        Vector3::new(fx(3), fx(-2), fx(-7)),
        Vector3::new(-12345, 678, 90123),
    ] {
        let r = Vector3::reflect(&v, &n);
        assert_eq!(Vector3::dot(&r, &n), -Vector3::dot(&v, &n));
    }
    assert_eq!(
        Vector3::reflect(&Vector3::new(0, 0, -ONE), &n),
        Vector3::new(0, 0, ONE)
    );
}

#[test]
fn test_refract_identity_and_total_internal_reflection() {
    // Ratio one at normal incidence: the direction passes through unbent.
    let n = Vector3::new(0, 0, ONE);
    let v = Vector3::new(0, 0, -ONE);
    assert_eq!(Vector3::refract(&v, &n, ONE), Some(Vector3::new(0, 0, -ONE)));
    // A steep ray against a high ratio is totally internally reflected.
    let grazing = Vector3::new(ONE, 0, -ONE);
    assert_eq!(Vector3::refract(&grazing, &n, 2 * ONE), None);
}

#[test]
fn test_schlick_values() {
    // Glass at normal incidence reflects a little over one twenty-fifth...
    assert_eq!(schlick(ONE, 98304), 2621);
    // ...and everything at a right-angle graze.
    assert_eq!(schlick(0, 98304), ONE);
    // A medium of index one reflects nothing at normal incidence.
    assert_eq!(schlick(ONE, ONE), 0);
}

#[test]
fn test_fixed_point_primitives() {
    assert_eq!(fx_mul(fx(3), fx(4)), fx(12));
    assert_eq!(fx_mul(98304, 98304), 147456);
    assert_eq!(fx_div(fx(12), fx(4)), fx(3));
    assert_eq!(fx_div(fx(1), fx(3)), 21845);
    assert_eq!(fx_sqrt(fx(4)), fx(2));
    assert_eq!(fx_sqrt(fx(2)), 92681);
}

#[test]
fn test_reflect_involution() {
    // Reflecting twice about an axis-aligned unit normal is exact in
    // fixed point and returns the vector unchanged.
    let n = Vector3::new(0, 0, ONE);
    for v in [
        Vector3::new(0, 0, -ONE),
        Vector3::new(fx(3), fx(-2), fx(-7)),
        Vector3::new(-12345, 678, 90123),
    ] {
        let once = Vector3::reflect(&v, &n);
        assert_eq!(Vector3::reflect(&once, &n), v);
    }
}

#[test]
fn test_refract_zero_discriminant() {
    // A grazing unit ray perpendicular to the normal at ratio one: the
    // discriminant is exactly zero, and the ray still refracts, along
    // the well-defined tangent direction.
    let v = Vector3::new(ONE, 0, 0);
    let n = Vector3::new(0, 0, ONE);
    assert_eq!(Vector3::refract(&v, &n, ONE), Some(Vector3::new(ONE, 0, 0)));
}
