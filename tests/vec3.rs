use rusty_ray::fixed::ONE;
use rusty_ray::vec3::Vec3;

fn v(x: i64, y: i64, z: i64) -> Vec3 {
    Vec3::new(x * ONE, y * ONE, z * ONE)
}

#[test]
fn vec3_op_test() {
    let v1 = v(1, 2, 3);
    let v2 = v(4, 5, 6);
    assert!((v1 + v2) == v(5, 7, 9));
    assert!((v1 - v2) == v(-3, -3, -3));
    assert!(Vec3::zero() == v(0, 0, 0));
    assert!(-v1 == v(-1, -2, -3));
    assert!(v1.dot(v2) == 32 * ONE);
    assert!(v1.scale(2 * ONE) == v(2, 4, 6));
    assert!(v1 * (2 * ONE) == v1.scale(2 * ONE));
    assert!(v1 / (2 * ONE) == v1.scale(ONE / 2));
    assert!(v1.normalize() == v1 / v1.length());
    assert!(v1.square_length() == (1 + 2 * 2 + 3 * 3) * ONE);
    assert!(v(1, 0, 0).cross(v(0, 1, 0)) == v(0, 0, 1));
}

#[test]
fn component_product_and_length() {
    let a = v(2, 3, 4);
    let b = Vec3::new(ONE / 2, ONE, 2 * ONE);
    assert_eq!(a * b, v(1, 3, 8));
    assert_eq!(v(3, 4, 0).length(), 5 * ONE);
    assert_eq!(v(0, 0, 0).length(), 0);
    assert_eq!(Vec3::new(3, 4, 0).length(), 5);
    assert_eq!(Vec3::new(i64::MAX, i64::MAX, 0).length(), i64::MAX);
}

#[test]
fn normalize_gives_unit_length() {
    for w in [
        v(3, 4, 0),
        v(1, 2, 3),
        v(-7, 1, 2),
        Vec3::new(ONE / 3, -ONE / 5, ONE / 7),
        v(100, -50, 25),
        Vec3::new(362, 0, 0),
        Vec3::new(1, 1, 0),
        Vec3::new(-1, 2, -3),
        Vec3::new(i64::MAX, i64::MAX, -i64::MAX),
        Vec3::new(i64::MAX, 1, 0),
    ] {
        let n = w.normalize();
        assert!((n.length() - ONE).abs() <= 4, "{:?} -> {:?}", w, n);
        let again = n.normalize();
        for (a, b) in [(n.x, again.x), (n.y, again.y), (n.z, again.z)] {
            assert!((a - b).abs() <= 5, "{:?} -> {:?} -> {:?}", w, n, again);
        }
    }
    assert_eq!(Vec3::new(362, 0, 0).normalize(), Vec3::new(ONE, 0, 0));
    assert_eq!(Vec3::new(1, 1, 0).normalize(), Vec3::new(46340, 46340, 0));
    assert_eq!(v(3, 4, 0).normalize(), Vec3::new(3 * ONE / 5, 4 * ONE / 5, 0));
}

#[test]
fn normalize_keeps_zero_vector() {
    assert_eq!(Vec3::zero().normalize(), Vec3::zero());
}

#[test]
fn division_by_zero_keeps_vector() {
    let a = v(1, -2, 3);
    assert_eq!(a / 0, a);
}

#[test]
fn arithmetic_saturates() {
    let big = Vec3::new(i64::MAX, i64::MIN + 1, 0);
    assert_eq!(big + big, Vec3::new(i64::MAX, -i64::MAX, 0));
    assert_eq!(-Vec3::new(i64::MIN, 0, 0), Vec3::new(i64::MAX, 0, 0));
}

#[test]
fn reflect_flips_normal_component() {
    let n = v(0, 1, 0);
    let d = v(1, -1, 0).normalize();
    let r = d.reflect(n);
    assert_eq!(r, Vec3::new(d.x, -d.y, 0));
    assert_eq!(r.dot(n), -d.dot(n));
    let n2 = v(1, 1, 1).normalize();
    let d2 = v(2, -3, 1);
    assert!((d2.reflect(n2).dot(n2) + d2.dot(n2)).abs() <= 64);
}
