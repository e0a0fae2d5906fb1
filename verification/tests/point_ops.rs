use rtgx::fixed::SCALE;
use rtgx::geometry::point::Point;

const S: i64 = SCALE;

#[test]
fn point_new_stores_components() {
    let p = Point::new(1, -2, 3);
    assert_eq!(p.x, 1);
    assert_eq!(p.y, -2);
    assert_eq!(p.z, 3);
}

#[test]
fn sub_is_componentwise() {
    let a = Point::new(5 * S, 3 * S, -2 * S);
    let b = Point::new(2 * S, -1 * S, 4 * S);
    let d = a.sub(b);
    assert_eq!(d, Point::new(3 * S, 4 * S, -6 * S));
}

#[test]
fn cross_of_unit_axes() {
    let x = Point::new(S, 0, 0);
    let y = Point::new(0, S, 0);
    let z = x.cross(y);
    assert_eq!(z, Point::new(0, 0, S));
}

#[test]
fn cross_is_anticommutative() {
    let a = Point::new(3 * S, -5 * S, 7 * S);
    let b = Point::new(2 * S, 4 * S, -9 * S);
    let ab = a.cross(b);
    let ba = b.cross(a);
    assert_eq!(ab.x, -ba.x);
    assert_eq!(ab.y, -ba.y);
    assert_eq!(ab.z, -ba.z);
}

#[test]
fn cross_exact_value() {
    // (1, 2, 3) x (4, 5, 6) = (-3, 6, -3)
    let a = Point::new(S, 2 * S, 3 * S);
    let b = Point::new(4 * S, 5 * S, 6 * S);
    assert_eq!(a.cross(b), Point::new(-3 * S, 6 * S, -3 * S));
}

#[test]
fn dot_with_light_vector() {
    let n = Point::new(0, 0, -S);
    let light = [0, 0, -S];
    assert_eq!(n.dot(&light), S * S);
    let sideways = Point::new(S, 0, 0);
    assert_eq!(sideways.dot(&light), 0);
}

#[test]
fn normalize_zero_stays_zero() {
    let z = Point::new(0, 0, 0);
    assert_eq!(z.normalize(), z);
}

#[test]
fn normalize_scales_axis_vector() {
    let v = Point::new(2 * S, 0, 0);
    assert_eq!(v.normalize(), Point::new(S, 0, 0));
}

#[test]
fn normalize_three_four_zero() {
    // (3, 4, 0) has length 5
    let v = Point::new(3 * S, 4 * S, 0);
    let n = v.normalize();
    assert_eq!(n, Point::new(600_000, 800_000, 0));
}

#[test]
fn normalize_idempotent_on_unit_result() {
    let v = Point::new(3 * S, 4 * S, 0);
    let once = v.normalize();
    let twice = once.normalize();
    assert_eq!(twice, once);
}

#[test]
fn normalize_truncates_toward_zero() {
    let v = Point::new(S, S, S);
    let n = v.normalize();
    // length = isqrt(3) * 10^6 = 1_732_050; 10^12 / 1_732_050 = 577_350
    assert_eq!(n, Point::new(577_350, 577_350, 577_350));
}

#[test]
fn normalize_lands_near_the_unit_sphere() {
    let v = Point::new(S, S, S);
    let n = v.normalize();
    let nsq = n.x * n.x + n.y * n.y + n.z * n.z;
    assert!(S * S - 6 * S <= nsq && nsq <= S * S + 2 * S + 3);
}

#[test]
fn normalize_idempotence_can_lose_one_step_off_the_sphere() {
    // a first pass that misses the unit sphere (here from below) may let
    // a second pass shrink components again: idempotence is exact only
    // where the first pass lands exactly
    let v = Point::new(S, S, S);
    let once = v.normalize();
    let twice = once.normalize();
    assert!((twice.x - once.x).abs() <= 6);
    assert!((twice.y - once.y).abs() <= 6);
    assert!((twice.z - once.z).abs() <= 6);
}

