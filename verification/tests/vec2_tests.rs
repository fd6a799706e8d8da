use gba_gfx::vec2::Vec2;

#[test]
fn new_and_splat() {
    let v: Vec2<i32> = Vec2::new(3, -4);
    assert_eq!(v.x, 3);
    assert_eq!(v.y, -4);
    let s: Vec2<u32> = Vec2::splat(9);
    assert_eq!(s.x, 9);
    assert_eq!(s.y, 9);
}

#[test]
fn add_assoc_and_comm_signed() {
    let a: Vec2<i32> = Vec2::new(1, -2);
    let b: Vec2<i32> = Vec2::new(30, 40);
    let c: Vec2<i32> = Vec2::new(-500, 600);
    assert_eq!(a.add(b).add(c), a.add(b.add(c)));
    assert_eq!(a.add(b), b.add(a));
    assert_eq!(a.add(Vec2::splat(0)), a);
}

#[test]
fn sub_and_assign_ops() {
    let mut a: Vec2<i32> = Vec2::new(10, 20);
    a.add_assign(Vec2::new(1, 2));
    assert_eq!(a, Vec2::new(11, 22));
    a.sub_assign(Vec2::new(11, 0));
    assert_eq!(a, Vec2::new(0, 22));
    assert_eq!(Vec2::new(7i32, 8).sub(Vec2::new(2, 3)), Vec2::new(5, 5));
    let mut u: Vec2<u32> = Vec2::new(6, 9);
    u.mul_assign(2);
    assert_eq!(u, Vec2::new(12, 18));
    u.div_assign(3);
    assert_eq!(u, Vec2::new(4, 6));
}

#[test]
fn scalar_scaling() {
    assert_eq!(Vec2::new(3i32, -4).mul(-2), Vec2::new(-6, 8));
    assert_eq!(Vec2::new(8u32, 9).mul(3), Vec2::new(24, 27));
    assert_eq!(Vec2::new(9u32, 7).div(2), Vec2::new(4, 3));
}

#[test]
fn signed_division_truncates() {
    assert_eq!(Vec2::new(-7i32, 7).div(2), Vec2::new(-3, 3));
    assert_eq!(Vec2::new(7i32, -7).div(-2), Vec2::new(-3, 3));
    assert_eq!(Vec2::new(i32::MIN, 4).div(1), Vec2::new(i32::MIN, 4));
    let mut v: Vec2<i32> = Vec2::new(-9, 10);
    v.div_assign(3);
    assert_eq!(v, Vec2::new(-3, 3));
}

#[test]
fn dot_symmetry() {
    let a: Vec2<i32> = Vec2::new(3, -4);
    let b: Vec2<i32> = Vec2::new(5, 7);
    assert_eq!(a.dot(b), b.dot(a));
    assert_eq!(a.dot(b), 3 * 5 + (-4) * 7);
    let c: Vec2<u32> = Vec2::new(2, 3);
    let d: Vec2<u32> = Vec2::new(10, 20);
    assert_eq!(c.dot(d), d.dot(c));
    assert_eq!(c.dot(d), 80);
}

// The shipped cross formula is a.x * b.y - b.x * b.y, not the conventional
// 2D cross product a.x * b.y - a.y * b.x; this pins the shipped behaviour.
#[test]
fn cross_shipped_formula() {
    let a: Vec2<i32> = Vec2::new(2, 3);
    let b: Vec2<i32> = Vec2::new(5, 7);
    assert_eq!(a.cross(b), 2 * 7 - 5 * 7);
    assert_eq!(a.cross(b), -21);
    assert_ne!(a.cross(b), 2 * 7 - 3 * 5);
}
