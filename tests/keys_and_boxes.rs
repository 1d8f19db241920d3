use agray::aabb::Boundingbox;
use agray::keys::{key_to_bits, order_key, KeyVec3, RawVec3, NEG_INF_KEY, POS_INF_KEY};

fn key(v: f32) -> u32 {
    order_key(v.to_bits())
}

fn kv(x: f32, y: f32, z: f32) -> KeyVec3 {
    KeyVec3::new(key(x), key(y), key(z))
}

#[test]
fn keys_follow_float_order() {
    let values = [
        f32::NEG_INFINITY,
        f32::MIN,
        -1.5e10,
        -2.0,
        -1.0,
        -1e-30,
        0.0,
        1e-30,
        0.5,
        1.0,
        3.25,
        1e20,
        f32::MAX,
        f32::INFINITY,
    ];
    for i in 0..values.len() {
        for j in 0..values.len() {
            assert_eq!(values[i] < values[j], key(values[i]) < key(values[j]), "{} {}", values[i], values[j]);
        }
    }
    assert_eq!(key(f32::INFINITY), POS_INF_KEY);
    assert_eq!(key(f32::NEG_INFINITY), NEG_INF_KEY);
}

#[test]
fn keys_exact_values() {
    assert_eq!(order_key(0x3F80_0000), 0xBF80_0000);
    assert_eq!(order_key(0xBF80_0000), 0x4080_0000);
    assert_eq!(order_key(0), 0x8000_0000);
    assert_eq!(key(-0.0), key(0.0));
}

#[test]
fn keys_round_trip() {
    for v in [-7.5f32, -1.0, 0.0, 2.5e-3, 1.0, 123456.0, f32::INFINITY] {
        assert_eq!(f32::from_bits(key_to_bits(key(v))), v);
    }
    assert_eq!(key_to_bits(key(-0.0)), 0.0f32.to_bits());
}

#[test]
fn raw_vector_keys() {
    let r = RawVec3 { x: 1.0f32.to_bits(), y: (-2.0f32).to_bits(), z: 0.0f32.to_bits() };
    assert_eq!(r.to_keys(), kv(1.0, -2.0, 0.0));
}

#[test]
fn key_vector_min_max_get() {
    let a = kv(1.0, -5.0, 3.0);
    let b = kv(2.0, -6.0, 3.0);
    assert_eq!(a.min(&b), kv(1.0, -6.0, 3.0));
    assert_eq!(a.max(&b), kv(2.0, -5.0, 3.0));
    assert_eq!(a.get(0), key(1.0));
    assert_eq!(a.get(1), key(-5.0));
    assert_eq!(a.get(2), key(3.0));
}

#[test]
fn expand_of_empty_is_identity() {
    let x = Boundingbox::new(kv(-1.0, 0.0, 2.0), kv(1.0, 4.0, 3.0));
    let mut e = Boundingbox::new_empty();
    e.expand(&x);
    assert_eq!(e, x);
    assert_eq!(Boundingbox::new_empty().union(&x), x);
}

#[test]
fn union_laws_on_values() {
    let x = Boundingbox::new(kv(-1.0, 0.0, 2.0), kv(1.0, 4.0, 3.0));
    let y = Boundingbox::new(kv(0.5, -3.0, 2.5), kv(7.0, 1.0, 2.75));
    let z = Boundingbox::new(kv(-9.0, 9.0, -9.0), kv(-8.0, 10.0, -1.0));
    assert_eq!(x.union(&x), x);
    assert_eq!(x.union(&y), y.union(&x));
    assert_eq!(x.union(&y).union(&z), x.union(&y.union(&z)));
    assert_eq!(x.union(&y), Boundingbox::new(kv(-1.0, -3.0, 2.0), kv(7.0, 4.0, 3.0)));
}

#[test]
fn triangle_box_and_corners() {
    let b = Boundingbox::from_triangle(kv(0.0, 1.0, 2.0), kv(-1.0, 5.0, 0.0), kv(3.0, 2.0, 1.0));
    assert_eq!(b.get(0), kv(-1.0, 1.0, 0.0));
    assert_eq!(b.get(1), kv(3.0, 5.0, 2.0));
}
