use agray::keys::{order_key, RawVec3};
use agray::mesh::{BaseObject, StlError, Triangle};

fn push_vec(out: &mut Vec<u8>, a: f32, b: f32, c: f32) {
    for v in [a, b, c] {
        out.extend_from_slice(&v.to_le_bytes());
    }
}

/// A binary STL file: each triangle is its normal and three vertices, each given
/// as the three numbers in the order the file stores them.
fn stl_bytes(triangles: &[[[f32; 3]; 4]]) -> Vec<u8> {
    let mut out = vec![0u8; 80];
    out.extend_from_slice(&(triangles.len() as u32).to_le_bytes());
    for t in triangles {
        for v in t {
            push_vec(&mut out, v[0], v[1], v[2]);
        }
        out.extend_from_slice(&[0u8, 0u8]);
    }
    out
}

fn raw(x: f32, y: f32, z: f32) -> RawVec3 {
    RawVec3 { x: x.to_bits(), y: y.to_bits(), z: z.to_bits() }
}

#[test]
fn stl_axis_swap() {
    // vertex A is written as (x, z, y) = (1, 2, 3)
    let bytes = stl_bytes(&[[
        [0.0, 0.0, 1.0],
        [1.0, 2.0, 3.0],
        [4.0, 5.0, 6.0],
        [7.0, 8.0, 9.0],
    ]]);
    let obj = BaseObject::load_stl("one.stl", &bytes).unwrap();
    assert_eq!(obj.padr[0], raw(1.0, 3.0, 2.0));
    assert_eq!(obj.padr[1], raw(4.0, 6.0, 5.0));
    assert_eq!(obj.padr[2], raw(7.0, 9.0, 8.0));
    assert_eq!(obj.norm[0], raw(0.0, 1.0, 0.0));
}

#[test]
fn stl_layout_of_triangles() {
    let t = [[0.0, 0.0, 1.0], [0.0, 0.0, 0.0], [1.0, 0.0, 0.0], [0.0, 1.0, 0.0]];
    let bytes = stl_bytes(&[t, t, t]);
    let obj = BaseObject::load_stl("three.stl", &bytes).unwrap();
    assert_eq!(obj.name, "STL Object");
    assert_eq!(obj.filename, "three.stl");
    assert_eq!(obj.vadr.len(), 3);
    assert_eq!(obj.padr.len(), 9);
    assert_eq!(obj.norm.len(), 3);
    assert_eq!(obj.tri_bbox.len(), 3);
    assert_eq!(obj.vadr[2], Triangle::new(6, 7, 8));
    assert!(obj.bvh_root.is_none());
    let bbox = obj.boundingbox.unwrap();
    assert_eq!(bbox.min.x, order_key(0.0f32.to_bits()));
    assert_eq!(bbox.max.x, order_key(1.0f32.to_bits()));
    // the file's third number is y: 0 everywhere
    assert_eq!(bbox.max.y, order_key(0.0f32.to_bits()));
    assert_eq!(bbox.max.z, order_key(1.0f32.to_bits()));
}

#[test]
fn stl_triangle_boxes() {
    let bytes = stl_bytes(&[[
        [0.0, 0.0, 1.0],
        [-2.0, 5.0, 1.0],
        [3.0, -1.0, 0.5],
        [0.0, 2.0, -4.0],
    ]]);
    let obj = BaseObject::load_stl("box.stl", &bytes).unwrap();
    let b = obj.tri_bbox[0];
    assert_eq!(b.min.x, order_key((-2.0f32).to_bits()));
    assert_eq!(b.max.x, order_key(3.0f32.to_bits()));
    assert_eq!(b.min.y, order_key((-4.0f32).to_bits()));
    assert_eq!(b.max.y, order_key(1.0f32.to_bits()));
    assert_eq!(b.min.z, order_key((-1.0f32).to_bits()));
    assert_eq!(b.max.z, order_key(5.0f32.to_bits()));
}

#[test]
fn stl_empty_mesh() {
    let bytes = stl_bytes(&[]);
    let obj = BaseObject::load_stl("empty.stl", &bytes).unwrap();
    assert_eq!(obj.vadr.len(), 0);
    assert_eq!(obj.padr.len(), 0);
}

#[test]
fn stl_missing_header() {
    let bytes = vec![0u8; 83];
    assert_eq!(BaseObject::load_stl("short.stl", &bytes).unwrap_err(), StlError::MissingHeader);
    assert_eq!(BaseObject::load_stl("none.stl", &[]).unwrap_err(), StlError::MissingHeader);
}

#[test]
fn stl_truncated_record() {
    let t = [[0.0, 0.0, 1.0], [0.0, 0.0, 0.0], [1.0, 0.0, 0.0], [0.0, 1.0, 0.0]];
    let mut bytes = stl_bytes(&[t, t]);
    bytes.pop();
    assert_eq!(BaseObject::load_stl("cut.stl", &bytes).unwrap_err(), StlError::TruncatedRecords);
    // a count that announces more records than there are
    let mut bytes = stl_bytes(&[t]);
    bytes[80] = 2;
    assert_eq!(BaseObject::load_stl("count.stl", &bytes).unwrap_err(), StlError::TruncatedRecords);
}

#[test]
fn stl_ignores_trailing_bytes() {
    let t = [[0.0, 0.0, 1.0], [0.0, 0.0, 0.0], [1.0, 0.0, 0.0], [0.0, 1.0, 0.0]];
    let mut bytes = stl_bytes(&[t]);
    bytes.extend_from_slice(&[9u8; 7]);
    let obj = BaseObject::load_stl("tail.stl", &bytes).unwrap();
    assert_eq!(obj.vadr.len(), 1);
}

#[test]
fn new_object_is_empty() {
    let obj = BaseObject::new("a".to_string(), "b.stl".to_string());
    assert_eq!(obj.name, "a");
    assert_eq!(obj.material, 0);
    assert!(obj.padr.is_empty() && obj.vadr.is_empty() && obj.boundingbox.is_none());
}
