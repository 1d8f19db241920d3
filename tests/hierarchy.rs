use agray::aabb::Boundingbox;
use agray::bvh::{find_median, get_enclosing_box, partition_indices, BvhNode, MAX_DEPTH, MAX_TRIANGLES_PER_LEAF};
use agray::keys::{key_to_bits, order_key, KeyVec3};

fn key(v: f32) -> u32 {
    order_key(v.to_bits())
}

fn val(k: u32) -> f32 {
    f32::from_bits(key_to_bits(k))
}

fn kv(v: [f32; 3]) -> KeyVec3 {
    KeyVec3::new(key(v[0]), key(v[1]), key(v[2]))
}

/// The longest axis of a box, measured in floating point; on a tie x before y before z.
fn longest_axis(b: Boundingbox) -> usize {
    let e = [
        val(b.max.x) - val(b.min.x),
        val(b.max.y) - val(b.min.y),
        val(b.max.z) - val(b.min.z),
    ];
    if e[0] >= e[1] && e[0] >= e[2] {
        0
    } else if e[1] >= e[2] {
        1
    } else {
        2
    }
}

struct Lcg(u64);

impl Lcg {
    fn next(&mut self) -> f32 {
        self.0 = self.0.wrapping_mul(6364136223846793005).wrapping_add(1442695040888963407);
        ((self.0 >> 40) as f32) / ((1u64 << 24) as f32)
    }
}

/// Boxes and center keys of random triangles in the unit cube.
fn random_triangles(n: usize, seed: u64) -> (Vec<Boundingbox>, Vec<KeyVec3>) {
    let mut rng = Lcg(seed);
    let mut boxes = Vec::new();
    let mut centers = Vec::new();
    for _ in 0..n {
        let p: Vec<[f32; 3]> = (0..3).map(|_| [rng.next(), rng.next(), rng.next()]).collect();
        let b = Boundingbox::from_triangle(kv(p[0]), kv(p[1]), kv(p[2]));
        let c = [
            (val(b.min.x) + val(b.max.x)) * 0.5,
            (val(b.min.y) + val(b.max.y)) * 0.5,
            (val(b.min.z) + val(b.max.z)) * 0.5,
        ];
        boxes.push(b);
        centers.push(kv(c));
    }
    (boxes, centers)
}

fn contains(outer: &Boundingbox, inner: &Boundingbox) -> bool {
    outer.min.x <= inner.min.x
        && outer.min.y <= inner.min.y
        && outer.min.z <= inner.min.z
        && inner.max.x <= outer.max.x
        && inner.max.y <= outer.max.y
        && inner.max.z <= outer.max.z
}

/// Checks containment and the leaf rule below `node`; gives its height.
fn check_node(node: &BvhNode, boxes: &[Boundingbox], depth: usize) -> usize {
    for i in node.enumerate_triangles() {
        assert!(contains(&node.bbox, &boxes[i]));
    }
    match &node.triangle_indices {
        Some(v) => {
            assert!(node.left.is_none() && node.right.is_none());
            assert!(v.len() <= MAX_TRIANGLES_PER_LEAF || depth >= MAX_DEPTH);
            0
        }
        None => {
            let l = check_node(node.left.as_ref().unwrap(), boxes, depth + 1);
            let r = check_node(node.right.as_ref().unwrap(), boxes, depth + 1);
            1 + l.max(r)
        }
    }
}

#[test]
fn bvh_sanity_random_triangles() {
    let (boxes, centers) = random_triangles(10_000, 7);
    let root = BvhNode::build(&boxes, &centers, &longest_axis);
    let height = check_node(&root, &boxes, 0);
    assert!(height <= MAX_DEPTH);
    let mut listed = root.enumerate_triangles();
    listed.sort();
    assert_eq!(listed, (0..10_000).collect::<Vec<usize>>());
}

#[test]
fn bvh_enumeration_is_permutation() {
    let (boxes, centers) = random_triangles(37, 99);
    let root = BvhNode::build(&boxes, &centers, &longest_axis);
    let mut listed = root.enumerate_triangles();
    assert_eq!(listed.len(), 37);
    listed.sort();
    assert_eq!(listed, (0..37).collect::<Vec<usize>>());
}

#[test]
fn bvh_small_set_is_one_leaf() {
    let (boxes, centers) = random_triangles(4, 3);
    let root = BvhNode::build(&boxes, &centers, &longest_axis);
    assert_eq!(root.triangle_indices, Some(vec![0, 1, 2, 3]));
    assert_eq!(root.bbox, boxes[0].union(&boxes[1]).union(&boxes[2]).union(&boxes[3]));
}

#[test]
fn bvh_empty_mesh() {
    let root = BvhNode::build(&Vec::new(), &Vec::new(), &longest_axis);
    assert_eq!(root.triangle_indices, Some(vec![]));
    assert_eq!(root.bbox, Boundingbox::new_empty());
    assert!(root.enumerate_triangles().is_empty());
}

#[test]
fn bvh_equal_centers_split_evenly() {
    // all centers equal: the split falls back to the two halves
    let b = Boundingbox::from_triangle(kv([0.0, 0.0, 0.0]), kv([1.0, 0.0, 0.0]), kv([0.0, 1.0, 0.0]));
    let boxes = vec![b; 10];
    let centers = vec![kv([0.5, 0.5, 0.0]); 10];
    let root = BvhNode::build(&boxes, &centers, &longest_axis);
    let left = root.left.as_ref().unwrap().enumerate_triangles();
    let right = root.right.as_ref().unwrap().enumerate_triangles();
    assert_eq!(left, vec![0, 1, 2, 3, 4]);
    assert_eq!(right, vec![5, 6, 7, 8, 9]);
}

#[test]
fn enclosing_box_values() {
    let a = Boundingbox::new(kv([0.0, 0.0, 0.0]), kv([1.0, 1.0, 1.0]));
    let b = Boundingbox::new(kv([-1.0, 0.5, 0.0]), kv([0.5, 2.0, 0.5]));
    let boxes = vec![a, b];
    assert_eq!(get_enclosing_box(&boxes, &vec![0, 1]), Boundingbox::new(kv([-1.0, 0.0, 0.0]), kv([1.0, 2.0, 1.0])));
    assert_eq!(get_enclosing_box(&boxes, &vec![1]), b);
    assert_eq!(get_enclosing_box(&boxes, &vec![]), Boundingbox::new_empty());
}

#[test]
fn median_of_small_set() {
    let centers: Vec<KeyVec3> = [5.0, 1.0, 4.0, 2.0, 3.0].iter().map(|&v| kv([v, -v, 0.0])).collect();
    let idx = vec![0, 1, 2, 3, 4];
    assert_eq!(find_median(&centers, &idx, 0), key(3.0));
    assert_eq!(find_median(&centers, &idx, 1), key(-3.0));
    // of an even count, the upper middle
    assert_eq!(find_median(&centers, &vec![0, 1, 2, 3], 0), key(4.0));
    assert_eq!(find_median(&centers, &vec![2], 0), key(4.0));
}

#[test]
fn median_of_large_set_samples() {
    // 250 centers: every second one is sampled (step 2), 100 in all
    let centers: Vec<KeyVec3> = (0..250).map(|i| kv([i as f32, 0.0, 0.0])).collect();
    let idx: Vec<usize> = (0..250).rev().collect();
    // samples are the centers 249, 247, ..., 51; the middle of the sorted sample is 151
    assert_eq!(find_median(&centers, &idx, 0), key(151.0));
}

#[test]
fn partition_values() {
    let centers: Vec<KeyVec3> = [3.0, 1.0, 4.0, 1.0, 5.0].iter().map(|&v| kv([v, 0.0, 0.0])).collect();
    let idx = vec![0, 1, 2, 3, 4];
    let (l, r) = partition_indices(&centers, &idx, 0, key(3.0));
    assert_eq!(l, vec![1, 3]);
    assert_eq!(r, vec![0, 2, 4]);
    // nothing below the split: the two halves
    let (l, r) = partition_indices(&centers, &idx, 0, key(0.0));
    assert_eq!(l, vec![0, 1]);
    assert_eq!(r, vec![2, 3, 4]);
}
