//! A triangle mesh: shared vertices, index triples, face normals and the boxes of
//! the triangles, read from binary STL.
use vstd::prelude::*;
use crate::aabb::{Boundingbox, empty_box, triangle_box, union_spec};
use crate::bvh::{index_range, BvhNode};
use crate::keys::{KeyVec3, RawVec3};
use crate::stl::{
    needed_len, read_u32_le, stl_normal, stl_vector, stl_vertex, triangle_count, HEADER_LEN,
    RECORDS_START, RECORD_LEN,
};

verus! {

/// Three indices into a mesh's shared vertex array.
#[derive(Clone, Copy, Debug, PartialEq, Eq, Structural)]
pub struct Triangle {
    pub a: usize,
    pub b: usize,
    pub c: usize,
}

impl Triangle {
    pub fn new(a: usize, b: usize, c: usize) -> (r: Triangle)
        ensures
            r.a == a,
            r.b == b,
            r.c == c,
    {
        Triangle { a, b, c }
    }

    /// Every index of the triangle lies below `n`.
    pub open spec fn indices_below(self, n: nat) -> bool {
        self.a < n && self.b < n && self.c < n
    }
}

/// Why a byte buffer is no binary STL mesh.
#[derive(Clone, Copy, Debug, PartialEq, Eq, Structural)]
pub enum StlError {
    /// Fewer bytes than the header and the triangle count take.
    MissingHeader,
    /// Fewer bytes than the records of the announced triangles take.
    TruncatedRecords,
}

/// The box of one point.
pub open spec fn point_box(p: KeyVec3) -> Boundingbox {
    Boundingbox { min: p, max: p }
}

/// The box that holds the points `pts`.
pub open spec fn points_box(pts: Seq<RawVec3>) -> Boundingbox
    decreases pts.len(),
{
    if pts.len() == 0 {
        empty_box()
    } else {
        union_spec(points_box(pts.drop_last()), point_box(pts.last().keys()))
    }
}

/// A mesh: the vertex array `padr`, the triangles `vadr` that index it, one face
/// normal in `norm` and one box in `tri_bbox` per triangle, the box of the whole
/// mesh and, once built, the hierarchy over its triangles. Texture coordinates
/// (`uvw`) and per-vertex normals (`phong_normal`) are optional and unused in
/// shading.
#[derive(Debug)]
pub struct BaseObject {
    pub name: String,
    pub filename: String,
    pub bvh_root: Option<BvhNode>,
    pub material: u64,
    pub padr: Vec<RawVec3>,
    pub uvw: Option<Vec<RawVec3>>,
    pub phong_normal: Option<Vec<RawVec3>>,
    pub vadr: Vec<Triangle>,
    pub norm: Vec<RawVec3>,
    pub tri_bbox: Vec<Boundingbox>,
    pub boundingbox: Option<Boundingbox>,
}

impl BaseObject {
    /// The arrays agree: one normal and one box per triangle, each box that of the
    /// triangle's vertices, and every index inside the vertex array.
    pub open spec fn wf(&self) -> bool {
        &&& self.norm@.len() == self.vadr@.len()
        &&& self.tri_bbox@.len() == self.vadr@.len()
        &&& forall|k: int|
            0 <= k < self.vadr@.len() ==> {
                let t = #[trigger] self.vadr@[k];
                &&& t.indices_below(self.padr@.len())
                &&& self.tri_bbox@[k] == triangle_box(
                    self.padr@[t.a as int].keys(),
                    self.padr@[t.b as int].keys(),
                    self.padr@[t.c as int].keys(),
                )
            }
    }

    /// An empty mesh.
    pub fn new(name: String, filename: String) -> (r: BaseObject)
        ensures
            r.name@ == name@,
            r.filename@ == filename@,
            r.bvh_root is None,
            r.material == 0,
            r.padr@.len() == 0,
            r.uvw is None,
            r.phong_normal is None,
            r.vadr@.len() == 0,
            r.norm@.len() == 0,
            r.tri_bbox@.len() == 0,
            r.boundingbox is None,
            r.wf(),
    {
        BaseObject {
            name,
            filename,
            bvh_root: None,
            material: 0,
            padr: Vec::new(),
            uvw: None,
            phong_normal: None,
            vadr: Vec::new(),
            norm: Vec::new(),
            tri_bbox: Vec::new(),
            boundingbox: None,
        }
    }

    /// Reads the vector at `pos`, stored as `(x, z, y)`, and gives it as `(x, y, z)`.
    pub fn read_vector3(bytes: &[u8], pos: usize) -> (r: RawVec3)
        requires
            pos + 12 <= bytes@.len(),
        ensures
            r == stl_vector(bytes@, pos as int),
    {
        assert(bytes@.len() == bytes.len());
        let x = read_u32_le(bytes, pos);
        let z = read_u32_le(bytes, pos + 4);
        let y = read_u32_le(bytes, pos + 8);
        RawVec3 { x, y, z }
    }

    /// Reads a binary STL mesh from its bytes. Triangle `k` has the vertices
    /// `3k, 3k + 1, 3k + 2`, in the order of the file; bytes after the last
    /// record are ignored.
    pub fn load_stl(filename: &str, bytes: &[u8]) -> (r: Result<BaseObject, StlError>)
        ensures
            bytes@.len() < RECORDS_START <==> r == Err::<BaseObject, StlError>(StlError::MissingHeader),
            r == Err::<BaseObject, StlError>(StlError::TruncatedRecords) <==> (RECORDS_START
                <= bytes@.len() < needed_len(triangle_count(bytes@))),
            r is Ok ==> ({
                let o = r->Ok_0;
                let n = triangle_count(bytes@);
                &&& o.wf()
                &&& o.name@ == "STL Object"@
                &&& o.filename@ == filename@
                &&& o.bvh_root is None
                &&& o.vadr@.len() == n
                &&& o.padr@ == Seq::new(3 * n, |v: int| stl_vertex(bytes@, v))
                &&& o.norm@ == Seq::new(n, |k: int| stl_normal(bytes@, k))
                &&& forall|k: int|
                    0 <= k < n ==> #[trigger] o.vadr@[k] == (Triangle {
                        a: (3 * k) as usize,
                        b: (3 * k + 1) as usize,
                        c: (3 * k + 2) as usize,
                    })
                &&& o.boundingbox == Some(points_box(o.padr@))
            }),
    {
        if bytes.len() < RECORDS_START {
            return Err(StlError::MissingHeader);
        }
        let count = read_u32_le(bytes, HEADER_LEN);
        if (bytes.len() as u64) < RECORDS_START as u64 + RECORD_LEN as u64 * count as u64 {
            return Err(StlError::TruncatedRecords);
        }
        let mut obj = BaseObject::new("STL Object".to_owned(), filename.to_owned());
        let ghost b = bytes@;
        let mut k: usize = 0;
        while k < count as usize
            invariant
                b == bytes@,
                b.len() == bytes.len(),
                count == triangle_count(b),
                needed_len(count as nat) <= b.len(),
                k <= count,
                obj.wf(),
                obj.name@ == "STL Object"@,
                obj.filename@ == filename@,
                obj.bvh_root is None,
                obj.vadr@.len() == k,
                obj.padr@ == Seq::new(3 * k as nat, |v: int| stl_vertex(b, v)),
                obj.norm@ == Seq::new(k as nat, |j: int| stl_normal(b, j)),
                forall|j: int|
                    0 <= j < k ==> #[trigger] obj.vadr@[j] == (Triangle {
                        a: (3 * j) as usize,
                        b: (3 * j + 1) as usize,
                        c: (3 * j + 2) as usize,
                    }),
            decreases count - k,
        {
            assert(RECORDS_START + RECORD_LEN * k + RECORD_LEN <= b.len()) by (nonlinear_arith)
                requires
                    k < count,
                    RECORDS_START + RECORD_LEN * count <= b.len(),
            ;
            let pos = RECORDS_START + RECORD_LEN * k;
            let normal = Self::read_vector3(bytes, pos);
            let v1 = Self::read_vector3(bytes, pos + 12);
            let v2 = Self::read_vector3(bytes, pos + 24);
            let v3 = Self::read_vector3(bytes, pos + 36);
            let bboxtri = Boundingbox::from_triangle(v1.to_keys(), v2.to_keys(), v3.to_keys());
            let ghost old_obj = obj;
            obj.norm.push(normal);
            obj.padr.push(v1);
            obj.padr.push(v2);
            obj.padr.push(v3);
            obj.tri_bbox.push(bboxtri);
            let n = obj.padr.len();
            obj.vadr.push(Triangle::new(n - 3, n - 2, n - 1));
            proof {
                let kk = k as int;
                assert(n == 3 * kk + 3);
                assert((3 * kk) / 3 == kk && (3 * kk) % 3 == 0) by (nonlinear_arith);
                assert((3 * kk + 1) / 3 == kk && (3 * kk + 1) % 3 == 1) by (nonlinear_arith);
                assert((3 * kk + 2) / 3 == kk && (3 * kk + 2) % 3 == 2) by (nonlinear_arith);
                assert(obj.padr@ =~= Seq::new(3 * (k + 1) as nat, |v: int| stl_vertex(b, v)));
                assert(obj.norm@ =~= Seq::new((k + 1) as nat, |j: int| stl_normal(b, j)));
                assert forall|j: int| 0 <= j < obj.vadr@.len() implies {
                    let t = #[trigger] obj.vadr@[j];
                    &&& t.indices_below(obj.padr@.len())
                    &&& obj.tri_bbox@[j] == triangle_box(
                        obj.padr@[t.a as int].keys(),
                        obj.padr@[t.b as int].keys(),
                        obj.padr@[t.c as int].keys(),
                    )
                } by {
                    if j < kk {
                        assert(obj.vadr@[j] == old_obj.vadr@[j]);
                        assert(obj.tri_bbox@[j] == old_obj.tri_bbox@[j]);
                        let t = obj.vadr@[j];
                        assert(obj.padr@[t.a as int] == old_obj.padr@[t.a as int]);
                        assert(obj.padr@[t.b as int] == old_obj.padr@[t.b as int]);
                        assert(obj.padr@[t.c as int] == old_obj.padr@[t.c as int]);
                    }
                }
            }
            k += 1;
        }
        obj.boundingbox = Some(Self::calculate_bounding_box(&obj.padr));
        Ok(obj)
    }

    /// Builds the hierarchy over the mesh's triangles, from their boxes and the
    /// order keys of their box centers (see `BvhNode::build`).
    pub fn build_bvh<F: Fn(Boundingbox) -> usize>(&mut self, centers: &Vec<KeyVec3>, longest_axis: &F)
        requires
            centers@.len() == old(self).tri_bbox@.len(),
            forall|b: Boundingbox| longest_axis.requires((b,)),
            forall|b: Boundingbox, a: usize| longest_axis.ensures((b,), a) ==> a < 3,
        ensures
            final(self).bvh_root is Some,
            final(self).bvh_root->Some_0.is_hierarchy_over(old(self).tri_bbox@),
            final(self).bvh_root->Some_0.built_from(
                index_range(old(self).tri_bbox@.len()),
                0,
                old(self).tri_bbox@,
                centers@,
                *longest_axis,
            ),
            final(self).padr == old(self).padr,
            final(self).vadr == old(self).vadr,
            final(self).norm == old(self).norm,
            final(self).tri_bbox == old(self).tri_bbox,
            final(self).boundingbox == old(self).boundingbox,
            final(self).name == old(self).name,
            final(self).filename == old(self).filename,
            final(self).material == old(self).material,
    {
        let root = BvhNode::build(&self.tri_bbox, centers, longest_axis);
        self.bvh_root = Some(root);
    }

    /// The box that holds all the vertices.
    pub fn calculate_bounding_box(vertices: &Vec<RawVec3>) -> (r: Boundingbox)
        ensures
            r == points_box(vertices@),
    {
        let mut bbox = Boundingbox::new_empty();
        let mut k: usize = 0;
        while k < vertices.len()
            invariant
                k <= vertices.len(),
                bbox == points_box(vertices@.subrange(0, k as int)),
            decreases vertices.len() - k,
        {
            assert(vertices@.subrange(0, k as int + 1).drop_last() =~= vertices@.subrange(0, k as int));
            let p = vertices[k].to_keys();
            bbox.expand(&Boundingbox::new(p, p));
            k += 1;
        }
        assert(vertices@.subrange(0, k as int) =~= vertices@);
        bbox
    }
}

} // verus!
