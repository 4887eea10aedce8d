use vstd::prelude::*;
use crate::grid::Point;

verus! {

/// Number of index entries one cube adds: two triangles on each of six faces.
pub const CUBE_INDEX_COUNT: usize = 36;

/// Corner `k` (0 to 7) of the unit cube at `o`: bit 0 of `k` steps in `x`,
/// bit 1 in `y`, bit 2 in `z`.
pub open spec fn corner(o: Point, k: int) -> Point {
    Point {
        x: (o.x + k % 2) as i32,
        y: (o.y + (k / 2) % 2) as i32,
        z: (o.z + k / 4) as i32,
    }
}

/// `v` is one of the eight corners of the unit cube at `o`.
pub open spec fn is_corner(o: Point, v: Point) -> bool {
    &&& 0 <= v.x - o.x <= 1
    &&& 0 <= v.y - o.y <= 1
    &&& 0 <= v.z - o.z <= 1
}

/// `v` is a corner of one of the cubes at `origins`.
pub open spec fn corner_of_some(origins: Seq<Point>, v: Point) -> bool {
    exists|c: int| 0 <= c < origins.len() && #[trigger] is_corner(origins[c], v)
}

/// For each index entry of a cube, the corner it names. Faces come in the
/// order -z, +z, -y, +y, -x, +x; each is split into two triangles wound
/// counter-clockwise when seen from outside the cube.
pub open spec fn cube_triangles() -> Seq<int> {
    seq![
        0, 2, 3, 0, 3, 1,
        4, 5, 7, 4, 7, 6,
        0, 1, 5, 0, 5, 4,
        2, 6, 7, 2, 7, 3,
        0, 4, 6, 0, 6, 2,
        1, 3, 7, 1, 7, 5,
    ]
}

/// Triangle geometry of a group of unit cubes, with shared corners stored once.
pub struct Mesh {
    vertices: Vec<Point>,
    index_buffer: Vec<usize>,
    origins: Vec<Point>,
}

impl Mesh {
    pub closed spec fn spec_vertices(&self) -> Seq<Point> {
        self.vertices@
    }

    pub closed spec fn spec_index_buffer(&self) -> Seq<usize> {
        self.index_buffer@
    }

    /// The origins of the cubes folded in, in the order they came.
    pub closed spec fn spec_origins(&self) -> Seq<Point> {
        self.origins@
    }

    /// Entry `k` of the index buffer names corner `cube_triangles()[k % 36]`
    /// of cube `k / 36`; vertices are distinct and each is a corner of a cube
    /// of the mesh.
    pub open spec fn wf(&self) -> bool {
        let vs = self.spec_vertices();
        let ib = self.spec_index_buffer();
        let os = self.spec_origins();
        &&& ib.len() == CUBE_INDEX_COUNT * os.len()
        &&& vs.no_duplicates()
        &&& forall|k: int|
            0 <= k < ib.len() ==> (#[trigger] ib[k]) < vs.len() && vs[ib[k] as int] == corner(
                os[k / 36],
                cube_triangles()[k % 36],
            )
        &&& forall|i: int|
            0 <= i < vs.len() ==> corner_of_some(os, #[trigger] vs[i])
    }

    /// A mesh with no cubes.
    pub fn new() -> (r: Mesh)
        ensures
            r.wf(),
            r.spec_vertices().len() == 0,
            r.spec_index_buffer().len() == 0,
            r.spec_origins().len() == 0,
    {
        Mesh { vertices: Vec::new(), index_buffer: Vec::new(), origins: Vec::new() }
    }

    pub fn vertices(&self) -> (r: &Vec<Point>)
        ensures
            r@ == self.spec_vertices(),
    {
        &self.vertices
    }

    pub fn index_buffer(&self) -> (r: &Vec<usize>)
        ensures
            r@ == self.spec_index_buffer(),
    {
        &self.index_buffer
    }

    pub fn origins(&self) -> (r: &Vec<Point>)
        ensures
            r@ == self.spec_origins(),
    {
        &self.origins
    }

    /// Index of `v` in the vertex list, appending it when absent.
    fn vertex_index(&mut self, v: Point) -> (r: usize)
        requires
            old(self).vertices@.no_duplicates(),
        ensures
            final(self).vertices@ == if old(self).vertices@.contains(v) {
                old(self).vertices@
            } else {
                old(self).vertices@.push(v)
            },
            final(self).vertices@.no_duplicates(),
            r < final(self).vertices@.len(),
            final(self).vertices@[r as int] == v,
            final(self).index_buffer == old(self).index_buffer,
            final(self).origins == old(self).origins,
    {
        let mut i: usize = 0;
        while i < self.vertices.len()
            invariant
                *self == *old(self),
                self.vertices@.no_duplicates(),
                i <= self.vertices@.len(),
                forall|j: int| 0 <= j < i ==> self.vertices@[j] != v,
            decreases self.vertices@.len() - i,
        {
            if self.vertices[i] == v {
                return i;
            }
            i += 1;
        }
        let n = self.vertices.len();
        self.vertices.push(v);
        proof {
            assert(!old(self).vertices@.contains(v));
        }
        n
    }

    /// Folds the unit cube at `o` into the mesh: its eight corners are looked
    /// up or appended, then its twelve triangles are appended to the index
    /// buffer.
    pub fn add_cube(&mut self, o: Point)
        requires
            old(self).wf(),
            o.x < i32::MAX,
            o.y < i32::MAX,
            o.z < i32::MAX,
        ensures
            final(self).wf(),
            final(self).spec_origins() == old(self).spec_origins().push(o),
            final(self).spec_index_buffer().subrange(0, old(self).spec_index_buffer().len() as int)
                == old(self).spec_index_buffer(),
            final(self).spec_vertices().subrange(0, old(self).spec_vertices().len() as int)
                == old(self).spec_vertices(),
            forall|v: Point|
                #[trigger] final(self).spec_vertices().contains(v) <==> old(
                    self,
                ).spec_vertices().contains(v) || is_corner(o, v),
    {
        let ghost old_vs = self.vertices@;
        let ghost old_ib = self.index_buffer@;
        let ghost old_os = self.origins@;
        let mut corners: Vec<usize> = Vec::new();
        let mut k: usize = 0;
        while k < 8
            invariant
                self.index_buffer@ == old_ib,
                self.origins@ == old_os,
                self.vertices@.no_duplicates(),
                old_vs.len() <= self.vertices@.len(),
                self.vertices@.subrange(0, old_vs.len() as int) == old_vs,
                forall|i: int|
                    old_vs.len() <= i < self.vertices@.len() ==> is_corner(o, #[trigger] self.vertices@[i]),
                k <= 8,
                corners@.len() == k,
                forall|j: int|
                    0 <= j < k ==> (#[trigger] corners@[j]) < self.vertices@.len()
                        && self.vertices@[corners@[j] as int] == corner(o, j),
                o.x < i32::MAX,
                o.y < i32::MAX,
                o.z < i32::MAX,
            decreases 8 - k,
        {
            let v = Point {
                x: o.x + (k % 2) as i32,
                y: o.y + ((k / 2) % 2) as i32,
                z: o.z + (k / 4) as i32,
            };
            let ghost before = self.vertices@;
            let i = self.vertex_index(v);
            proof {
                assert(self.vertices@.subrange(0, before.len() as int) == before);
                assert(self.vertices@.subrange(0, old_vs.len() as int) =~= old_vs);
            }
            corners.push(i);
            k += 1;
        }
        let tri: [usize; 36] = [
            0, 2, 3, 0, 3, 1,
            4, 5, 7, 4, 7, 6,
            0, 1, 5, 0, 5, 4,
            2, 6, 7, 2, 7, 3,
            0, 4, 6, 0, 6, 2,
            1, 3, 7, 1, 7, 5,
        ];
        assert(forall|t: int| 0 <= t < 36 ==> tri@[t] as int == #[trigger] cube_triangles()[t]);
        let ghost vs = self.vertices@;
        let mut j: usize = 0;
        while j < CUBE_INDEX_COUNT
            invariant
                self.origins@ == old_os,
                self.vertices@ == vs,
                vs.no_duplicates(),
                forall|t: int| 0 <= t < 36 ==> (#[trigger] tri@[t]) < 8,
                corners@.len() == 8,
                j <= 36,
                self.index_buffer@.len() == old_ib.len() + j,
                self.index_buffer@.subrange(0, old_ib.len() as int) == old_ib,
                forall|t: int|
                    0 <= t < j ==> #[trigger] self.index_buffer@[old_ib.len() + t] == corners@[tri@[t] as int],
            decreases 36 - j,
        {
            self.index_buffer.push(corners[tri[j]]);
            proof {
                assert(self.index_buffer@.subrange(0, old_ib.len() as int) =~= old_ib);
            }
            j += 1;
        }
        self.origins.push(o);
        proof {
            let n = old_os.len() as int;
            let ib = self.index_buffer@;
            let os = self.origins@;
            assert forall|k: int| 0 <= k < ib.len() implies (#[trigger] ib[k]) < vs.len() && vs[ib[k] as int]
                == corner(os[k / 36], cube_triangles()[k % 36]) by {
                if k < old_ib.len() {
                    assert(ib[k] == old_ib[k]);
                    assert(k / 36 < n);
                    assert(vs[ib[k] as int] == old_vs[ib[k] as int]);
                } else {
                    let t = k - old_ib.len();
                    assert(k / 36 == n && k % 36 == t);
                    assert(ib[old_ib.len() + t] == corners@[tri@[t] as int]);
                }
            }
            assert forall|i: int| 0 <= i < vs.len() implies corner_of_some(os, #[trigger] vs[i]) by {
                if i < old_vs.len() {
                    assert(vs[i] == old_vs[i]);
                    let c = choose|c: int| 0 <= c < old_os.len() && is_corner(old_os[c], old_vs[i]);
                    assert(os[c] == old_os[c]);
                    assert(is_corner(os[c], vs[i]));
                } else {
                    assert(is_corner(os[n], vs[i]));
                }
            }
            assert forall|v: Point| #[trigger] vs.contains(v) <==> old_vs.contains(v) || is_corner(o, v) by {
                if vs.contains(v) {
                    let i = choose|i: int| 0 <= i < vs.len() && vs[i] == v;
                    if i < old_vs.len() {
                        assert(old_vs[i] == v);
                    }
                }
                if old_vs.contains(v) {
                    let i = choose|i: int| 0 <= i < old_vs.len() && old_vs[i] == v;
                    assert(vs[i] == v);
                }
                if is_corner(o, v) {
                    let c = (v.x - o.x) + 2 * (v.y - o.y) + 4 * (v.z - o.z);
                    assert(v == corner(o, c));
                    assert(vs[corners@[c] as int] == v);
                }
            }
        }
    }
}

/// Every entry of a well-formed mesh's index buffer names one of its
/// vertices, and the entries come in whole triangles.
pub proof fn lemma_index_buffer_valid(m: Mesh)
    requires
        m.wf(),
    ensures
        forall|k: int|
            0 <= k < m.spec_index_buffer().len() ==> (#[trigger] m.spec_index_buffer()[k])
                < m.spec_vertices().len(),
        m.spec_index_buffer().len() % 3 == 0,
{
}

} // verus!
