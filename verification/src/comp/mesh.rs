//! Index buffer logic of world meshes.
//!
//! A `MeshBuilder` keeps the vertices it is given, of whatever vertex type
//! the renderer uses, and the 16-bit indices of the triangles that draw
//! them. Every face is a quad: four corners and two triangles that share the
//! diagonal from the first corner to the third.
use vstd::prelude::*;
use crate::gui::mesh::{lemma_quad_indices_own_corners, quad_corner_offset, quad_indices};

verus! {

/// The number of faces of a pseudocube: back, front, left, right, bottom
/// and top.
pub const CUBE_FACES: usize = 6;

/// The number of corners of a pseudocube: four for each face.
pub const CUBE_CORNERS: usize = 24;

/// The indices of `count` quads laid out one after another, the first one's
/// corners starting at `base`.
pub open spec fn quads_indices(base: int, count: nat) -> Seq<u16>
    decreases count,
{
    if count == 0 {
        Seq::<u16>::empty()
    } else {
        quads_indices(base, (count - 1) as nat) + quad_indices(base + 4 * (count - 1))
    }
}

/// Index `j` of a run of quads falls in quad `j / 6`, at place `j % 6`.
proof fn lemma_quad_place(j: int, q: int, k: int)
    requires
        j == 6 * q + k,
        0 <= k < 6,
    ensures
        j / 6 == q,
        j % 6 == k,
{
    assert(j / 6 == q && j % 6 == k) by (nonlinear_arith)
        requires
            j == 6 * q + k,
            0 <= k < 6,
    ;
}

/// Every quad of a run draws its own corners: with `count` quads whose
/// corners start at vertex `base`, within 16-bit indices, there are
/// `6 * count` indices, and index `j` belongs to quad `q = j / 6` and is the
/// number `base + 4 * q` plus the corner offset of place `j % 6`, so it lies
/// in `base + 4 * q .. base + 4 * q + 4`.
pub proof fn lemma_quads_indices_own_corners(base: int, count: nat)
    requires
        0 <= base,
        base + 4 * count <= u16::MAX + 1,
    ensures
        quads_indices(base, count).len() == 6 * count,
        forall|j: int|
            0 <= j < 6 * count ==> (#[trigger] quads_indices(base, count)[j]) as int == base + 4 * (j / 6)
                + quad_corner_offset(j % 6),
        forall|j: int|
            0 <= j < 6 * count ==> base + 4 * (j / 6) <= #[trigger] quads_indices(base, count)[j] < base + 4 * (j
                / 6) + 4,
    decreases count,
{
    if count > 0 {
        let c = (count - 1) as nat;
        lemma_quads_indices_own_corners(base, c);
        let prev = quads_indices(base, c);
        let b = base + 4 * c;
        lemma_quad_indices_own_corners(b);
        let s = quads_indices(base, count);
        assert(s == prev + quad_indices(b));
        assert forall|j: int| 0 <= j < 6 * count implies (#[trigger] s[j]) as int == base + 4 * (j / 6)
            + quad_corner_offset(j % 6) by {
            if j < 6 * c {
                assert(s[j] == prev[j]);
            } else {
                let k = j - 6 * c;
                lemma_quad_place(j, c as int, k);
                assert(s[j] == quad_indices(b)[k]);
            }
        }
        assert forall|j: int| 0 <= j < 6 * count implies base + 4 * (j / 6) <= #[trigger] s[j] < base + 4 * (j / 6)
            + 4 by {
            assert(s[j] as int == base + 4 * (j / 6) + quad_corner_offset(j % 6));
        }
    }
}

/// Appends the six indices of the quad whose corners start at `corner`.
fn push_quad_indices(indices: &mut Vec<u16>, corner: u16)
    requires
        corner + 3 <= u16::MAX,
    ensures
        final(indices)@ == old(indices)@ + quad_indices(corner as int),
{
    indices.push(corner);
    indices.push(corner + 1);
    indices.push(corner + 2);
    indices.push(corner);
    indices.push(corner + 2);
    indices.push(corner + 3);
    proof {
        assert(indices@ =~= old(indices)@ + quad_indices(corner as int));
    }
}

pub struct MeshBuilder<V> {
    vertices: Vec<V>,
    indices: Vec<u16>,
}

impl<V> MeshBuilder<V> {
    pub closed spec fn vertices(&self) -> Seq<V> {
        self.vertices@
    }

    pub closed spec fn indices(&self) -> Seq<u16> {
        self.indices@
    }

    /// A builder with no vertices.
    pub fn new() -> (r: Self)
        ensures
            r.vertices() == Seq::<V>::empty(),
            r.indices() == Seq::<u16>::empty(),
    {
        MeshBuilder { vertices: Vec::new(), indices: Vec::new() }
    }

    /// The number of vertices added so far.
    pub fn vertex_count(&self) -> (r: usize)
        ensures
            r == self.vertices().len(),
    {
        self.vertices.len()
    }

    /// New vertices will be inserted starting here.
    pub fn next_index(&self) -> (r: u16)
        requires
            self.vertices().len() <= u16::MAX,
        ensures
            r == self.vertices().len(),
    {
        self.vertices.len() as u16
    }

    /// Adds a quad's four corners and the two triangles that draw it.
    ///
    /// The indices are 16-bit, so the corners must fit below `u16::MAX`.
    pub fn quad_with_uvs(self, bottom_left: V, bottom_right: V, top_right: V, top_left: V) -> (r: Self)
        requires
            self.vertices().len() + 3 <= u16::MAX,
        ensures
            r.vertices() == self.vertices() + seq![bottom_left, bottom_right, top_right, top_left],
            r.indices() == self.indices() + quad_indices(self.vertices().len() as int),
            r.indices().len() == self.indices().len() + 6,
            forall|k: int|
                0 <= k < 6 ==> (#[trigger] r.indices().skip(self.indices().len() as int)[k]) as int
                    == self.vertices().len() + quad_corner_offset(k),
    {
        let index = self.next_index();
        let MeshBuilder { mut vertices, mut indices } = self;
        vertices.push(bottom_left);
        vertices.push(bottom_right);
        vertices.push(top_right);
        vertices.push(top_left);
        push_quad_indices(&mut indices, index);
        proof {
            assert(vertices@ =~= self.vertices@ + seq![bottom_left, bottom_right, top_right, top_left]);
            lemma_quad_indices_own_corners(index as int);
            assert(indices@.skip(self.indices@.len() as int) =~= quad_indices(index as int));
        }
        MeshBuilder { vertices, indices }
    }

    /// Adds a box of six quad faces: `corners` holds the four corners of
    /// each face in turn, in the order back, front, left, right, bottom,
    /// top. Each face gets its own corners, so that each can carry its own
    /// normal and texture coordinates, and its own two triangles.
    ///
    /// The indices are 16-bit, so all corners must fit below `u16::MAX`.
    pub fn pseudocube(self, corners: Vec<V>) -> (r: Self)
        requires
            corners@.len() == CUBE_CORNERS,
            self.vertices().len() + CUBE_CORNERS - 1 <= u16::MAX,
        ensures
            r.vertices() == self.vertices() + corners@,
            r.indices() == self.indices() + quads_indices(
                self.vertices().len() as int,
                CUBE_FACES as nat,
            ),
            r.indices().len() == self.indices().len() + 6 * CUBE_FACES,
            forall|j: int|
                0 <= j < 6 * CUBE_FACES ==> (#[trigger] r.indices().skip(self.indices().len() as int)[j]) as int
                    == self.vertices().len() + 4 * (j / 6) + quad_corner_offset(j % 6),
    {
        let index = self.next_index();
        let MeshBuilder { mut vertices, mut indices } = self;
        let mut corners = corners;
        vertices.append(&mut corners);
        let mut face: u16 = 0;
        while face < 6
            invariant
                face <= 6,
                index == self.vertices@.len(),
                index + 23 <= u16::MAX,
                indices@ == self.indices@ + quads_indices(index as int, face as nat),
            decreases 6 - face,
        {
            push_quad_indices(&mut indices, index + 4 * face);
            proof {
                assert(indices@ =~= self.indices@ + quads_indices(index as int, (face + 1) as nat));
            }
            face = face + 1;
        }
        proof {
            lemma_quads_indices_own_corners(index as int, 6);
            assert(indices@.skip(self.indices@.len() as int) =~= quads_indices(index as int, 6));
        }
        MeshBuilder { vertices, indices }
    }

    /// The vertices and indices, for uploading to the graphics device.
    pub fn into_parts(self) -> (r: (Vec<V>, Vec<u16>))
        ensures
            r.0@ == self.vertices(),
            r.1@ == self.indices(),
    {
        (self.vertices, self.indices)
    }
}

} // verus!
