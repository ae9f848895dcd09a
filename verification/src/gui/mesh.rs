//! Index buffer logic of GUI meshes.
//!
//! The builder keeps the vertices it is given, of whatever vertex type the
//! renderer uses, and the 16-bit indices of the triangles that draw them.
use vstd::prelude::*;

verus! {

/// The six indices of a quad whose four corners start at `index`: two
/// triangles sharing the diagonal from the first to the third corner.
pub open spec fn quad_indices(index: int) -> Seq<u16> {
    seq![index as u16, (index + 1) as u16, (index + 2) as u16, index as u16, (index + 2) as u16, (index + 3) as u16]
}

/// Which of a quad's four corners the `k`-th of its six indices draws,
/// counted from the quad's first corner: the triangles are corners 0, 1, 2
/// and 0, 2, 3.
pub open spec fn quad_corner_offset(k: int) -> int {
    if k == 0 || k == 3 {
        0
    } else if k == 1 {
        1
    } else if k == 2 || k == 4 {
        2
    } else {
        3
    }
}

/// A quad's triangles draw its own four corners: for a quad whose corners
/// are vertices `n` to `n + 3`, within 16-bit indices, the six indices are
/// the numbers `n, n + 1, n + 2, n, n + 2, n + 3`, each in `n..n + 4`.
pub proof fn lemma_quad_indices_own_corners(n: int)
    requires
        0 <= n,
        n + 3 <= u16::MAX,
    ensures
        quad_indices(n).len() == 6,
        quad_indices(n)[0] as int == n,
        quad_indices(n)[1] as int == n + 1,
        quad_indices(n)[2] as int == n + 2,
        quad_indices(n)[3] as int == n,
        quad_indices(n)[4] as int == n + 2,
        quad_indices(n)[5] as int == n + 3,
        forall|k: int| 0 <= k < 6 ==> (#[trigger] quad_indices(n)[k]) as int == n + quad_corner_offset(k),
        forall|k: int| 0 <= k < 6 ==> n <= #[trigger] quad_indices(n)[k] < n + 4,
{
}

pub struct GuiMeshBuilder<V> {
    vertices: Vec<V>,
    indices: Vec<u16>,
}

impl<V> Default for GuiMeshBuilder<V> {
    /// A builder with no vertices.
    fn default() -> (r: Self)
        ensures
            r.vertices() == Seq::<V>::empty(),
            r.indices() == Seq::<u16>::empty(),
    {
        GuiMeshBuilder::new()
    }
}

impl<V> GuiMeshBuilder<V> {
    pub closed spec fn vertices(&self) -> Seq<V> {
        self.vertices@
    }

    pub closed spec fn indices(&self) -> Seq<u16> {
        self.indices@
    }

    /// A builder with no vertices.
    pub fn new() -> (r: Self)
        ensures
            r.vertices() == Seq::<V>::empty(),
            r.indices() == Seq::<u16>::empty(),
    {
        GuiMeshBuilder { vertices: Vec::new(), indices: Vec::new() }
    }

    /// The number of vertices added so far.
    pub fn vertex_count(&self) -> (r: usize)
        ensures
            r == self.vertices().len(),
    {
        self.vertices.len()
    }

    /// New vertices will be inserted starting here.
    pub fn next_index(&self) -> (r: u16)
        requires
            self.vertices().len() <= u16::MAX,
        ensures
            r == self.vertices().len(),
    {
        self.vertices.len() as u16
    }

    /// Adds a quad's four corners and the two triangles that draw it.
    ///
    /// The indices are 16-bit, so the corners must fit below `u16::MAX`.
    pub fn quad(self, bottom_left: V, bottom_right: V, top_right: V, top_left: V) -> (r: Self)
        requires
            self.vertices().len() + 3 <= u16::MAX,
        ensures
            r.vertices() == self.vertices() + seq![bottom_left, bottom_right, top_right, top_left],
            r.indices() == self.indices() + quad_indices(self.vertices().len() as int),
            r.indices().len() == self.indices().len() + 6,
            forall|k: int|
                0 <= k < 6 ==> (#[trigger] r.indices().skip(self.indices().len() as int)[k]) as int
                    == self.vertices().len() + quad_corner_offset(k),
    {
        let index = self.next_index();
        let GuiMeshBuilder { mut vertices, mut indices } = self;
        vertices.push(bottom_left);
        vertices.push(bottom_right);
        vertices.push(top_right);
        vertices.push(top_left);
        indices.push(index);
        indices.push(index + 1);
        indices.push(index + 2);
        indices.push(index);
        indices.push(index + 2);
        indices.push(index + 3);
        proof {
            assert(indices@ =~= self.indices@ + quad_indices(index as int));
            lemma_quad_indices_own_corners(index as int);
            assert(indices@.skip(self.indices@.len() as int) =~= quad_indices(index as int));
            assert(vertices@ =~= self.vertices@ + seq![bottom_left, bottom_right, top_right, top_left]);
        }
        GuiMeshBuilder { vertices, indices }
    }

    /// The vertices and indices, for uploading to the graphics device.
    pub fn into_parts(self) -> (r: (Vec<V>, Vec<u16>))
        ensures
            r.0@ == self.vertices(),
            r.1@ == self.indices(),
    {
        (self.vertices, self.indices)
    }
}

} // verus!
