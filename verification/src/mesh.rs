//! Vertex and index buffers, and how buffers are joined into one.

use crate::block::Vertex;
use vstd::prelude::*;

verus! {

/// Most vertices a chunk's mesh can hold: 4096 voxels, six faces each, four
/// corners per face.
pub const MAX_CHUNK_VERTICES: usize = 98304;

/// The mathematical content of a vertex buffer with its index buffer.
pub ghost struct MeshView {
    pub vertices: Seq<Vertex>,
    pub indices: Seq<int>,
}

/// The indices of an index buffer as mathematical integers.
pub open spec fn index_view(s: Seq<u32>) -> Seq<int> {
    Seq::new(s.len(), |k: int| s[k] as int)
}

/// The mesh held by a pair of buffers.
pub open spec fn mesh_view(vertices: Seq<Vertex>, indices: Seq<u32>) -> MeshView {
    MeshView { vertices, indices: index_view(indices) }
}

/// The mesh without geometry.
pub open spec fn empty_mesh() -> MeshView {
    MeshView { vertices: Seq::empty(), indices: Seq::empty() }
}

/// Which corner of its face the `k`-th index of a face's two triangles names.
pub open spec fn triangle_corner(k: int) -> int {
    if k == 0 || k == 3 {
        0
    } else if k == 1 {
        1
    } else if k == 2 || k == 4 {
        2
    } else {
        3
    }
}

/// The index buffer of `n` faces whose corners lie four by four in the vertex
/// buffer: for each face the triangles (0, 1, 2) and (0, 2, 3) of its corners.
pub open spec fn quad_indices(n: nat) -> Seq<int> {
    Seq::new(6 * n, |k: int| 4 * (k / 6) + triangle_corner(k % 6))
}

impl MeshView {
    /// The mesh is made of faces: four vertices for each, and for each the six
    /// indices of its two triangles.
    pub open spec fn quads(self) -> bool {
        &&& self.vertices.len() % 4 == 0
        &&& self.indices == quad_indices(self.vertices.len() / 4)
    }

    /// Every index names a vertex of this mesh.
    pub open spec fn valid(self) -> bool {
        forall|k: int| 0 <= k < self.indices.len() ==> 0 <= #[trigger] self.indices[k] < self.vertices.len()
    }

    /// This mesh followed by `other`, the indices of `other` renumbered by the
    /// number of vertices that come before them.
    pub open spec fn join(self, other: MeshView) -> MeshView {
        MeshView {
            vertices: self.vertices + other.vertices,
            indices: self.indices + Seq::new(
                other.indices.len(),
                |k: int| other.indices[k] + self.vertices.len(),
            ),
        }
    }
}

/// All of `parts` joined in order.
pub open spec fn assembled(parts: Seq<MeshView>) -> MeshView
    decreases parts.len(),
{
    if parts.len() == 0 {
        empty_mesh()
    } else {
        assembled(parts.drop_last()).join(parts.last())
    }
}

/// Every index of `quad_indices(n)` names one of the `4 * n` corners.
pub proof fn lemma_quad_indices_valid(n: nat)
    ensures
        quad_indices(n).len() == 6 * n,
        forall|k: int| 0 <= k < 6 * n ==> 0 <= #[trigger] quad_indices(n)[k] < 4 * n,
{
    assert forall|k: int| 0 <= k < 6 * n implies 0 <= #[trigger] quad_indices(n)[k] < 4 * n by {
        assert(0 <= k / 6 < n);
        assert(0 <= triangle_corner(k % 6) <= 3);
    }
}

/// A mesh made of faces is valid.
pub proof fn lemma_quads_valid(a: MeshView)
    requires
        a.quads(),
    ensures
        a.valid(),
{
    lemma_quad_indices_valid(a.vertices.len() / 4);
}

/// Joining meshes made of faces gives a mesh made of faces.
pub proof fn lemma_join_quads(a: MeshView, b: MeshView)
    requires
        a.quads(),
        b.quads(),
    ensures
        a.join(b).quads(),
{
    let j = a.join(b);
    let na = a.vertices.len() / 4;
    let nb = b.vertices.len() / 4;
    assert(j.vertices.len() / 4 == na + nb);
    assert(j.indices.len() == 6 * (na + nb));
    assert forall|k: int| 0 <= k < 6 * (na + nb) implies j.indices[k] == quad_indices(na + nb)[k] by {
        if k < 6 * na {
            assert(j.indices[k] == a.indices[k]);
        } else {
            let t = k - 6 * na;
            assert(j.indices[k] == b.indices[t] + a.vertices.len());
            assert(t / 6 == k / 6 - na && t % 6 == k % 6);
        }
    }
    assert(j.indices =~= quad_indices(na + nb));
}

/// Joining valid meshes gives a valid mesh.
pub proof fn lemma_join_valid(a: MeshView, b: MeshView)
    requires
        a.valid(),
        b.valid(),
    ensures
        a.join(b).valid(),
        a.join(b).vertices.len() == a.vertices.len() + b.vertices.len(),
        a.join(b).indices.len() == a.indices.len() + b.indices.len(),
{
    let j = a.join(b);
    assert forall|k: int| 0 <= k < j.indices.len() implies 0 <= #[trigger] j.indices[k]
        < j.vertices.len() by {
        if k < a.indices.len() {
            assert(j.indices[k] == a.indices[k]);
        } else {
            assert(j.indices[k] == b.indices[k - a.indices.len()] + a.vertices.len());
        }
    }
}

/// Appends the buffers of one mesh to those of another, renumbering the
/// appended indices by the number of vertices already present.
pub fn append_mesh(
    vertices: &mut Vec<Vertex>,
    indices: &mut Vec<u32>,
    part_vertices: &Vec<Vertex>,
    part_indices: &Vec<u32>,
)
    requires
        mesh_view(part_vertices@, part_indices@).valid(),
        old(vertices).len() + part_vertices.len() <= u32::MAX,
    ensures
        mesh_view(final(vertices)@, final(indices)@) == mesh_view(old(vertices)@, old(indices)@).join(
            mesh_view(part_vertices@, part_indices@),
        ),
{
    let ghost before = mesh_view(vertices@, indices@);
    let ghost part = mesh_view(part_vertices@, part_indices@);
    let offset: u32 = vertices.len() as u32;
    let mut i: usize = 0;
    while i < part_vertices.len()
        invariant
            i <= part_vertices.len(),
            vertices@ == before.vertices + part_vertices@.take(i as int),
        decreases part_vertices.len() - i,
    {
        vertices.push(part_vertices[i]);
        i += 1;
        assert(part_vertices@.take(i as int) == part_vertices@.take(i - 1).push(
            part_vertices@[i - 1],
        ));
    }
    assert(part_vertices@.take(part_vertices.len() as int) == part_vertices@);
    let mut k: usize = 0;
    while k < part_indices.len()
        invariant
            k <= part_indices.len(),
            part.valid(),
            part == mesh_view(part_vertices@, part_indices@),
            before.indices.len() == old(indices)@.len(),
            offset == before.vertices.len(),
            offset + part_vertices.len() <= u32::MAX,
            indices.len() == before.indices.len() + k,
            forall|j: int| 0 <= j < before.indices.len() ==> indices[j] as int == before.indices[j],
            forall|j: int|
                0 <= j < k ==> #[trigger] indices[before.indices.len() + j] as int
                    == part_indices[j] + offset,
        decreases part_indices.len() - k,
    {
        assert(0 <= part.indices[k as int] < part.vertices.len());
        indices.push(part_indices[k] + offset);
        k += 1;
    }
    assert(index_view(indices@) =~= before.join(part).indices) by {
        let joined = before.join(part).indices;
        assert forall|j: int| 0 <= j < joined.len() implies index_view(indices@)[j] == joined[j] by {
            if j >= before.indices.len() {
                let t = j - before.indices.len();
                assert(indices[before.indices.len() + t] as int == part_indices[t] + offset);
            }
        }
    }
}

} // verus!
