//! Voxels and the geometry of their faces.

use crate::grid::point;
use crate::mesh::{
    empty_mesh, lemma_quad_indices_valid, mesh_view, quad_indices, triangle_corner, MeshView,
};
use vstd::prelude::*;

verus! {

/// The six axis directions a voxel face can look in.
#[derive(Clone, Copy, Debug, PartialEq, Eq, Structural)]
pub enum FaceDir {
    Up,
    Down,
    Left,
    Right,
    Front,
    Back,
}

/// What a voxel is made of. `Air` carries no geometry.
#[derive(Clone, Copy, Debug, PartialEq, Eq, Structural)]
pub enum BlockType {
    Air,
    TNT,
    Grass,
    Dirt,
}

/// One corner of a face. `position` is in half-voxel units (twice the world
/// coordinate), `tex_coords` is a corner of the unit square, `normal` is the
/// unit normal of the face.
#[derive(Clone, Copy, Debug, PartialEq, Eq)]
pub struct Vertex {
    pub position: [i64; 3],
    pub tex_coords: [u8; 2],
    pub normal: [i8; 3],
}

/// A voxel: its kind and the world position of its centre.
#[derive(Clone, Copy, Debug, PartialEq, Eq)]
pub struct Block {
    pub block_type: BlockType,
    pub pos: [i64; 3],
}

/// Largest magnitude of a world coordinate whose face corners, in half-voxel
/// units, still fit the vertex format.
pub const MAX_WORLD_COORD: i64 = 0x1000_0000_0000_0000;

/// An axis vector as a triple of mathematical integers.
pub open spec fn axis_view(a: [i8; 3]) -> (int, int, int) {
    (a[0] as int, a[1] as int, a[2] as int)
}

/// `a` or its negation.
pub open spec fn signed(positive: bool, a: int) -> int {
    if positive {
        a
    } else {
        -a
    }
}

/// Whether corner `k` of a face lies on the positive side of the face's
/// horizontal axis. Corners run bottom left, bottom right, top right, top left.
pub open spec fn corner_right(k: int) -> bool {
    k == 1 || k == 2
}

/// Whether corner `k` of a face lies on the positive side of the face's
/// vertical axis.
pub open spec fn corner_top(k: int) -> bool {
    k == 2 || k == 3
}

impl FaceDir {
    /// The outward unit normal of the face.
    pub open spec fn normal(self) -> (int, int, int) {
        match self {
            FaceDir::Up => (0, 1, 0),
            FaceDir::Down => (0, -1, 0),
            FaceDir::Left => (-1, 0, 0),
            FaceDir::Right => (1, 0, 0),
            FaceDir::Front => (0, 0, -1),
            FaceDir::Back => (0, 0, 1),
        }
    }

    /// The horizontal texture axis of the face.
    pub open spec fn u_axis(self) -> (int, int, int) {
        match self {
            FaceDir::Up => (1, 0, 0),
            FaceDir::Down => (1, 0, 0),
            FaceDir::Left => (0, 0, 1),
            FaceDir::Right => (0, 0, -1),
            FaceDir::Front => (-1, 0, 0),
            FaceDir::Back => (1, 0, 0),
        }
    }

    /// The vertical texture axis of the face.
    pub open spec fn v_axis(self) -> (int, int, int) {
        match self {
            FaceDir::Up => (0, 0, -1),
            FaceDir::Down => (0, 0, 1),
            FaceDir::Left => (0, 1, 0),
            FaceDir::Right => (0, 1, 0),
            FaceDir::Front => (0, 1, 0),
            FaceDir::Back => (0, 1, 0),
        }
    }

    /// The face's frame: its normal, its horizontal and its vertical axis.
    pub fn get_axes(&self) -> (axes: ([i8; 3], [i8; 3], [i8; 3]))
        ensures
            axis_view(axes.0) == self.normal(),
            axis_view(axes.1) == self.u_axis(),
            axis_view(axes.2) == self.v_axis(),
    {
        match self {
            FaceDir::Up => ([0, 1, 0], [1, 0, 0], [0, 0, -1]),
            FaceDir::Down => ([0, -1, 0], [1, 0, 0], [0, 0, 1]),
            FaceDir::Left => ([-1, 0, 0], [0, 0, 1], [0, 1, 0]),
            FaceDir::Right => ([1, 0, 0], [0, 0, -1], [0, 1, 0]),
            FaceDir::Front => ([0, 0, -1], [-1, 0, 0], [0, 1, 0]),
            FaceDir::Back => ([0, 0, 1], [1, 0, 0], [0, 1, 0]),
        }
    }
}

/// One coordinate of corner `k` of a face, in half-voxel units: the voxel's
/// centre moved half a voxel along the normal and half a voxel along each of
/// the two in-plane axes, towards the corner.
pub open spec fn corner_coord(p: int, n: int, u: int, v: int, k: int) -> int {
    2 * p + n + signed(corner_right(k), u) + signed(corner_top(k), v)
}

/// Corner `k` of the face that the voxel centred at `pos` shows in direction
/// `dir`.
pub open spec fn face_vertex(pos: (int, int, int), dir: FaceDir, k: int) -> Vertex {
    let n = dir.normal();
    let u = dir.u_axis();
    let v = dir.v_axis();
    Vertex {
        position: [
            corner_coord(pos.0, n.0, u.0, v.0, k) as i64,
            corner_coord(pos.1, n.1, u.1, v.1, k) as i64,
            corner_coord(pos.2, n.2, u.2, v.2, k) as i64,
        ],
        tex_coords: [
            if corner_right(k) {
                1u8
            } else {
                0u8
            },
            if corner_top(k) {
                1u8
            } else {
                0u8
            },
        ],
        normal: [n.0 as i8, n.1 as i8, n.2 as i8],
    }
}

/// The vertex buffer of the faces `faces` of the voxel centred at `pos`: four
/// corners for each face, in the order of `faces`.
pub open spec fn face_vertices(pos: (int, int, int), faces: Seq<FaceDir>) -> Seq<Vertex> {
    Seq::new(4 * faces.len(), |k: int| face_vertex(pos, faces[k / 4], k % 4))
}

/// The geometry of a voxel for the faces asked for: nothing for `Air`.
pub open spec fn block_mesh(block: Block, faces: Seq<FaceDir>) -> MeshView {
    if block.block_type == BlockType::Air {
        empty_mesh()
    } else {
        MeshView {
            vertices: face_vertices(point(block.pos), faces),
            indices: quad_indices(faces.len()),
        }
    }
}

impl Block {
    pub fn new(pos: [i64; 3], block_type: BlockType) -> (block: Block)
        ensures
            block.block_type == block_type,
            block.pos == pos,
    {
        Block { block_type, pos }
    }

    /// Whether the corners of this voxel's faces fit the vertex format.
    pub open spec fn in_bounds(&self) -> bool {
        forall|a: int| 0 <= a < 3 ==> -MAX_WORLD_COORD <= #[trigger] self.pos[a] <= MAX_WORLD_COORD
    }

    /// Vertex and index buffers for the faces `faces` of this voxel, in the
    /// order given. An `Air` voxel has none, whatever faces are asked for.
    pub fn generate_faces(&self, faces: Vec<FaceDir>) -> (mesh: (Vec<Vertex>, Vec<u32>))
        requires
            self.block_type != BlockType::Air ==> self.in_bounds(),
            self.block_type != BlockType::Air ==> 4 * faces.len() <= u32::MAX,
        ensures
            mesh_view(mesh.0@, mesh.1@) == block_mesh(*self, faces@),
            mesh_view(mesh.0@, mesh.1@).quads(),
            mesh_view(mesh.0@, mesh.1@).valid(),
    {
        let mut vertices: Vec<Vertex> = Vec::new();
        let mut indices: Vec<u32> = Vec::new();
        if self.block_type == BlockType::Air {
            assert(mesh_view(vertices@, indices@).indices =~= empty_mesh().indices);
            assert(empty_mesh().indices =~= quad_indices(0));
            return (vertices, indices);
        }
        let mut i: usize = 0;
        while i < faces.len()
            invariant
                i <= faces.len(),
                self.in_bounds(),
                4 * faces.len() <= u32::MAX,
                vertices.len() == 4 * i,
                indices.len() == 6 * i,
                vertices@ == face_vertices(point(self.pos), faces@.take(i as int)),
                mesh_view(vertices@, indices@).indices == quad_indices(i as nat),
            decreases faces.len() - i,
        {
            let ghost before_vertices = vertices@;
            let ghost before_indices = indices@;
            Self::add_face(&mut vertices, &mut indices, self.pos, faces[i]);
            i += 1;
            proof {
                let p = point(self.pos);
                let done = faces@.take(i as int);
                assert(vertices@ =~= face_vertices(p, done)) by {
                    assert forall|k: int| 0 <= k < 4 * i implies vertices@[k] == face_vertex(
                        p,
                        done[k / 4],
                        k % 4,
                    ) by {
                        if k < 4 * (i - 1) {
                            assert(vertices@[k] == before_vertices[k]);
                            assert(faces@.take(i - 1)[k / 4] == done[k / 4]);
                        } else {
                            let c = k - 4 * (i - 1);
                            assert(k / 4 == i - 1 && k % 4 == c);
                            assert(vertices@[before_vertices.len() + c] == face_vertex(
                                p,
                                faces@[i - 1],
                                c,
                            ));
                        }
                    }
                }
                assert(mesh_view(vertices@, indices@).indices =~= quad_indices(i as nat)) by {
                    assert forall|k: int| 0 <= k < 6 * i implies mesh_view(vertices@, indices@).indices[k]
                        == quad_indices(i as nat)[k] by {
                        if k < 6 * (i - 1) {
                            assert(indices@[k] == before_indices[k]);
                            assert(mesh_view(before_vertices, before_indices).indices[k]
                                == before_indices[k] as int);
                        } else {
                            let c = k - 6 * (i - 1);
                            assert(k / 6 == i - 1 && k % 6 == c);
                            assert(indices@[before_indices.len() + c] as int == 4 * (i - 1)
                                + triangle_corner(c));
                        }
                    }
                }
            }
        }
        proof {
            assert(faces@.take(faces.len() as int) == faces@);
            assert(vertices.len() / 4 == faces.len());
            lemma_quad_indices_valid(faces.len() as nat);
        }
        (vertices, indices)
    }

    /// Appends the four corners and the two triangles of one face.
    pub fn add_face(
        vertices: &mut Vec<Vertex>,
        indices: &mut Vec<u32>,
        base_pos: [i64; 3],
        face_dir: FaceDir,
    )
        requires
            forall|a: int| 0 <= a < 3 ==> -MAX_WORLD_COORD <= #[trigger] base_pos[a] <= MAX_WORLD_COORD,
            old(vertices).len() + 4 <= u32::MAX,
        ensures
            final(vertices)@.len() == old(vertices)@.len() + 4,
            final(indices)@.len() == old(indices)@.len() + 6,
            forall|k: int| 0 <= k < old(vertices)@.len() ==> final(vertices)@[k] == old(vertices)@[k],
            forall|k: int| 0 <= k < old(indices)@.len() ==> final(indices)@[k] == old(indices)@[k],
            forall|k: int|
                0 <= k < 4 ==> #[trigger] final(vertices)@[old(vertices)@.len() + k] == face_vertex(
                    point(base_pos),
                    face_dir,
                    k,
                ),
            forall|k: int|
                0 <= k < 6 ==> #[trigger] final(indices)@[old(indices)@.len() + k] as int
                    == old(vertices)@.len() + triangle_corner(k),
    {
        let (normal, u_axis, v_axis) = face_dir.get_axes();
        let vertex_start: u32 = vertices.len() as u32;
        let mut k: usize = 0;
        while k < 4
            invariant
                k <= 4,
                forall|a: int| 0 <= a < 3 ==> -MAX_WORLD_COORD <= #[trigger] base_pos[a] <= MAX_WORLD_COORD,
                axis_view(normal) == face_dir.normal(),
                axis_view(u_axis) == face_dir.u_axis(),
                axis_view(v_axis) == face_dir.v_axis(),
                vertices@.len() == old(vertices)@.len() + k,
                forall|j: int| 0 <= j < old(vertices)@.len() ==> vertices@[j] == old(vertices)@[j],
                forall|j: int|
                    0 <= j < k ==> #[trigger] vertices@[old(vertices)@.len() + j] == face_vertex(
                        point(base_pos),
                        face_dir,
                        j,
                    ),
            decreases 4 - k,
        {
            let right = k == 1 || k == 2;
            let top = k == 2 || k == 3;
            let vertex = Vertex {
                position: [
                    corner(base_pos[0], normal[0], u_axis[0], v_axis[0], right, top),
                    corner(base_pos[1], normal[1], u_axis[1], v_axis[1], right, top),
                    corner(base_pos[2], normal[2], u_axis[2], v_axis[2], right, top),
                ],
                tex_coords: [
                    if right {
                        1
                    } else {
                        0
                    },
                    if top {
                        1
                    } else {
                        0
                    },
                ],
                normal,
            };
            assert(vertex.normal =~= face_vertex(point(base_pos), face_dir, k as int).normal);
            assert(vertex.position =~= face_vertex(point(base_pos), face_dir, k as int).position);
            assert(vertex.tex_coords =~= face_vertex(point(base_pos), face_dir, k as int).tex_coords);
            vertices.push(vertex);
            k += 1;
        }
        indices.push(vertex_start);
        indices.push(vertex_start + 1);
        indices.push(vertex_start + 2);
        indices.push(vertex_start);
        indices.push(vertex_start + 2);
        indices.push(vertex_start + 3);
    }
}

/// One coordinate of a face corner, in half-voxel units.
fn corner(p: i64, n: i8, u: i8, v: i8, right: bool, top: bool) -> (c: i64)
    requires
        -MAX_WORLD_COORD <= p <= MAX_WORLD_COORD,
        -1 <= n <= 1,
        -1 <= u <= 1,
        -1 <= v <= 1,
    ensures
        c == 2 * p + n + signed(right, u as int) + signed(top, v as int),
{
    let du: i64 = if right {
        u as i64
    } else {
        -(u as i64)
    };
    let dv: i64 = if top {
        v as i64
    } else {
        -(v as i64)
    };
    2 * p + n as i64 + du + dv
}

/// The cross product of two vectors.
pub open spec fn cross(a: (int, int, int), b: (int, int, int)) -> (int, int, int) {
    (a.1 * b.2 - a.2 * b.1, a.2 * b.0 - a.0 * b.2, a.0 * b.1 - a.1 * b.0)
}

/// The vector from `a` to `b`.
pub open spec fn edge(a: (int, int, int), b: (int, int, int)) -> (int, int, int) {
    (b.0 - a.0, b.1 - a.1, b.2 - a.2)
}

/// The position of a vertex, in half-voxel units.
pub open spec fn position_of(v: Vertex) -> (int, int, int) {
    (v.position[0] as int, v.position[1] as int, v.position[2] as int)
}

/// Both triangles of every face wind counter-clockwise seen from outside the
/// voxel: by the right-hand rule, the cross product of a triangle's first two
/// edges points along the normal that the face declares. Positions are in
/// half-voxel units, so the edges are 2 long and the product is 4 times the
/// unit normal. `first` is the place of the triangle's first index among the
/// six of the face, 0 or 3.
pub proof fn lemma_winding_follows_normal(pos: (int, int, int), dir: FaceDir, first: int)
    requires
        -MAX_WORLD_COORD <= pos.0 <= MAX_WORLD_COORD,
        -MAX_WORLD_COORD <= pos.1 <= MAX_WORLD_COORD,
        -MAX_WORLD_COORD <= pos.2 <= MAX_WORLD_COORD,
        first == 0 || first == 3,
    ensures
        ({
            let a = face_vertex(pos, dir, triangle_corner(first));
            let b = face_vertex(pos, dir, triangle_corner(first + 1));
            let c = face_vertex(pos, dir, triangle_corner(first + 2));
            let n = dir.normal();
            &&& cross(edge(position_of(a), position_of(b)), edge(position_of(a), position_of(c)))
                == (4 * n.0, 4 * n.1, 4 * n.2)
            &&& axis_view(a.normal) == n
            &&& axis_view(b.normal) == n
            &&& axis_view(c.normal) == n
        }),
{
    let a = position_of(face_vertex(pos, dir, triangle_corner(first)));
    let b = position_of(face_vertex(pos, dir, triangle_corner(first + 1)));
    let c = position_of(face_vertex(pos, dir, triangle_corner(first + 2)));
    let n = dir.normal();
    let u = dir.u_axis();
    let v = dir.v_axis();
    let ab = edge(a, b);
    let ac = edge(a, c);
    if first == 0 {
        assert(ab == (2 * u.0, 2 * u.1, 2 * u.2));
        assert(ac == (2 * u.0 + 2 * v.0, 2 * u.1 + 2 * v.1, 2 * u.2 + 2 * v.2));
    } else {
        assert(ab == (2 * u.0 + 2 * v.0, 2 * u.1 + 2 * v.1, 2 * u.2 + 2 * v.2));
        assert(ac == (2 * v.0, 2 * v.1, 2 * v.2));
    }
    lemma_cross_of_edges(u, v);
    lemma_unit_product(u.1, v.2);
    lemma_unit_product(u.2, v.1);
    lemma_unit_product(u.2, v.0);
    lemma_unit_product(u.0, v.2);
    lemma_unit_product(u.0, v.1);
    lemma_unit_product(u.1, v.0);
    assert(cross(u, v) == n);
}

/// The product of two numbers that are each -1, 0 or 1.
proof fn lemma_unit_product(a: int, b: int)
    requires
        -1 <= a <= 1,
        -1 <= b <= 1,
    ensures
        a * b == (if a == 0 || b == 0 {
            0int
        } else if a == b {
            1int
        } else {
            -1int
        }),
{
    assert(a * b == (if a == 0 || b == 0 {
        0int
    } else if a == b {
        1int
    } else {
        -1int
    })) by (nonlinear_arith)
        requires
            -1 <= a <= 1,
            -1 <= b <= 1,
    ;
}

/// The winding law for a whole voxel mesh: in the mesh of a solid voxel, the
/// three vertices that the index buffer names for triangle `t` of face `f`
/// wind around the normal of that face, and each declares that normal.
pub proof fn lemma_mesh_winding(block: Block, faces: Seq<FaceDir>, f: int, t: int)
    requires
        block.in_bounds(),
        block.block_type != BlockType::Air,
        0 <= f < faces.len(),
        t == 0 || t == 1,
    ensures
        ({
            let mesh = block_mesh(block, faces);
            let a = mesh.vertices[mesh.indices[6 * f + 3 * t]];
            let b = mesh.vertices[mesh.indices[6 * f + 3 * t + 1]];
            let c = mesh.vertices[mesh.indices[6 * f + 3 * t + 2]];
            let n = faces[f].normal();
            &&& cross(edge(position_of(a), position_of(b)), edge(position_of(a), position_of(c)))
                == (4 * n.0, 4 * n.1, 4 * n.2)
            &&& axis_view(a.normal) == n
            &&& axis_view(b.normal) == n
            &&& axis_view(c.normal) == n
        }),
{
    let mesh = block_mesh(block, faces);
    let pos = point(block.pos);
    assert(-MAX_WORLD_COORD <= block.pos[0] <= MAX_WORLD_COORD);
    assert(-MAX_WORLD_COORD <= block.pos[1] <= MAX_WORLD_COORD);
    assert(-MAX_WORLD_COORD <= block.pos[2] <= MAX_WORLD_COORD);
    lemma_winding_follows_normal(pos, faces[f], 3 * t);
    assert forall|j: int| 0 <= j < 3 implies mesh.vertices[#[trigger] mesh.indices[6 * f + 3 * t
        + j]] == face_vertex(pos, faces[f], triangle_corner(3 * t + j)) by {
        let k = 6 * f + 3 * t + j;
        assert(k / 6 == f && k % 6 == 3 * t + j);
        let v = 4 * f + triangle_corner(3 * t + j);
        assert(mesh.indices[k] == v);
        assert(v / 4 == f && v % 4 == triangle_corner(3 * t + j));
    }
    assert(mesh.indices[6 * f + 3 * t] == mesh.indices[6 * f + 3 * t + 0]);
}

/// The cross product of the first two edges of either triangle of a face with
/// in-plane axes `u` and `v` is 4 times the cross product of the axes.
proof fn lemma_cross_of_edges(u: (int, int, int), v: (int, int, int))
    ensures
        cross((2 * u.0, 2 * u.1, 2 * u.2), (2 * u.0 + 2 * v.0, 2 * u.1 + 2 * v.1, 2 * u.2 + 2 * v.2))
            == (4 * cross(u, v).0, 4 * cross(u, v).1, 4 * cross(u, v).2),
        cross((2 * u.0 + 2 * v.0, 2 * u.1 + 2 * v.1, 2 * u.2 + 2 * v.2), (2 * v.0, 2 * v.1, 2 * v.2))
            == (4 * cross(u, v).0, 4 * cross(u, v).1, 4 * cross(u, v).2),
{
    lemma_edge_products(u.1, u.2, v.1, v.2);
    lemma_edge_products(u.2, u.0, v.2, v.0);
    lemma_edge_products(u.0, u.1, v.0, v.1);
}

/// One component of `lemma_cross_of_edges`.
proof fn lemma_edge_products(a: int, b: int, c: int, d: int)
    ensures
        (2 * a) * (2 * b + 2 * d) - (2 * b) * (2 * a + 2 * c) == 4 * (a * d - b * c),
        (2 * a + 2 * c) * (2 * d) - (2 * b + 2 * d) * (2 * c) == 4 * (a * d - b * c),
{
    assert((2 * a) * (2 * b + 2 * d) - (2 * b) * (2 * a + 2 * c) == 4 * (a * d - b * c))
        by (nonlinear_arith);
    assert((2 * a + 2 * c) * (2 * d) - (2 * b + 2 * d) * (2 * c) == 4 * (a * d - b * c))
        by (nonlinear_arith);
}

} // verus!
