//! The mesh assembly stage: face culling, per-chunk meshes, the mesh cache and
//! the consolidated buffers.
//!
//! A face of a solid voxel is shown exactly if the voxel next to it in that
//! direction is loaded and is air. A neighbour in a chunk that is not loaded
//! hides the face: nothing is drawn towards the unloaded world, at the price
//! that a chunk at the edge of the loaded world lacks faces until its
//! neighbour loads.
//!
//! A cached mesh is reused as it is. To keep such meshes from going stale,
//! the cache is invalidated rather than the unloaded world taken for air:
//! `invalidate_neighbors` drops the cached meshes of the chunks next to every
//! chunk that was loaded or unloaded, and the next assembly builds them anew.
//! That this is enough is `lemma_chunk_mesh_is_local`: a chunk's mesh depends
//! on the chunk and its six neighbours alone. The cached mesh of an unloaded
//! chunk stays in the cache and serves again when the chunk returns, which is
//! sound as long as a chunk that returns is the chunk that left.

use crate::block::{block_mesh, Block, BlockType, FaceDir, Vertex, MAX_WORLD_COORD};
use crate::chunk::Chunk;
use crate::chunk_manager::{chunks_wf, ChunkManager, ChunkMeshData};
use crate::coord_map::{
    absent_from, coords_of, keys_of, lemma_filter_contains, lemma_filter_push, negated, CoordMap,
};
use crate::grid::{
    chunk_index, chunk_of, coord, flat, local_index, local_of, point, voxel_point, CHUNK_VOLUME,
};
use crate::mesh::{
    append_mesh, assembled, empty_mesh, lemma_join_quads, lemma_join_valid, lemma_quads_valid,
    mesh_view, quad_indices, MeshView, MAX_CHUNK_VERTICES,
};
use vstd::prelude::*;

verus! {

/// The voxel at the world position `w`, if the chunk that owns `w` is loaded.
pub open spec fn block_at(chunks: CoordMap<Chunk>, w: (int, int, int)) -> Option<Block> {
    let c = (chunk_of(w.0), chunk_of(w.1), chunk_of(w.2));
    if chunks.contains(c) {
        Some(chunks.value(c).blocks[flat(local_of(w.0), local_of(w.1), local_of(w.2))])
    } else {
        None
    }
}

/// Whether a face that looks at the world position `neighbor` is shown: the
/// voxel there is loaded and is air.
pub open spec fn shows_face(chunks: CoordMap<Chunk>, neighbor: (int, int, int)) -> bool {
    match block_at(chunks, neighbor) {
        Some(block) => block.block_type == BlockType::Air,
        None => false,
    }
}

/// The world position next to `p` in direction `dir`.
pub open spec fn step(p: (int, int, int), dir: FaceDir) -> (int, int, int) {
    (p.0 + dir.normal().0, p.1 + dir.normal().1, p.2 + dir.normal().2)
}

/// `dir` alone if `show`, else nothing.
pub open spec fn pick(show: bool, dir: FaceDir) -> Seq<FaceDir> {
    if show {
        seq![dir]
    } else {
        Seq::empty()
    }
}

/// The faces among the six that are marked as shown, in the order up, down,
/// left, right, front, back.
pub open spec fn shown_faces(
    up: bool,
    down: bool,
    left: bool,
    right: bool,
    front: bool,
    back: bool,
) -> Seq<FaceDir> {
    pick(up, FaceDir::Up) + pick(down, FaceDir::Down) + pick(left, FaceDir::Left) + pick(
        right,
        FaceDir::Right,
    ) + pick(front, FaceDir::Front) + pick(back, FaceDir::Back)
}

/// The faces shown by a solid voxel at `p`, in the order up, down, left,
/// right, front, back.
pub open spec fn visible_faces(chunks: CoordMap<Chunk>, p: (int, int, int)) -> Seq<FaceDir> {
    shown_faces(
        shows_face(chunks, step(p, FaceDir::Up)),
        shows_face(chunks, step(p, FaceDir::Down)),
        shows_face(chunks, step(p, FaceDir::Left)),
        shows_face(chunks, step(p, FaceDir::Right)),
        shows_face(chunks, step(p, FaceDir::Front)),
        shows_face(chunks, step(p, FaceDir::Back)),
    )
}

/// Lists the faces that are marked as shown.
pub fn list_faces(
    up: bool,
    down: bool,
    left: bool,
    right: bool,
    front: bool,
    back: bool,
) -> (faces: Vec<FaceDir>)
    ensures
        faces@ == shown_faces(up, down, left, right, front, back),
        faces.len() <= 6,
{
    let mut faces: Vec<FaceDir> = Vec::new();
    if up {
        faces.push(FaceDir::Up);
    }
    let ghost f1 = faces@;
    if down {
        faces.push(FaceDir::Down);
    }
    let ghost f2 = faces@;
    if left {
        faces.push(FaceDir::Left);
    }
    let ghost f3 = faces@;
    if right {
        faces.push(FaceDir::Right);
    }
    let ghost f4 = faces@;
    if front {
        faces.push(FaceDir::Front);
    }
    let ghost f5 = faces@;
    if back {
        faces.push(FaceDir::Back);
    }
    proof {
        assert(f1 =~= pick(up, FaceDir::Up));
        assert(f2 =~= f1 + pick(down, FaceDir::Down));
        assert(f3 =~= f2 + pick(left, FaceDir::Left));
        assert(f4 =~= f3 + pick(right, FaceDir::Right));
        assert(f5 =~= f4 + pick(front, FaceDir::Front));
        assert(faces@ =~= f5 + pick(back, FaceDir::Back));
    }
    faces
}

/// The mesh of one voxel among the loaded chunks.
pub open spec fn voxel_mesh(chunks: CoordMap<Chunk>, block: Block) -> MeshView {
    block_mesh(block, visible_faces(chunks, point(block.pos)))
}

/// The meshes of the voxels of a chunk, in the order of its voxel list.
pub open spec fn voxel_meshes(chunks: CoordMap<Chunk>, chunk: Chunk) -> Seq<MeshView> {
    Seq::new(CHUNK_VOLUME as nat, |i: int| voxel_mesh(chunks, chunk.blocks[i]))
}

/// The mesh of a chunk among the loaded chunks: the meshes of its voxels,
/// joined.
pub open spec fn chunk_mesh(chunks: CoordMap<Chunk>, chunk: Chunk) -> MeshView {
    assembled(voxel_meshes(chunks, chunk))
}

/// Every cached mesh is well formed, and no coordinate is cached twice.
pub open spec fn cache_wf(cache: CoordMap<ChunkMeshData>) -> bool {
    &&& cache.wf()
    &&& forall|i: int| 0 <= i < cache.entries.len() ==> (#[trigger] cache.entries[i]).value.wf()
}

/// For each loaded chunk, in the order of the chunk map, the mesh that goes
/// into the consolidated buffers: the cached one where the cache has one, else
/// the mesh built from the loaded chunks.
pub open spec fn selected_meshes(
    chunks: CoordMap<Chunk>,
    cache: CoordMap<ChunkMeshData>,
) -> Seq<MeshView> {
    Seq::new(
        chunks.entries@.len(),
        |i: int|
            if cache.contains(chunks.keys()[i]) {
                cache.value(chunks.keys()[i])@
            } else {
                chunk_mesh(chunks, chunks.entries[i].value)
            },
    )
}

/// Whether two chunk-grid coordinates are next to each other: they differ by
/// one along one axis and agree along the other two.
pub open spec fn adjacent(a: (int, int, int), b: (int, int, int)) -> bool {
    ||| a.1 == b.1 && a.2 == b.2 && (a.0 - b.0 == 1 || b.0 - a.0 == 1)
    ||| a.0 == b.0 && a.2 == b.2 && (a.1 - b.1 == 1 || b.1 - a.1 == 1)
    ||| a.0 == b.0 && a.1 == b.1 && (a.2 - b.2 == 1 || b.2 - a.2 == 1)
}

/// Whether `c` is next to one of the coordinates `changed`.
pub open spec fn touches(changed: Seq<(int, int, int)>, c: (int, int, int)) -> bool {
    exists|i: int| 0 <= i < changed.len() && adjacent(#[trigger] changed[i], c)
}

/// The test that a coordinate is next to none of `changed`.
pub open spec fn untouched(changed: Seq<(int, int, int)>) -> spec_fn((int, int, int)) -> bool {
    |c: (int, int, int)| !touches(changed, c)
}

/// Two coordinates are next to each other exactly if one step in some
/// direction leads from the one to the other.
pub proof fn lemma_adjacent_is_one_step(a: (int, int, int), b: (int, int, int))
    ensures
        adjacent(a, b) <==> exists|dir: FaceDir| step(a, dir) == b,
{
    if adjacent(a, b) {
        let dir = if b.1 - a.1 == 1 {
            FaceDir::Up
        } else if a.1 - b.1 == 1 {
            FaceDir::Down
        } else if a.0 - b.0 == 1 {
            FaceDir::Left
        } else if b.0 - a.0 == 1 {
            FaceDir::Right
        } else if a.2 - b.2 == 1 {
            FaceDir::Front
        } else {
            FaceDir::Back
        };
        assert(step(a, dir) == b);
    }
}

/// Joining a mesh with the empty mesh leaves it as it is.
pub proof fn lemma_join_empty(a: MeshView)
    ensures
        a.join(empty_mesh()) == a,
{
    assert(a.join(empty_mesh()).vertices =~= a.vertices);
    assert(a.join(empty_mesh()).indices =~= a.indices);
}

/// The voxel at place `i` of a loaded chunk is the voxel found at its world
/// position.
pub proof fn lemma_block_at_loaded(chunks: CoordMap<Chunk>, k: int, i: int)
    requires
        chunks_wf(chunks),
        0 <= k < chunks.entries.len(),
        0 <= i < CHUNK_VOLUME,
    ensures
        block_at(chunks, point(chunks.entries[k].value.blocks[i].pos)) == Some(
            chunks.entries[k].value.blocks[i],
        ),
{
    let chunk = chunks.entries[k].value;
    let w = point(chunk.blocks[i].pos);
    chunks.lemma_entry(k);
    assert(chunks.entries[k].value.wf());
    let o = coord(chunk.origin);
    assert(w == voxel_point(o, i));
    assert(chunk_of(w.0) == o.0 && chunk_of(w.1) == o.1 && chunk_of(w.2) == o.2);
    assert(flat(local_of(w.0), local_of(w.1), local_of(w.2)) == i);
}

impl ChunkManager {
    /// Tests whether a mesh cache is well formed.
    pub fn cache_is_wf(cache: &CoordMap<ChunkMeshData>) -> (ok: bool)
        ensures
            ok == cache_wf(*cache),
    {
        if !cache.is_wf() {
            return false;
        }
        let mut i: usize = 0;
        while i < cache.entries.len()
            invariant
                i <= cache.entries.len(),
                forall|j: int| 0 <= j < i ==> (#[trigger] cache.entries[j]).value.wf(),
            decreases cache.entries.len() - i,
        {
            if !cache.entries[i].value.is_wf() {
                return false;
            }
            i += 1;
        }
        true
    }

    /// Whether two chunk-grid coordinates are next to each other.
    pub fn is_adjacent(a: &[i32; 3], b: &[i32; 3]) -> (next: bool)
        ensures
            next == adjacent(coord(*a), coord(*b)),
    {
        let dx: i64 = a[0] as i64 - b[0] as i64;
        let dy: i64 = a[1] as i64 - b[1] as i64;
        let dz: i64 = a[2] as i64 - b[2] as i64;
        (dy == 0 && dz == 0 && (dx == 1 || dx == -1)) || (dx == 0 && dz == 0 && (dy == 1 || dy
            == -1)) || (dx == 0 && dy == 0 && (dz == 1 || dz == -1))
    }

    /// Drops from the cache the meshes of the chunks next to each of the
    /// coordinates `changed`, which are the chunks whose visible faces a chunk
    /// loaded or unloaded at one of those coordinates can change. The other
    /// cached meshes stay as they are, in their order. Returns the coordinates
    /// whose meshes were dropped.
    pub fn invalidate_neighbors(
        changed: &Vec<[i32; 3]>,
        mesh_map: &mut CoordMap<ChunkMeshData>,
    ) -> (dropped: Vec<[i32; 3]>)
        requires
            cache_wf(*old(mesh_map)),
        ensures
            cache_wf(*final(mesh_map)),
            final(mesh_map).keys() == old(mesh_map).keys().filter(untouched(coords_of(changed@))),
            coords_of(dropped@) == old(mesh_map).keys().filter(
                negated(untouched(coords_of(changed@))),
            ),
            forall|c: (int, int, int)| #[trigger]
                final(mesh_map).contains(c) ==> old(mesh_map).contains(c) && final(mesh_map).value(c)
                    == old(mesh_map).value(c),
    {
        let ghost before = *mesh_map;
        let ghost pred = untouched(coords_of(changed@));
        let mut keep: Vec<bool> = Vec::new();
        let mut i: usize = 0;
        while i < mesh_map.entries.len()
            invariant
                i <= mesh_map.entries.len(),
                keep.len() == i,
                *mesh_map == before,
                pred == untouched(coords_of(changed@)),
                forall|j: int| 0 <= j < i ==> keep[j] == pred(#[trigger] mesh_map.keys()[j]),
            decreases mesh_map.entries.len() - i,
        {
            let key = &mesh_map.entries[i].key;
            let mut touched = false;
            let mut k: usize = 0;
            while k < changed.len()
                invariant
                    k <= changed.len(),
                    touched == (exists|t: int|
                        0 <= t < k && adjacent(#[trigger] coords_of(changed@)[t], coord(*key))),
                decreases changed.len() - k,
            {
                if Self::is_adjacent(&changed[k], key) {
                    assert(adjacent(coords_of(changed@)[k as int], coord(*key)));
                    touched = true;
                }
                k += 1;
            }
            assert(mesh_map.keys()[i as int] == coord(*key));
            keep.push(!touched);
            i += 1;
        }
        let dropped = mesh_map.retain_marked(&keep, Ghost(pred));
        proof {
            assert forall|j: int| 0 <= j < mesh_map.entries.len() implies (
            #[trigger] mesh_map.entries[j]).value.wf() by {
                let c = coord(mesh_map.entries[j].key);
                mesh_map.lemma_entry(j);
                assert(before.contains(c));
                let t = before.keys().index_of(c);
                assert(0 <= t < before.keys().len() && before.keys()[t] == c);
                assert(before.entries[t].value.wf());
            }
        }
        dropped
    }

    /// The voxel at a world position: the chunk that owns the position is found
    /// by floor division by the chunk size, the voxel in it by the Euclidean
    /// remainder. `None` if that chunk is not loaded.
    pub fn get_block(world_pos: [i64; 3], chunks: &CoordMap<Chunk>) -> (block: Option<Block>)
        requires
            chunks_wf(*chunks),
        ensures
            block == block_at(*chunks, point(world_pos)),
    {
        let cx: i64 = chunk_index(world_pos[0]);
        let cy: i64 = chunk_index(world_pos[1]);
        let cz: i64 = chunk_index(world_pos[2]);
        let ghost c = (cx as int, cy as int, cz as int);
        if cx < i32::MIN as i64 || cx > i32::MAX as i64 || cy < i32::MIN as i64 || cy > i32::MAX as i64
            || cz < i32::MIN as i64 || cz > i32::MAX as i64 {
            proof {
                if chunks.contains(c) {
                    let i = choose|i: int| 0 <= i < chunks.keys().len() && chunks.keys()[i] == c;
                    assert(c == coord(chunks.entries[i].key));
                }
            }
            return None;
        }
        let key: [i32; 3] = [cx as i32, cy as i32, cz as i32];
        let x: usize = local_index(world_pos[0]);
        let y: usize = local_index(world_pos[1]);
        let z: usize = local_index(world_pos[2]);
        match chunks.find(&key) {
            Some(i) => {
                proof {
                    chunks.lemma_entry(i as int);
                }
                assert(chunks.entries[i as int].value.wf());
                Some(chunks.entries[i].value.block(x, y, z))
            },
            None => None,
        }
    }

    /// Whether a face that looks at `neighbor_pos` is to be rendered.
    pub fn should_render_face(neighbor_pos: [i64; 3], chunks: &CoordMap<Chunk>) -> (show: bool)
        requires
            chunks_wf(*chunks),
        ensures
            show == shows_face(*chunks, point(neighbor_pos)),
    {
        match Self::get_block(neighbor_pos, chunks) {
            Some(neighbor) => neighbor.block_type == BlockType::Air,
            None => false,
        }
    }

    /// The faces that a solid voxel at `pos` shows among the loaded chunks.
    pub fn faces_to_render(pos: [i64; 3], chunks: &CoordMap<Chunk>) -> (faces: Vec<FaceDir>)
        requires
            chunks_wf(*chunks),
            forall|a: int| 0 <= a < 3 ==> -MAX_WORLD_COORD <= #[trigger] pos[a] <= MAX_WORLD_COORD,
        ensures
            faces@ == visible_faces(*chunks, point(pos)),
            faces.len() <= 6,
    {
        let x: i64 = pos[0];
        let y: i64 = pos[1];
        let z: i64 = pos[2];
        let up = Self::should_render_face([x, y + 1, z], chunks);
        let down = Self::should_render_face([x, y - 1, z], chunks);
        let left = Self::should_render_face([x - 1, y, z], chunks);
        let right = Self::should_render_face([x + 1, y, z], chunks);
        let front = Self::should_render_face([x, y, z - 1], chunks);
        let back = Self::should_render_face([x, y, z + 1], chunks);
        list_faces(up, down, left, right, front, back)
    }

    /// The mesh of the chunk at place `place` of the chunk map: for every voxel
    /// that is not air, the faces that look at a loaded air voxel.
    pub fn build_chunk_mesh(chunks: &CoordMap<Chunk>, place: usize) -> (mesh: ChunkMeshData)
        requires
            chunks_wf(*chunks),
            place < chunks.entries.len(),
        ensures
            mesh@ == chunk_mesh(*chunks, chunks.entries[place as int].value),
            mesh.wf(),
    {
        let chunk = &chunks.entries[place].value;
        assert(chunks.entries[place as int].value.wf());
        let ghost parts = voxel_meshes(*chunks, *chunk);
        let mut chunk_vertices: Vec<Vertex> = Vec::new();
        let mut chunk_indices: Vec<u32> = Vec::new();
        assert(mesh_view(chunk_vertices@, chunk_indices@).indices =~= empty_mesh().indices);
        assert(empty_mesh().indices =~= quad_indices(0));
        let mut i: usize = 0;
        while i < CHUNK_VOLUME
            invariant
                i <= CHUNK_VOLUME,
                chunks_wf(*chunks),
                chunk.wf(),
                parts == voxel_meshes(*chunks, *chunk),
                mesh_view(chunk_vertices@, chunk_indices@) == assembled(parts.take(i as int)),
                mesh_view(chunk_vertices@, chunk_indices@).quads(),
                mesh_view(chunk_vertices@, chunk_indices@).valid(),
                chunk_vertices.len() <= 24 * i,
            decreases CHUNK_VOLUME - i,
        {
            let block = chunk.blocks[i];
            let ghost sofar = mesh_view(chunk_vertices@, chunk_indices@);
            proof {
                assert(parts.take(i + 1).drop_last() == parts.take(i as int));
                assert(parts.take(i + 1).last() == voxel_mesh(*chunks, block));
                assert(point(block.pos) == voxel_point(coord(chunk.origin), i as int));
                lemma_join_empty(sofar);
            }
            if block.block_type != BlockType::Air {
                let faces = Self::faces_to_render(block.pos, chunks);
                let (block_vertices, block_indices) = block.generate_faces(faces);
                append_mesh(&mut chunk_vertices, &mut chunk_indices, &block_vertices, &block_indices);
                proof {
                    lemma_join_valid(sofar, mesh_view(block_vertices@, block_indices@));
                    lemma_join_quads(sofar, mesh_view(block_vertices@, block_indices@));
                }
            }
            i += 1;
        }
        assert(parts.take(CHUNK_VOLUME as int) == parts);
        ChunkMeshData { vertices: chunk_vertices, indices: chunk_indices }
    }

    /// The consolidated vertex and index buffers of the loaded chunks, in the
    /// order of the chunk map. A chunk that has a cached mesh contributes that
    /// mesh as it is; any other gets its mesh built and cached. The indices of
    /// each chunk are renumbered by the number of vertices that come before
    /// them. Cached meshes are neither rebuilt nor dropped.
    pub fn get_buffers(
        chunks: &CoordMap<Chunk>,
        mesh_map: &mut CoordMap<ChunkMeshData>,
    ) -> (buffers: (Vec<Vertex>, Vec<u32>))
        requires
            chunks_wf(*chunks),
            cache_wf(*old(mesh_map)),
            chunks.entries.len() * MAX_CHUNK_VERTICES <= u32::MAX,
        ensures
            mesh_view(buffers.0@, buffers.1@) == assembled(selected_meshes(*chunks, *old(mesh_map))),
            mesh_view(buffers.0@, buffers.1@).quads(),
            mesh_view(buffers.0@, buffers.1@).valid(),
            cache_wf(*final(mesh_map)),
            final(mesh_map).keys() == old(mesh_map).keys() + chunks.keys().filter(
                absent_from(old(mesh_map).keys()),
            ),
            old(mesh_map).entries.len() <= final(mesh_map).entries.len(),
            final(mesh_map).entries@.take(old(mesh_map).entries.len() as int) == old(mesh_map).entries@,
            forall|k: int|
                old(mesh_map).entries.len() <= k < final(mesh_map).entries.len() ==> (
                #[trigger] final(mesh_map).entries[k]).value@ == chunk_mesh(
                    *chunks,
                    chunks.value(final(mesh_map).keys()[k]),
                ),
    {
        let ghost before = *mesh_map;
        let ghost fresh = absent_from(before.keys());
        let ghost parts = selected_meshes(*chunks, before);
        let mut vertices: Vec<Vertex> = Vec::new();
        let mut indices: Vec<u32> = Vec::new();
        assert(mesh_view(vertices@, indices@).indices =~= empty_mesh().indices);
        assert(empty_mesh().indices =~= quad_indices(0));
        assert(chunks.keys().take(0).filter(fresh) =~= Seq::empty()) by {
            reveal(Seq::filter);
        }
        assert(mesh_map.keys() =~= before.keys() + Seq::empty());
        let mut i: usize = 0;
        while i < chunks.len()
            invariant
                i <= chunks.entries.len(),
                chunks_wf(*chunks),
                cache_wf(before),
                cache_wf(*mesh_map),
                chunks.entries.len() * MAX_CHUNK_VERTICES <= u32::MAX,
                fresh == absent_from(before.keys()),
                parts == selected_meshes(*chunks, before),
                before.entries.len() <= mesh_map.entries.len(),
                mesh_map.entries@.take(before.entries.len() as int) == before.entries@,
                mesh_map.keys() == before.keys() + chunks.keys().take(i as int).filter(fresh),
                forall|k: int|
                    before.entries.len() <= k < mesh_map.entries.len() ==> (
                    #[trigger] mesh_map.entries[k]).value@ == chunk_mesh(
                        *chunks,
                        chunks.value(mesh_map.keys()[k]),
                    ),
                mesh_view(vertices@, indices@) == assembled(parts.take(i as int)),
                mesh_view(vertices@, indices@).quads(),
                mesh_view(vertices@, indices@).valid(),
                vertices.len() <= i * MAX_CHUNK_VERTICES,
            decreases chunks.entries.len() - i,
        {
            let key: [i32; 3] = chunks.entries[i].key;
            let ghost c = coord(key);
            let ghost sofar = mesh_view(vertices@, indices@);
            let ghost added = chunks.keys().take(i as int).filter(fresh);
            proof {
                chunks.lemma_entry(i as int);
                assert(chunks.keys()[i as int] == c);
                assert(parts.take(i + 1).drop_last() == parts.take(i as int));
                assert(chunks.keys().take(i + 1) == chunks.keys().take(i as int).push(c));
                lemma_filter_push(chunks.keys().take(i as int), c, fresh);
                lemma_filter_contains(chunks.keys().take(i as int), fresh, c);
                if chunks.keys().take(i as int).contains(c) {
                    let j = choose|j: int| 0 <= j < i && chunks.keys().take(i as int)[j] == c;
                    assert(chunks.keys()[j] == chunks.keys()[i as int]);
                }
                assert(!added.contains(c));
                assert((i + 1) * MAX_CHUNK_VERTICES <= chunks.entries.len() * MAX_CHUNK_VERTICES);
            }
            match mesh_map.find(&key) {
                Some(at) => {
                    proof {
                        if at >= before.entries.len() {
                            assert(added[at - before.entries.len()] == c);
                        }
                        assert(mesh_map.entries@.take(before.entries.len() as int)[at as int]
                            == mesh_map.entries[at as int]);
                        before.lemma_entry(at as int);
                        assert(before.keys()[at as int] == c);
                        assert(parts[i as int] == mesh_map.entries[at as int].value@);
                        assert(mesh_map.entries[at as int].value.wf());
                        lemma_quads_valid(parts[i as int]);
                    }
                    let cached = &mesh_map.entries[at].value;
                    append_mesh(&mut vertices, &mut indices, &cached.vertices, &cached.indices);
                    proof {
                        lemma_join_valid(sofar, parts[i as int]);
                        lemma_join_quads(sofar, parts[i as int]);
                    }
                },
                None => {
                    proof {
                        if before.contains(c) {
                            let j = choose|j: int|
                                0 <= j < before.keys().len() && before.keys()[j] == c;
                            assert(mesh_map.keys()[j] == c);
                        }
                        assert(parts[i as int] == chunk_mesh(*chunks, chunks.entries[i as int].value));
                    }
                    let mesh = Self::build_chunk_mesh(chunks, i);
                    append_mesh(&mut vertices, &mut indices, &mesh.vertices, &mesh.indices);
                    proof {
                        lemma_join_valid(sofar, parts[i as int]);
                        lemma_join_quads(sofar, parts[i as int]);
                    }
                    let ghost entries_before = mesh_map.entries@;
                    mesh_map.insert(key, mesh);
                    proof {
                        assert(mesh_map.entries@.take(before.entries.len() as int)
                            =~= entries_before.take(before.entries.len() as int));
                        assert(mesh_map.keys() =~= before.keys() + added.push(c));
                        assert forall|k: int|
                            before.entries.len() <= k < mesh_map.entries.len() implies (
                        #[trigger] mesh_map.entries[k]).value@ == chunk_mesh(
                            *chunks,
                            chunks.value(mesh_map.keys()[k]),
                        ) by {
                            if k < entries_before.len() {
                                assert(mesh_map.entries[k] == entries_before[k]);
                                assert(mesh_map.keys()[k] == keys_of(entries_before)[k]);
                            }
                        }
                        assert forall|k: int| 0 <= k < mesh_map.entries.len() implies (
                        #[trigger] mesh_map.entries[k]).value.wf() by {
                            if k < entries_before.len() {
                                assert(mesh_map.entries[k] == entries_before[k]);
                            }
                        }
                    }
                },
            }
            i += 1;
        }
        proof {
            assert(parts.take(chunks.entries.len() as int) == parts);
            assert(chunks.keys().take(chunks.entries.len() as int) == chunks.keys());
        }
        (vertices, indices)
    }
}

/// What a concatenation contains.
pub proof fn lemma_concat_contains<A>(a: Seq<A>, b: Seq<A>, x: A)
    ensures
        (a + b).contains(x) <==> a.contains(x) || b.contains(x),
{
    if a.contains(x) {
        let k = choose|k: int| 0 <= k < a.len() && a[k] == x;
        assert((a + b)[k] == x);
    }
    if b.contains(x) {
        let k = choose|k: int| 0 <= k < b.len() && b[k] == x;
        assert((a + b)[a.len() + k] == x);
    }
    if (a + b).contains(x) {
        let k = choose|k: int| 0 <= k < (a + b).len() && (a + b)[k] == x;
        if k < a.len() {
            assert(a[k] == x);
        } else {
            assert(b[k - a.len()] == x);
        }
    }
}

/// What `pick` contains.
pub proof fn lemma_pick_contains(show: bool, dir: FaceDir, x: FaceDir)
    ensures
        pick(show, dir).contains(x) <==> show && dir == x,
{
    if show {
        assert(pick(show, dir)[0] == dir);
    }
}

/// A face is among the faces marked as shown exactly if it is marked.
pub proof fn lemma_shown_faces(
    up: bool,
    down: bool,
    left: bool,
    right: bool,
    front: bool,
    back: bool,
    dir: FaceDir,
)
    ensures
        shown_faces(up, down, left, right, front, back).contains(dir) <==> match dir {
            FaceDir::Up => up,
            FaceDir::Down => down,
            FaceDir::Left => left,
            FaceDir::Right => right,
            FaceDir::Front => front,
            FaceDir::Back => back,
        },
{
    let a = pick(up, FaceDir::Up);
    let b = pick(down, FaceDir::Down);
    let c = pick(left, FaceDir::Left);
    let d = pick(right, FaceDir::Right);
    let e = pick(front, FaceDir::Front);
    let f = pick(back, FaceDir::Back);
    lemma_pick_contains(up, FaceDir::Up, dir);
    lemma_pick_contains(down, FaceDir::Down, dir);
    lemma_pick_contains(left, FaceDir::Left, dir);
    lemma_pick_contains(right, FaceDir::Right, dir);
    lemma_pick_contains(front, FaceDir::Front, dir);
    lemma_pick_contains(back, FaceDir::Back, dir);
    lemma_concat_contains(a, b, dir);
    lemma_concat_contains(a + b, c, dir);
    lemma_concat_contains(a + b + c, d, dir);
    lemma_concat_contains(a + b + c + d, e, dir);
    lemma_concat_contains(a + b + c + d + e, f, dir);
}

/// A face is among the faces shown at `p` exactly if the voxel it looks at is
/// loaded and is air.
pub proof fn lemma_visible_faces(chunks: CoordMap<Chunk>, p: (int, int, int), dir: FaceDir)
    ensures
        visible_faces(chunks, p).contains(dir) <==> shows_face(chunks, step(p, dir)),
{
    lemma_shown_faces(
        shows_face(chunks, step(p, FaceDir::Up)),
        shows_face(chunks, step(p, FaceDir::Down)),
        shows_face(chunks, step(p, FaceDir::Left)),
        shows_face(chunks, step(p, FaceDir::Right)),
        shows_face(chunks, step(p, FaceDir::Front)),
        shows_face(chunks, step(p, FaceDir::Back)),
        dir,
    );
}

/// Face culling between loaded voxels: a voxel shows its face in direction
/// `dir` exactly if the loaded voxel next to it in that direction is air,
/// whether the two stand in the same chunk or in two chunks.
pub proof fn lemma_face_follows_neighbor(
    chunks: CoordMap<Chunk>,
    a: int,
    i: int,
    b: int,
    j: int,
    dir: FaceDir,
)
    requires
        chunks_wf(chunks),
        0 <= a < chunks.entries.len(),
        0 <= b < chunks.entries.len(),
        0 <= i < CHUNK_VOLUME,
        0 <= j < CHUNK_VOLUME,
        step(point(chunks.entries[a].value.blocks[i].pos), dir) == point(
            chunks.entries[b].value.blocks[j].pos,
        ),
    ensures
        visible_faces(chunks, point(chunks.entries[a].value.blocks[i].pos)).contains(dir) <==> chunks.entries[b].value.blocks[j].block_type
            == BlockType::Air,
{
    lemma_visible_faces(chunks, point(chunks.entries[a].value.blocks[i].pos), dir);
    lemma_block_at_loaded(chunks, b, j);
}

/// Whether the voxel with local index `(x, y, z)` lies in the outermost layer
/// of its chunk in direction `dir`.
pub open spec fn on_boundary(x: int, y: int, z: int, dir: FaceDir) -> bool {
    match dir {
        FaceDir::Up => y == 15,
        FaceDir::Down => y == 0,
        FaceDir::Left => x == 0,
        FaceDir::Right => x == 15,
        FaceDir::Front => z == 0,
        FaceDir::Back => z == 15,
    }
}

/// Face culling at a chunk boundary: a voxel in the outermost layer of a
/// loaded chunk, whose neighbouring chunk in that direction is loaded too,
/// shows its face towards that chunk exactly if the voxel facing it there is
/// air; towards a solid voxel it shows none.
pub proof fn lemma_boundary_face_follows_neighbor_chunk(
    chunks: CoordMap<Chunk>,
    a: int,
    b: int,
    x: int,
    y: int,
    z: int,
    dir: FaceDir,
)
    requires
        chunks_wf(chunks),
        0 <= a < chunks.entries.len(),
        0 <= b < chunks.entries.len(),
        0 <= x < 16,
        0 <= y < 16,
        0 <= z < 16,
        on_boundary(x, y, z, dir),
        chunks.keys()[b] == step(chunks.keys()[a], dir),
    ensures
        ({
            let n = dir.normal();
            let facing = flat(local_of(x + n.0), local_of(y + n.1), local_of(z + n.2));
            let here = chunks.entries[a].value.blocks[flat(x, y, z)];
            &&& 0 <= facing < CHUNK_VOLUME
            &&& visible_faces(chunks, point(here.pos)).contains(dir)
                <==> chunks.entries[b].value.blocks[facing].block_type == BlockType::Air
        }),
{
    let n = dir.normal();
    let facing = flat(local_of(x + n.0), local_of(y + n.1), local_of(z + n.2));
    let i = flat(x, y, z);
    assert(chunks.entries[a].value.wf());
    assert(chunks.entries[b].value.wf());
    assert(i / 256 == x && (i / 16) % 16 == y && i % 16 == z);
    let fx = local_of(x + n.0);
    let fy = local_of(y + n.1);
    let fz = local_of(z + n.2);
    assert(facing / 256 == fx && (facing / 16) % 16 == fy && facing % 16 == fz);
    assert(chunks.keys()[a] == coord(chunks.entries[a].value.origin));
    assert(chunks.keys()[b] == coord(chunks.entries[b].value.origin));
    lemma_face_follows_neighbor(chunks, a, i, b, facing, dir);
}

/// A face that looks into a chunk that is not loaded is not shown.
pub proof fn lemma_unloaded_neighbor_hides_face(
    chunks: CoordMap<Chunk>,
    p: (int, int, int),
    dir: FaceDir,
)
    requires
        !chunks.contains(
            (chunk_of(step(p, dir).0), chunk_of(step(p, dir).1), chunk_of(step(p, dir).2)),
        ),
    ensures
        !visible_faces(chunks, p).contains(dir),
{
    lemma_visible_faces(chunks, p, dir);
}

/// A second assembly of the same chunks builds nothing: once the cache holds
/// the keys it held before a first assembly and those of the chunks that had
/// no cached mesh then, every chunk has a cached mesh and none is left to
/// build.
pub proof fn lemma_second_assembly_builds_nothing(
    chunk_keys: Seq<(int, int, int)>,
    cached: Seq<(int, int, int)>,
)
    ensures
        ({
            let filled = cached + chunk_keys.filter(absent_from(cached));
            &&& forall|i: int| 0 <= i < chunk_keys.len() ==> filled.contains(#[trigger] chunk_keys[i])
            &&& chunk_keys.filter(absent_from(filled)) == Seq::<(int, int, int)>::empty()
        }),
{
    let built = chunk_keys.filter(absent_from(cached));
    let filled = cached + built;
    assert forall|i: int| 0 <= i < chunk_keys.len() implies filled.contains(
        #[trigger] chunk_keys[i],
    ) by {
        let c = chunk_keys[i];
        lemma_filter_contains(chunk_keys, absent_from(cached), c);
        if cached.contains(c) {
            let k = choose|k: int| 0 <= k < cached.len() && cached[k] == c;
            assert(filled[k] == c);
        } else {
            let k = choose|k: int| 0 <= k < built.len() && built[k] == c;
            assert(filled[cached.len() + k] == c);
        }
    }
    let left = chunk_keys.filter(absent_from(filled));
    if left.len() > 0 {
        let c = left[0];
        assert(left.contains(c));
        lemma_filter_contains(chunk_keys, absent_from(filled), c);
        let i = choose|i: int| 0 <= i < chunk_keys.len() && chunk_keys[i] == c;
        assert(filled.contains(chunk_keys[i]));
    }
    assert(left =~= Seq::<(int, int, int)>::empty());
}

/// Whether two chunk maps hold the same at the coordinate `c`: both nothing,
/// or both the same chunk.
pub open spec fn same_at(first: CoordMap<Chunk>, second: CoordMap<Chunk>, c: (int, int, int)) -> bool {
    &&& first.contains(c) <==> second.contains(c)
    &&& first.contains(c) ==> first.value(c) == second.value(c)
}

/// The mesh of a chunk depends on the chunk and on what is loaded at the six
/// coordinates next to it, and on nothing else: two chunk maps that hold the
/// same at the chunk's coordinate and at those six give the chunk the same
/// mesh. This is why a chunk that is loaded or unloaded makes only the cached
/// meshes of the chunks next to it stale.
pub proof fn lemma_chunk_mesh_is_local(first: CoordMap<Chunk>, second: CoordMap<Chunk>, a: int, b: int)
    requires
        chunks_wf(first),
        chunks_wf(second),
        0 <= a < first.entries.len(),
        0 <= b < second.entries.len(),
        first.entries[a].value == second.entries[b].value,
        forall|dir: FaceDir| #[trigger] same_at(first, second, step(first.keys()[a], dir)),
    ensures
        chunk_mesh(first, first.entries[a].value) == chunk_mesh(second, second.entries[b].value),
{
    let chunk = first.entries[a].value;
    let o = first.keys()[a];
    first.lemma_entry(a);
    second.lemma_entry(b);
    assert(first.entries[a].value.wf());
    assert(second.entries[b].value.wf());
    assert(o == coord(chunk.origin));
    assert(second.keys()[b] == o);
    assert(same_at(first, second, o));
    assert forall|i: int| 0 <= i < CHUNK_VOLUME implies voxel_mesh(first, chunk.blocks[i])
        == voxel_mesh(second, chunk.blocks[i]) by {
        let p = point(chunk.blocks[i].pos);
        assert(p == voxel_point(o, i));
        assert forall|dir: FaceDir|
            shows_face(first, step(p, dir)) == shows_face(second, step(p, dir)) by {
            let q = step(p, dir);
            let c = (chunk_of(q.0), chunk_of(q.1), chunk_of(q.2));
            assert(c == o || c == step(o, dir));
            assert(same_at(first, second, step(o, dir)));
            assert(same_at(first, second, c));
        }
        assert(visible_faces(first, p) == visible_faces(second, p));
    }
    assert(voxel_meshes(first, chunk) =~= voxel_meshes(second, chunk));
}

/// Whether every cached mesh of a loaded chunk is the mesh that the chunk has
/// among the loaded chunks.
pub open spec fn cache_current(chunks: CoordMap<Chunk>, cache: CoordMap<ChunkMeshData>) -> bool {
    forall|c: (int, int, int)|
        #![trigger cache.value(c)]
        cache.contains(c) && chunks.contains(c) ==> cache.value(c)@ == chunk_mesh(
            chunks,
            chunks.value(c),
        )
}

/// Invalidation keeps the cache current. Let the chunk map go from `first` to
/// `second` by loading and unloading chunks at the coordinates `changed`
/// alone, and let `after` be a cache that was current for `first`, with the
/// meshes next to `changed` dropped. Then every mesh left in `after` for a
/// chunk that stayed loaded is the mesh that the chunk has in `second`.
pub proof fn lemma_invalidation_keeps_cache_current(
    first: CoordMap<Chunk>,
    second: CoordMap<Chunk>,
    changed: Seq<(int, int, int)>,
    before: CoordMap<ChunkMeshData>,
    after: CoordMap<ChunkMeshData>,
    c: (int, int, int),
)
    requires
        chunks_wf(first),
        chunks_wf(second),
        forall|k: (int, int, int)| !changed.contains(k) ==> #[trigger] same_at(first, second, k),
        cache_current(first, before),
        after.keys() == before.keys().filter(untouched(changed)),
        forall|k: (int, int, int)| #[trigger] after.contains(k) ==> after.value(k) == before.value(k),
        after.contains(c),
        second.contains(c),
        !changed.contains(c),
    ensures
        after.value(c)@ == chunk_mesh(second, second.value(c)),
{
    lemma_filter_contains(before.keys(), untouched(changed), c);
    assert(before.contains(c) && !touches(changed, c));
    assert(same_at(first, second, c));
    let a = first.keys().index_of(c);
    let b = second.keys().index_of(c);
    assert(0 <= a < first.keys().len() && first.keys()[a] == c);
    assert(0 <= b < second.keys().len() && second.keys()[b] == c);
    assert forall|dir: FaceDir| #[trigger] same_at(first, second, step(first.keys()[a], dir)) by {
        let n = step(c, dir);
        if changed.contains(n) {
            let i = choose|i: int| 0 <= i < changed.len() && changed[i] == n;
            assert(adjacent(changed[i], c));
        }
    }
    lemma_chunk_mesh_is_local(first, second, a, b);
    assert(before.value(c)@ == chunk_mesh(first, first.value(c)));
}

/// Assembly keeps the cache current: when the cache was current for the
/// loaded chunks, it still is once an assembly has added the meshes it built.
pub proof fn lemma_assembly_keeps_cache_current(
    chunks: CoordMap<Chunk>,
    before: CoordMap<ChunkMeshData>,
    after: CoordMap<ChunkMeshData>,
)
    requires
        cache_wf(before),
        cache_wf(after),
        cache_current(chunks, before),
        before.entries.len() <= after.entries.len(),
        after.entries@.take(before.entries.len() as int) == before.entries@,
        forall|k: int|
            before.entries.len() <= k < after.entries.len() ==> (#[trigger] after.entries[k]).value@
                == chunk_mesh(chunks, chunks.value(after.keys()[k])),
    ensures
        cache_current(chunks, after),
{
    assert forall|c: (int, int, int)|
        #![trigger after.value(c)]
        after.contains(c) && chunks.contains(c) implies after.value(c)@ == chunk_mesh(
        chunks,
        chunks.value(c),
    ) by {
        let j = after.keys().index_of(c);
        assert(0 <= j < after.keys().len() && after.keys()[j] == c);
        if j < before.entries.len() {
            assert(after.entries@.take(before.entries.len() as int)[j] == after.entries[j]);
            assert(before.keys()[j] == c);
            before.lemma_entry(j);
        } else {
            assert(after.entries[j].value@ == chunk_mesh(chunks, chunks.value(after.keys()[j])));
        }
    }
}

/// With a current cache the consolidated buffers hold, for each loaded chunk
/// in turn, exactly the mesh that the chunk has among the loaded chunks.
pub proof fn lemma_current_cache_selects_true_meshes(
    chunks: CoordMap<Chunk>,
    cache: CoordMap<ChunkMeshData>,
)
    requires
        chunks_wf(chunks),
        cache_current(chunks, cache),
    ensures
        selected_meshes(chunks, cache) == Seq::new(
            chunks.entries@.len(),
            |i: int| chunk_mesh(chunks, chunks.entries[i].value),
        ),
{
    let truth = Seq::new(
        chunks.entries@.len(),
        |i: int| chunk_mesh(chunks, chunks.entries[i].value),
    );
    assert forall|i: int| 0 <= i < chunks.entries.len() implies selected_meshes(chunks, cache)[i]
        == truth[i] by {
        chunks.lemma_entry(i);
        let c = chunks.keys()[i];
        if cache.contains(c) {
            assert(cache.value(c)@ == chunk_mesh(chunks, chunks.value(c)));
        }
    }
    assert(selected_meshes(chunks, cache) =~= truth);
}

} // verus!
