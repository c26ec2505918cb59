//! The chunk manager: which chunks are loaded around the observer, and the
//! consolidated mesh of the loaded chunks.

use crate::block::Vertex;
use crate::chunk::Chunk;
use crate::coord_map::{
    absent_from, coords_of, key_in_range, keys_of, lemma_filter_all, lemma_filter_contains,
    lemma_filter_push, negated, within, CoordMap, Entry,
};
use crate::grid::{chunk_index, chunk_of, coord, in_range, same_coord};
use crate::mesh::{mesh_view, quad_indices, triangle_corner, MeshView, MAX_CHUNK_VERTICES};
use vstd::prelude::*;

verus! {

/// Chebyshev radius, in chunks, of the cube that is kept loaded around the
/// observer.
pub const RENDER_DISTANCE: i32 = 8;

/// Number of chunk-grid coordinates in the loaded cube: 17 along each axis.
pub const CUBE_VOLUME: usize = 4913;

/// Owns the map of loaded chunks and knows whether a streaming cycle is under
/// way: one begins when `update_chunks` hands out a task and ends when the
/// generated chunks are committed.
pub struct ChunkManager {
    pub chunks: CoordMap<Chunk>,
    pub in_flight: bool,
}

/// The work of one streaming cycle: `origins` are the chunks to generate,
/// `unloaded` the chunks that the cycle has unloaded.
#[derive(Clone, Debug, PartialEq, Eq)]
pub struct LoadChunkTask {
    pub origins: Vec<[i32; 3]>,
    pub unloaded: Vec<[i32; 3]>,
}

/// What the chunk manager asks of the worker that generates chunks.
#[derive(Clone, Debug, PartialEq, Eq)]
pub enum WorkerMessage {
    LoadChunkTask(LoadChunkTask),
    Shutdown,
}

/// The per-chunk geometry kept by the mesh cache.
#[derive(Clone, Debug, PartialEq, Eq)]
pub struct ChunkMeshData {
    pub vertices: Vec<Vertex>,
    pub indices: Vec<u32>,
}

impl View for ChunkMeshData {
    type V = MeshView;

    open spec fn view(&self) -> MeshView {
        mesh_view(self.vertices@, self.indices@)
    }
}

impl ChunkMeshData {
    /// The mesh is made of faces, four vertices and two triangles each, and is
    /// no larger than a chunk's can be.
    pub open spec fn wf(&self) -> bool {
        &&& self@.quads()
        &&& self.vertices.len() <= MAX_CHUNK_VERTICES
    }

    /// Tests whether the mesh is well formed.
    pub fn is_wf(&self) -> (ok: bool)
        ensures
            ok == self.wf(),
    {
        let faces: usize = self.vertices.len() / 4;
        if self.vertices.len() > MAX_CHUNK_VERTICES || self.vertices.len() % 4 != 0 {
            return false;
        }
        if self.indices.len() != 6 * faces {
            assert(self@.indices.len() != quad_indices(faces as nat).len());
            return false;
        }
        let corners: [u32; 6] = [0, 1, 2, 0, 2, 3];
        let mut k: usize = 0;
        while k < self.indices.len()
            invariant
                k <= self.indices.len(),
                faces == self.vertices.len() / 4,
                self.vertices.len() <= MAX_CHUNK_VERTICES,
                self.indices.len() == 6 * faces,
                forall|t: int| 0 <= t < 6 ==> #[trigger] corners[t] == triangle_corner(t),
                forall|j: int|
                    0 <= j < k ==> #[trigger] self@.indices[j] == quad_indices(faces as nat)[j],
            decreases self.indices.len() - k,
        {
            let expected: u32 = 4 * (k / 6) as u32 + corners[k % 6];
            if self.indices[k] != expected {
                assert(self@.indices[k as int] != quad_indices(faces as nat)[k as int]);
                return false;
            }
            k += 1;
        }
        assert(self@.indices =~= quad_indices(faces as nat));
        true
    }
}

/// Every chunk of the map is well formed and stored under its own origin.
pub open spec fn chunks_wf(chunks: CoordMap<Chunk>) -> bool {
    &&& chunks.wf()
    &&& forall|i: int|
        0 <= i < chunks.entries.len() ==> (#[trigger] chunks.entries[i]).value.wf() && coord(
            chunks.entries[i].value.origin,
        ) == coord(chunks.entries[i].key)
}

/// The chunk-grid coordinate of the chunk that holds the world position `p`.
pub open spec fn observer_chunk(p: (int, int, int)) -> (int, int, int) {
    (chunk_of(p.0), chunk_of(p.1), chunk_of(p.2))
}

/// The `i`-th coordinate of the loaded cube around `center`, counting along
/// `z` first, then `y`, then `x`. The cube reaches 8 chunks to each side, so
/// it is 17 chunks wide.
pub open spec fn cube_coord(center: (int, int, int), i: int) -> (int, int, int) {
    (center.0 - 8 + i / 289, center.1 - 8 + (i / 17) % 17, center.2 - 8 + i % 17)
}

/// All coordinates of the loaded cube around `center`.
pub open spec fn cube_coords(center: (int, int, int)) -> Seq<(int, int, int)> {
    Seq::new(CUBE_VOLUME as nat, |i: int| cube_coord(center, i))
}

/// The coordinates of the loaded cube around `center` that are not among
/// `loaded`, in the order of the cube.
pub open spec fn missing_chunks(
    center: (int, int, int),
    loaded: Seq<(int, int, int)>,
) -> Seq<(int, int, int)> {
    cube_coords(center).filter(absent_from(loaded))
}

/// The entries of the chunk map after the chunks `generated` were committed to
/// `entries` one after the other: a chunk is added under its origin unless that
/// origin has an entry by then.
pub open spec fn committed(entries: Seq<Entry<Chunk>>, generated: Seq<Chunk>) -> Seq<Entry<Chunk>>
    decreases generated.len(),
{
    if generated.len() == 0 {
        entries
    } else {
        let sofar = committed(entries, generated.drop_last());
        let chunk = generated.last();
        if keys_of(sofar).contains(coord(chunk.origin)) {
            sofar
        } else {
            sofar.push(Entry { key: chunk.origin, value: chunk })
        }
    }
}

/// The origins of a list of chunks.
pub open spec fn origins_of(chunks: Seq<Chunk>) -> Seq<(int, int, int)> {
    Seq::new(chunks.len(), |i: int| coord(chunks[i].origin))
}

impl ChunkManager {
    /// The chunk map is well formed.
    pub open spec fn wf(&self) -> bool {
        chunks_wf(self.chunks)
    }

    pub fn new() -> (manager: Self)
        ensures
            manager.wf(),
            manager.chunks.entries@.len() == 0,
            !manager.in_flight,
    {
        ChunkManager { chunks: CoordMap::new(), in_flight: false }
    }

    /// Tests whether a chunk map is well formed.
    pub fn chunks_are_wf(chunks: &CoordMap<Chunk>) -> (ok: bool)
        ensures
            ok == chunks_wf(*chunks),
    {
        if !chunks.is_wf() {
            return false;
        }
        let mut i: usize = 0;
        while i < chunks.entries.len()
            invariant
                i <= chunks.entries.len(),
                forall|j: int|
                    0 <= j < i ==> (#[trigger] chunks.entries[j]).value.wf() && coord(
                        chunks.entries[j].value.origin,
                    ) == coord(chunks.entries[j].key),
            decreases chunks.entries.len() - i,
        {
            let entry = &chunks.entries[i];
            if !entry.value.is_wf() || !same_coord(&entry.value.origin, &entry.key) {
                return false;
            }
            i += 1;
        }
        true
    }

    /// Whether `chunk_pos` lies within Chebyshev distance `render_distance` of
    /// `user_chunk_pos`.
    pub fn chunk_in_range(
        chunk_pos: [i32; 3],
        user_chunk_pos: [i32; 3],
        render_distance: i32,
    ) -> (inside: bool)
        ensures
            inside == in_range(coord(chunk_pos), coord(user_chunk_pos), render_distance as int),
    {
        key_in_range(&chunk_pos, &user_chunk_pos, render_distance)
    }

    /// The chunk-grid coordinate of the chunk that holds the world position
    /// `pos`: the floor of `pos / 16` along each axis.
    pub fn get_chunk_at(pos: [i32; 3]) -> (chunk_pos: [i32; 3])
        ensures
            coord(chunk_pos) == observer_chunk(coord(pos)),
    {
        let x: i64 = chunk_index(pos[0] as i64);
        let y: i64 = chunk_index(pos[1] as i64);
        let z: i64 = chunk_index(pos[2] as i64);
        [x as i32, y as i32, z as i32]
    }

    /// Begins a streaming cycle for the observer's position, unless one is
    /// under way: then the request is dropped and nothing changes. Otherwise
    /// every chunk outside the loaded cube around the observer's chunk is
    /// unloaded at once, and the task names the unloaded coordinates and the
    /// coordinates of the cube that have no chunk yet, which are the ones to
    /// generate.
    pub fn update_chunks(&mut self, position: [i32; 3]) -> (task: Option<LoadChunkTask>)
        requires
            old(self).wf(),
        ensures
            final(self).wf(),
            old(self).in_flight ==> task is None && *final(self) == *old(self),
            !old(self).in_flight ==> task is Some && final(self).in_flight,
            !old(self).in_flight ==> final(self).chunks.keys() == old(self).chunks.keys().filter(
                within(observer_chunk(coord(position)), RENDER_DISTANCE as int),
            ),
            !old(self).in_flight ==> forall|c: (int, int, int)| #[trigger]
                final(self).chunks.contains(c) ==> old(self).chunks.contains(c) && final(self).chunks.value(c) == old(self).chunks.value(c),
            !old(self).in_flight ==> forall|c: (int, int, int)| #[trigger]
                final(self).chunks.contains(c) ==> in_range(
                    c,
                    observer_chunk(coord(position)),
                    RENDER_DISTANCE as int,
                ),
            !old(self).in_flight ==> coords_of(task->0.unloaded@) == old(self).chunks.keys().filter(
                negated(within(observer_chunk(coord(position)), RENDER_DISTANCE as int)),
            ),
            !old(self).in_flight ==> coords_of(task->0.origins@) == missing_chunks(
                observer_chunk(coord(position)),
                final(self).chunks.keys(),
            ),
    {
        if self.in_flight {
            return None;
        }
        self.in_flight = true;
        let ghost before = self.chunks;
        let center = Self::get_chunk_at(position);
        let unloaded = self.chunks.retain_within(&center, RENDER_DISTANCE);
        proof {
            assert forall|i: int| 0 <= i < self.chunks.entries.len() implies (
            #[trigger] self.chunks.entries[i]).value.wf() && coord(self.chunks.entries[i].value.origin)
                == coord(self.chunks.entries[i].key) by {
                let c = coord(self.chunks.entries[i].key);
                self.chunks.lemma_entry(i);
                assert(before.contains(c));
                let j = before.keys().index_of(c);
                assert(0 <= j < before.keys().len() && before.keys()[j] == c);
                assert(before.entries[j].value.wf());
            }
        }
        let ghost loaded = self.chunks.keys();
        let ghost absent = absent_from(loaded);
        let ghost cube = cube_coords(coord(center));
        let mut origins: Vec<[i32; 3]> = Vec::new();
        let mut i: usize = 0;
        while i < CUBE_VOLUME
            invariant
                i <= CUBE_VOLUME,
                self.wf(),
                loaded == self.chunks.keys(),
                absent == absent_from(loaded),
                cube == cube_coords(coord(center)),
                coord(center) == observer_chunk(coord(position)),
                coords_of(origins@) == cube.take(i as int).filter(absent),
            decreases CUBE_VOLUME - i,
        {
            let x: i32 = center[0] - RENDER_DISTANCE + (i / 289) as i32;
            let y: i32 = center[1] - RENDER_DISTANCE + ((i / 17) % 17) as i32;
            let z: i32 = center[2] - RENDER_DISTANCE + (i % 17) as i32;
            let origin: [i32; 3] = [x, y, z];
            proof {
                assert(coord(origin) == cube[i as int]);
                assert(cube.take(i + 1) == cube.take(i as int).push(cube[i as int]));
                lemma_filter_push(cube.take(i as int), cube[i as int], absent);
            }
            if !self.chunks.contains_key(&origin) {
                let ghost sofar = origins@;
                origins.push(origin);
                assert(coords_of(origins@) =~= coords_of(sofar).push(coord(origin)));
            }
            i += 1;
        }
        assert(cube.take(CUBE_VOLUME as int) == cube);
        Some(LoadChunkTask { origins, unloaded })
    }

    /// Commits generated chunks to the chunk map, in the order given, which
    /// ends the streaming cycle. A chunk whose origin already has an entry is
    /// discarded. Returns the origins of the chunks that were added.
    pub fn commit(&mut self, generated: Vec<Chunk>) -> (added: Vec<[i32; 3]>)
        requires
            old(self).wf(),
            forall|i: int| 0 <= i < generated.len() ==> (#[trigger] generated[i]).wf(),
        ensures
            final(self).wf(),
            final(self).chunks.entries@ == committed(old(self).chunks.entries@, generated@),
            final(self).chunks.keys() == old(self).chunks.keys() + coords_of(added@),
            !final(self).in_flight,
    {
        self.in_flight = false;
        let ghost before = self.chunks.entries@;
        let ghost all = generated@;
        let mut added: Vec<[i32; 3]> = Vec::new();
        assert(self.chunks.keys() =~= keys_of(before) + coords_of(added@));
        for chunk in it: generated
            invariant
                it.seq() == all,
                forall|i: int| 0 <= i < all.len() ==> (#[trigger] all[i]).wf(),
                self.wf(),
                !self.in_flight,
                self.chunks.entries@ == committed(before, all.take(it.index() as int)),
                self.chunks.keys() == keys_of(before) + coords_of(added@),
        {
            let ghost i = it.index() as int;
            assert(all.take(i + 1).drop_last() == all.take(i));
            assert(all[i].wf());
            if !self.chunks.contains_key(&chunk.origin) {
                let key: [i32; 3] = chunk.origin;
                let ghost added_before = added@;
                self.chunks.insert(key, chunk);
                added.push(key);
                assert(self.chunks.keys() =~= keys_of(before) + coords_of(added@)) by {
                    assert(coords_of(added@) =~= coords_of(added_before).push(coord(key)));
                }
            }
        }
        assert(all.take(all.len() as int) == all);
        added
    }
}

/// Unloading is idempotent: unloading again around the same centre drops
/// nothing more.
pub proof fn lemma_unloading_twice(keys: Seq<(int, int, int)>, center: (int, int, int))
    ensures
        keys.filter(within(center, RENDER_DISTANCE as int)).filter(
            within(center, RENDER_DISTANCE as int),
        ) == keys.filter(within(center, RENDER_DISTANCE as int)),
{
    let pred = within(center, RENDER_DISTANCE as int);
    let kept = keys.filter(pred);
    assert forall|i: int| 0 <= i < kept.len() implies pred(#[trigger] kept[i]) by {
        assert(kept.contains(kept[i]));
        lemma_filter_contains(keys, pred, kept[i]);
    }
    lemma_filter_all(kept, pred);
}

/// A coordinate is in the loaded cube around `center` exactly if it lies within
/// the render distance of `center`.
pub proof fn lemma_cube_is_range(center: (int, int, int), c: (int, int, int))
    ensures
        cube_coords(center).contains(c) <==> in_range(c, center, RENDER_DISTANCE as int),
{
    let cube = cube_coords(center);
    if in_range(c, center, RENDER_DISTANCE as int) {
        let dx = c.0 - center.0 + 8;
        let dy = c.1 - center.1 + 8;
        let dz = c.2 - center.2 + 8;
        let i = (dx * 17 + dy) * 17 + dz;
        assert(i / 289 == dx && (i / 17) % 17 == dy && i % 17 == dz);
        assert(cube[i] == c);
    }
    if cube.contains(c) {
        let i = choose|i: int| 0 <= i < cube.len() && cube[i] == c;
        assert(c == cube_coord(center, i));
    }
}

/// After a commit the map holds the coordinates it held before and the origins
/// of the committed chunks, no others.
pub proof fn lemma_committed_keys(entries: Seq<Entry<Chunk>>, generated: Seq<Chunk>, c: (int, int, int))
    ensures
        keys_of(committed(entries, generated)).contains(c) <==> keys_of(entries).contains(c)
            || origins_of(generated).contains(c),
    decreases generated.len(),
{
    if generated.len() > 0 {
        let front = generated.drop_last();
        let sofar = committed(entries, front);
        let chunk = generated.last();
        lemma_committed_keys(entries, front, c);
        if origins_of(generated).contains(c) {
            let i = choose|i: int|
                0 <= i < origins_of(generated).len() && origins_of(generated)[i] == c;
            if i < front.len() {
                assert(origins_of(front)[i] == c);
            }
        }
        if origins_of(front).contains(c) {
            let i = choose|i: int| 0 <= i < origins_of(front).len() && origins_of(front)[i] == c;
            assert(origins_of(generated)[i] == c);
        }
        assert(origins_of(generated)[generated.len() - 1] == coord(chunk.origin));
        if !keys_of(sofar).contains(coord(chunk.origin)) {
            let pushed = sofar.push(Entry { key: chunk.origin, value: chunk });
            assert(keys_of(pushed) =~= keys_of(sofar).push(coord(chunk.origin)));
            if keys_of(sofar).contains(c) {
                let i = choose|i: int| 0 <= i < keys_of(sofar).len() && keys_of(sofar)[i] == c;
                assert(keys_of(pushed)[i] == c);
            }
            assert(keys_of(pushed)[sofar.len() as int] == coord(chunk.origin));
            if keys_of(pushed).contains(c) {
                let i = choose|i: int| 0 <= i < keys_of(pushed).len() && keys_of(pushed)[i] == c;
                if i < sofar.len() {
                    assert(keys_of(sofar)[i] == c);
                }
            }
        }
    } else {
        assert(!origins_of(generated).contains(c));
    }
}

/// One streaming cycle loads exactly the cube around the observer: once the
/// chunks outside the cube are unloaded and a chunk for each missing
/// coordinate is committed, a coordinate is loaded if and only if it lies
/// within the render distance of the observer's chunk.
pub proof fn lemma_cycle_loads_cube(
    before: Seq<(int, int, int)>,
    loaded: Seq<Entry<Chunk>>,
    generated: Seq<Chunk>,
    center: (int, int, int),
    c: (int, int, int),
)
    requires
        keys_of(loaded) == before.filter(within(center, RENDER_DISTANCE as int)),
        origins_of(generated) == missing_chunks(center, keys_of(loaded)),
    ensures
        keys_of(committed(loaded, generated)).contains(c) <==> in_range(
            c,
            center,
            RENDER_DISTANCE as int,
        ),
{
    lemma_committed_keys(loaded, generated, c);
    lemma_filter_contains(before, within(center, RENDER_DISTANCE as int), c);
    lemma_filter_contains(cube_coords(center), absent_from(keys_of(loaded)), c);
    lemma_cube_is_range(center, c);
}

} // verus!
