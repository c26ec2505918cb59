//! Integer grid arithmetic shared by the chunk and meshing code.

use vstd::prelude::*;

verus! {

/// Edge length of a chunk, in voxels.
pub const CHUNK_SIZE: i64 = 16;

/// Number of voxels in a chunk.
pub const CHUNK_VOLUME: usize = 4096;

/// Chunk-grid coordinate that owns the world coordinate `w` along one axis:
/// the floor of `w / 16`.
pub open spec fn chunk_of(w: int) -> int {
    w / 16
}

/// Index inside its chunk of the world coordinate `w` along one axis: the
/// Euclidean remainder, never negative.
pub open spec fn local_of(w: int) -> int {
    w % 16
}

/// A chunk-grid coordinate as a triple of mathematical integers.
pub open spec fn coord(a: [i32; 3]) -> (int, int, int) {
    (a[0] as int, a[1] as int, a[2] as int)
}

/// A world position as a triple of mathematical integers.
pub open spec fn point(a: [i64; 3]) -> (int, int, int) {
    (a[0] as int, a[1] as int, a[2] as int)
}

/// Position in a chunk's voxel list of the voxel with local index `(x, y, z)`.
pub open spec fn flat(x: int, y: int, z: int) -> int {
    (x * 16 + y) * 16 + z
}

/// World position of the voxel at place `i` of the voxel list of the chunk at
/// `origin`: `origin * 16 + local index`.
pub open spec fn voxel_point(origin: (int, int, int), i: int) -> (int, int, int) {
    (origin.0 * 16 + i / 256, origin.1 * 16 + (i / 16) % 16, origin.2 * 16 + i % 16)
}

/// Whether `c` lies in the cube of Chebyshev radius `r` around `center`.
pub open spec fn in_range(c: (int, int, int), center: (int, int, int), r: int) -> bool {
    &&& center.0 - r <= c.0 <= center.0 + r
    &&& center.1 - r <= c.1 <= center.1 + r
    &&& center.2 - r <= c.2 <= center.2 + r
}

/// Floor division of a world coordinate by the chunk size.
pub fn chunk_index(w: i64) -> (q: i64)
    ensures
        q == chunk_of(w as int),
{
    match w.checked_div_euclid(CHUNK_SIZE) {
        Some(q) => q,
        None => 0,
    }
}

/// Euclidean remainder of a world coordinate by the chunk size.
pub fn local_index(w: i64) -> (r: usize)
    ensures
        r == local_of(w as int),
        r < 16,
{
    match w.checked_rem_euclid(CHUNK_SIZE) {
        Some(r) => r as usize,
        None => 0,
    }
}

/// Whether two chunk-grid coordinates are the same.
pub fn same_coord(a: &[i32; 3], b: &[i32; 3]) -> (r: bool)
    ensures
        r == (coord(*a) == coord(*b)),
{
    a[0] == b[0] && a[1] == b[1] && a[2] == b[2]
}

} // verus!
