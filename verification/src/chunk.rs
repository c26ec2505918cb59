//! Chunks: cubes of 16 x 16 x 16 voxels, filled from a height field.

use crate::block::{Block, BlockType};
use crate::grid::{coord, flat, point, voxel_point, CHUNK_VOLUME};
use vstd::prelude::*;

verus! {

/// A cube of voxels. `origin` is in chunk-grid coordinates; the voxel with
/// local index `(x, y, z)` stands at place `(x * 16 + y) * 16 + z` of `blocks`.
#[derive(Clone, Debug, PartialEq, Eq)]
pub struct Chunk {
    pub blocks: Vec<Block>,
    pub origin: [i32; 3],
}

/// The kind of a generated voxel: solid up to and including the height of its
/// column, air above.
pub open spec fn generated_kind(height: int, world_y: int) -> BlockType {
    if height >= world_y {
        BlockType::Grass
    } else {
        BlockType::Air
    }
}

/// The voxel that generation puts at place `i` of the chunk at `origin`, for
/// the column heights `heights`, which are indexed by local `x`, then local `z`.
pub open spec fn generated_block(origin: (int, int, int), heights: [[i32; 16]; 16], i: int) -> Block {
    let p = voxel_point(origin, i);
    Block {
        block_type: generated_kind(heights[i / 256][i % 16] as int, p.1),
        pos: [p.0 as i64, p.1 as i64, p.2 as i64],
    }
}

/// All voxels of the chunk generated at `origin` for `heights`.
pub open spec fn generated_blocks(origin: (int, int, int), heights: [[i32; 16]; 16]) -> Seq<Block> {
    Seq::new(CHUNK_VOLUME as nat, |i: int| generated_block(origin, heights, i))
}

impl Chunk {
    /// The chunk holds 4096 voxels, each at the world position that its place
    /// and the chunk's origin give it.
    pub open spec fn wf(&self) -> bool {
        &&& self.blocks.len() == CHUNK_VOLUME
        &&& forall|i: int|
            0 <= i < CHUNK_VOLUME ==> point((#[trigger] self.blocks[i]).pos) == voxel_point(
                coord(self.origin),
                i,
            )
    }

    /// The kind of the voxel with local index `(x, y, z)`.
    pub open spec fn kind_at(&self, x: int, y: int, z: int) -> BlockType {
        self.blocks[flat(x, y, z)].block_type
    }

    /// Generates the chunk at `origin` from the heights of its 16 x 16 columns.
    pub fn new(origin: [i32; 3], heights: &[[i32; 16]; 16]) -> (chunk: Chunk)
        ensures
            chunk.origin == origin,
            chunk.blocks@ == generated_blocks(coord(origin), *heights),
            chunk.wf(),
    {
        let mut blocks: Vec<Block> = Vec::with_capacity(CHUNK_VOLUME);
        let mut i: usize = 0;
        while i < CHUNK_VOLUME
            invariant
                i <= CHUNK_VOLUME,
                blocks.len() == i,
                forall|j: int|
                    0 <= j < i ==> #[trigger] blocks[j] == generated_block(coord(origin), *heights, j),
            decreases CHUNK_VOLUME - i,
        {
            let x: usize = i / 256;
            let y: usize = (i / 16) % 16;
            let z: usize = i % 16;
            let world_x: i64 = origin[0] as i64 * 16 + x as i64;
            let world_y: i64 = origin[1] as i64 * 16 + y as i64;
            let world_z: i64 = origin[2] as i64 * 16 + z as i64;
            let block_type = if heights[x][z] as i64 >= world_y {
                BlockType::Grass
            } else {
                BlockType::Air
            };
            blocks.push(Block::new([world_x, world_y, world_z], block_type));
            i += 1;
        }
        assert(blocks@ =~= generated_blocks(coord(origin), *heights));
        Chunk { blocks, origin }
    }

    /// Tests whether the chunk is well formed.
    pub fn is_wf(&self) -> (ok: bool)
        ensures
            ok == self.wf(),
    {
        if self.blocks.len() != CHUNK_VOLUME {
            return false;
        }
        let mut i: usize = 0;
        while i < CHUNK_VOLUME
            invariant
                i <= CHUNK_VOLUME,
                self.blocks.len() == CHUNK_VOLUME,
                forall|j: int|
                    0 <= j < i ==> point((#[trigger] self.blocks[j]).pos) == voxel_point(
                        coord(self.origin),
                        j,
                    ),
            decreases CHUNK_VOLUME - i,
        {
            let x: i64 = self.origin[0] as i64 * 16 + (i / 256) as i64;
            let y: i64 = self.origin[1] as i64 * 16 + ((i / 16) % 16) as i64;
            let z: i64 = self.origin[2] as i64 * 16 + (i % 16) as i64;
            let pos = &self.blocks[i].pos;
            if pos[0] != x || pos[1] != y || pos[2] != z {
                return false;
            }
            i += 1;
        }
        true
    }

    /// The voxel with local index `(x, y, z)`.
    pub fn block(&self, x: usize, y: usize, z: usize) -> (block: Block)
        requires
            self.blocks.len() == CHUNK_VOLUME,
            x < 16,
            y < 16,
            z < 16,
        ensures
            block == self.blocks[flat(x as int, y as int, z as int)],
    {
        self.blocks[(x * 16 + y) * 16 + z]
    }
}

/// Generation is a function of the origin and the column heights: two chunks
/// generated from the same ones hold the same voxels.
pub proof fn lemma_generation_is_deterministic(
    a: Chunk,
    b: Chunk,
    origin: [i32; 3],
    heights: [[i32; 16]; 16],
)
    requires
        a.origin == origin,
        a.blocks@ == generated_blocks(coord(origin), heights),
        b.origin == origin,
        b.blocks@ == generated_blocks(coord(origin), heights),
    ensures
        a.origin == b.origin,
        a.blocks@ == b.blocks@,
        forall|x: int, y: int, z: int| a.kind_at(x, y, z) == b.kind_at(x, y, z),
{
}

} // verus!
