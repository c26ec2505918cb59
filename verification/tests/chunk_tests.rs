use voxel_world::block::BlockType;
use voxel_world::chunk::Chunk;

#[test]
fn flat_height_zero_gives_one_solid_layer() {
    let chunk = Chunk::new([0, 0, 0], &[[0; 16]; 16]);
    for x in 0..16 {
        for z in 0..16 {
            assert_eq!(chunk.block(x, 0, z).block_type, BlockType::Grass);
            for y in 1..16 {
                assert_eq!(chunk.block(x, y, z).block_type, BlockType::Air);
            }
        }
    }
}

#[test]
fn flat_height_one_is_solid_up_to_and_including_its_height() {
    let chunk = Chunk::new([0, 0, 0], &[[1; 16]; 16]);
    for x in 0..16 {
        for z in 0..16 {
            assert_eq!(chunk.block(x, 0, z).block_type, BlockType::Grass);
            assert_eq!(chunk.block(x, 1, z).block_type, BlockType::Grass);
            for y in 2..16 {
                assert_eq!(chunk.block(x, y, z).block_type, BlockType::Air);
            }
        }
    }
}

#[test]
fn generation_is_repeatable() {
    let mut heights = [[0i32; 16]; 16];
    for x in 0..16 {
        for z in 0..16 {
            heights[x][z] = (x as i32 * 3 + z as i32 * 5) % 23 - 4;
        }
    }
    let first = Chunk::new([2, 0, -3], &heights);
    let second = Chunk::new([2, 0, -3], &heights);
    assert_eq!(first, second);
    assert_eq!(first.blocks.len(), 4096);
}

#[test]
fn voxel_positions_follow_origin() {
    let chunk = Chunk::new([-1, 2, 3], &[[0; 16]; 16]);
    assert_eq!(chunk.origin, [-1, 2, 3]);
    assert_eq!(chunk.block(0, 0, 0).pos, [-16, 32, 48]);
    assert_eq!(chunk.block(15, 15, 15).pos, [-1, 47, 63]);
    assert_eq!(chunk.block(1, 2, 3).pos, [-15, 34, 51]);
    assert_eq!(chunk.blocks[(1 * 16 + 2) * 16 + 3].pos, [-15, 34, 51]);
}

#[test]
fn far_origin_does_not_overflow() {
    let chunk = Chunk::new([i32::MAX, i32::MIN, 0], &[[0; 16]; 16]);
    assert_eq!(chunk.block(15, 0, 0).pos, [i32::MAX as i64 * 16 + 15, i32::MIN as i64 * 16, 0]);
    assert_eq!(chunk.block(0, 0, 0).block_type, BlockType::Grass);
}

#[test]
fn heights_are_read_per_column() {
    let mut heights = [[0i32; 16]; 16];
    for x in 0..16 {
        for z in 0..16 {
            heights[x][z] = x as i32 - z as i32;
        }
    }
    let chunk = Chunk::new([0, 0, 0], &heights);
    for x in 0..16usize {
        for y in 0..16usize {
            for z in 0..16usize {
                let expected = if x as i32 - z as i32 >= y as i32 {
                    BlockType::Grass
                } else {
                    BlockType::Air
                };
                assert_eq!(chunk.block(x, y, z).block_type, expected);
            }
        }
    }
}

#[test]
fn height_is_compared_with_world_height() {
    let above = Chunk::new([0, 1, 0], &[[10; 16]; 16]);
    for block in above.blocks.iter() {
        assert_eq!(block.block_type, BlockType::Air);
    }
    let crossing = Chunk::new([0, 1, 0], &[[20; 16]; 16]);
    assert_eq!(crossing.block(0, 4, 0).block_type, BlockType::Grass);
    assert_eq!(crossing.block(0, 5, 0).block_type, BlockType::Air);
    let below = Chunk::new([0, -1, 0], &[[10; 16]; 16]);
    for block in below.blocks.iter() {
        assert_eq!(block.block_type, BlockType::Grass);
    }
}
