use voxel_world::block::BlockType;
use voxel_world::chunk::Chunk;
use voxel_world::chunk_manager::{ChunkManager, LoadChunkTask, WorkerMessage};
use voxel_world::coord_map::{pack, CoordMap};
use voxel_world::grid::{chunk_index, local_index, same_coord};

fn flat_chunk(origin: [i32; 3], height: i32) -> Chunk {
    Chunk::new(origin, &[[height; 16]; 16])
}

#[test]
fn floor_division_and_remainder() {
    assert_eq!(chunk_index(0), 0);
    assert_eq!(chunk_index(15), 0);
    assert_eq!(chunk_index(16), 1);
    assert_eq!(chunk_index(-1), -1);
    assert_eq!(chunk_index(-16), -1);
    assert_eq!(chunk_index(-17), -2);
    assert_eq!(local_index(0), 0);
    assert_eq!(local_index(17), 1);
    assert_eq!(local_index(-1), 15);
    assert_eq!(local_index(-16), 0);
    assert_eq!(local_index(i64::MIN), 0);
    assert_eq!(chunk_index(i64::MIN), i64::MIN / 16);
}

#[test]
fn same_coord_compares_all_axes() {
    assert!(same_coord(&[1, 2, 3], &[1, 2, 3]));
    assert!(!same_coord(&[1, 2, 3], &[1, 2, 4]));
    assert!(!same_coord(&[1, 2, 3], &[1, 0, 3]));
    assert!(!same_coord(&[1, 2, 3], &[0, 2, 3]));
}

#[test]
fn chunk_in_range_is_a_chebyshev_cube() {
    assert!(ChunkManager::chunk_in_range([0, 0, 0], [0, 0, 0], 8));
    assert!(ChunkManager::chunk_in_range([8, -8, 8], [0, 0, 0], 8));
    assert!(ChunkManager::chunk_in_range([-8, 8, -8], [0, 0, 0], 8));
    assert!(!ChunkManager::chunk_in_range([9, 0, 0], [0, 0, 0], 8));
    assert!(!ChunkManager::chunk_in_range([0, -9, 0], [0, 0, 0], 8));
    assert!(!ChunkManager::chunk_in_range([0, 0, 9], [0, 0, 0], 8));
    assert!(ChunkManager::chunk_in_range([13, 2, -1], [10, 0, 0], 3));
    assert!(!ChunkManager::chunk_in_range([14, 2, -1], [10, 0, 0], 3));
    assert!(ChunkManager::chunk_in_range([5, 5, 5], [5, 5, 5], 0));
    assert!(!ChunkManager::chunk_in_range([5, 5, 5], [5, 5, 5], -1));
}

#[test]
fn chunk_in_range_at_the_ends_of_the_grid() {
    assert!(ChunkManager::chunk_in_range([i32::MAX, 0, 0], [i32::MAX, 0, 0], 8));
    assert!(ChunkManager::chunk_in_range([i32::MIN, 0, 0], [i32::MIN + 8, 0, 0], 8));
    assert!(!ChunkManager::chunk_in_range([i32::MIN, 0, 0], [i32::MAX, 0, 0], i32::MAX));
    assert!(ChunkManager::chunk_in_range([0, 0, 0], [i32::MAX, i32::MIN + 1, 0], i32::MAX));
}

#[test]
fn get_chunk_at_floors_each_axis() {
    assert_eq!(ChunkManager::get_chunk_at([0, 0, 0]), [0, 0, 0]);
    assert_eq!(ChunkManager::get_chunk_at([15, 16, 31]), [0, 1, 1]);
    assert_eq!(ChunkManager::get_chunk_at([-1, -16, -17]), [-1, -1, -2]);
    assert_eq!(ChunkManager::get_chunk_at([0, 30, 0]), [0, 1, 0]);
    assert_eq!(
        ChunkManager::get_chunk_at([i32::MAX, i32::MIN, 0]),
        [134217727, -134217728, 0]
    );
}

#[test]
fn new_manager_is_empty() {
    let manager = ChunkManager::new();
    assert_eq!(manager.chunks.len(), 0);
    assert!(!manager.chunks.contains_key(&[0, 0, 0]));
    assert!(!manager.in_flight);
    assert!(ChunkManager::chunks_are_wf(&manager.chunks));
}

#[test]
fn update_during_a_cycle_is_dropped() {
    let mut manager = ChunkManager::new();
    manager.commit(vec![flat_chunk([0, 0, 0], 1), flat_chunk([20, 0, 0], 1)]);
    let first = manager.update_chunks([0, 0, 0]);
    assert!(first.is_some());
    assert!(manager.in_flight);
    assert_eq!(manager.chunks.len(), 1);
    let second = manager.update_chunks([320, 0, 0]);
    assert_eq!(second, None);
    assert!(manager.in_flight);
    assert_eq!(manager.chunks.len(), 1);
    assert!(manager.chunks.contains_key(&[0, 0, 0]));
    manager.commit(Vec::new());
    assert!(!manager.in_flight);
    let third = manager.update_chunks([320, 0, 0]).unwrap();
    assert!(manager.in_flight);
    assert_eq!(manager.chunks.len(), 0);
    assert_eq!(third.origins.len(), 4913);
    assert_eq!(third.origins[0], [12, -8, -8]);
}

#[test]
fn repeated_update_at_one_position_changes_nothing_more() {
    let mut manager = ChunkManager::new();
    manager.commit(vec![flat_chunk([0, 0, 0], 1), flat_chunk([20, 0, 0], 1), flat_chunk([1, 1, 1], 1)]);
    let first = manager.update_chunks([0, 0, 0]).unwrap();
    let keys: Vec<[i32; 3]> = manager.chunks.entries.iter().map(|e| e.key).collect();
    manager.commit(Vec::new());
    let second = manager.update_chunks([0, 0, 0]).unwrap();
    let keys_again: Vec<[i32; 3]> = manager.chunks.entries.iter().map(|e| e.key).collect();
    assert_eq!(first.origins, second.origins);
    assert_eq!(first.unloaded, vec![[20, 0, 0]]);
    assert!(second.unloaded.is_empty());
    assert_eq!(keys, keys_again);
    assert_eq!(keys, vec![[0, 0, 0], [1, 1, 1]]);
}

#[test]
fn well_formedness_tests_reject_broken_maps() {
    let mut manager = ChunkManager::new();
    manager.commit(vec![flat_chunk([0, 0, 0], 1), flat_chunk([1, 0, 0], 1)]);
    assert!(ChunkManager::chunks_are_wf(&manager.chunks));
    assert!(manager.chunks.is_wf());
    let mut twice = manager.chunks.clone();
    twice.entries[1].key = [0, 0, 0];
    assert!(!twice.is_wf());
    assert!(!ChunkManager::chunks_are_wf(&twice));
    let mut moved = manager.chunks.clone();
    moved.entries[1].key = [2, 0, 0];
    assert!(!moved.is_wf());
    assert!(!ChunkManager::chunks_are_wf(&moved));
    let mut unindexed = manager.chunks.clone();
    unindexed.index.clear();
    assert!(!unindexed.is_wf());
    let mut misplaced = manager.chunks.clone();
    misplaced.entries.swap(0, 1);
    assert!(!misplaced.is_wf());
    let mut short = manager.chunks.clone();
    short.entries[0].value.blocks.pop();
    assert!(!short.entries[0].value.is_wf());
    assert!(!ChunkManager::chunks_are_wf(&short));
    let mut shifted = manager.chunks.clone();
    shifted.entries[0].value.blocks[7].pos[2] += 1;
    assert!(!shifted.entries[0].value.is_wf());
}

#[test]
fn first_update_requests_the_whole_cube() {
    let mut manager = ChunkManager::new();
    let task = manager.update_chunks([0, 30, 0]).unwrap();
    assert!(task.unloaded.is_empty());
    assert_eq!(task.origins.len(), 17 * 17 * 17);
    assert_eq!(task.origins[0], [-8, -7, -8]);
    assert_eq!(task.origins[1], [-8, -7, -7]);
    assert_eq!(task.origins[17], [-8, -6, -8]);
    assert_eq!(task.origins[289], [-7, -7, -8]);
    assert_eq!(task.origins[4912], [8, 9, 8]);
    for origin in task.origins.iter() {
        assert!(ChunkManager::chunk_in_range(*origin, [0, 1, 0], 8));
    }
    assert_eq!(manager.chunks.len(), 0);
}

#[test]
fn update_requests_each_coordinate_once() {
    let mut manager = ChunkManager::new();
    let task = manager.update_chunks([-1, -1, -1]).unwrap();
    let mut seen = std::collections::HashSet::new();
    for origin in task.origins.iter() {
        assert!(seen.insert(*origin));
    }
    assert_eq!(seen.len(), 4913);
    assert!(seen.contains(&[-9, -9, -9]));
    assert!(seen.contains(&[7, 7, 7]));
    assert!(!seen.contains(&[8, 7, 7]));
}

#[test]
fn update_skips_loaded_chunks() {
    let mut manager = ChunkManager::new();
    manager.commit(vec![flat_chunk([0, 0, 0], 3), flat_chunk([8, 8, 8], 3)]);
    let task = manager.update_chunks([0, 0, 0]).unwrap();
    assert_eq!(task.origins.len(), 4911);
    assert!(!task.origins.contains(&[0, 0, 0]));
    assert!(!task.origins.contains(&[8, 8, 8]));
    assert!(task.origins.contains(&[8, 8, 7]));
    assert_eq!(manager.chunks.len(), 2);
}

#[test]
fn update_unloads_chunks_out_of_range() {
    let mut manager = ChunkManager::new();
    manager.commit(vec![
        flat_chunk([9, 0, 0], 1),
        flat_chunk([0, 0, 0], 2),
        flat_chunk([0, -9, 0], 3),
        flat_chunk([-8, 8, 0], 4),
    ]);
    assert_eq!(manager.chunks.len(), 4);
    let task = manager.update_chunks([5, 5, 5]).unwrap();
    assert_eq!(manager.chunks.len(), 2);
    assert_eq!(manager.chunks.entries[0].key, [0, 0, 0]);
    assert_eq!(manager.chunks.entries[1].key, [-8, 8, 0]);
    assert_eq!(manager.chunks.entries[0].value, flat_chunk([0, 0, 0], 2));
    assert_eq!(manager.chunks.entries[1].value, flat_chunk([-8, 8, 0], 4));
    assert!(!manager.chunks.contains_key(&[9, 0, 0]));
    assert_eq!(task.unloaded, vec![[9, 0, 0], [0, -9, 0]]);
    assert_eq!(task.origins.len(), 4911);
    for entry in manager.chunks.entries.iter() {
        assert!(ChunkManager::chunk_in_range(entry.key, [0, 0, 0], 8));
    }
}

#[test]
fn moving_by_one_chunk_shifts_the_cube() {
    let mut manager = ChunkManager::new();
    manager.commit(vec![flat_chunk([-8, 0, 0], 0), flat_chunk([8, 0, 0], 0)]);
    let task = manager.update_chunks([16, 0, 0]).unwrap();
    assert_eq!(manager.chunks.len(), 1);
    assert!(manager.chunks.contains_key(&[8, 0, 0]));
    assert!(task.origins.contains(&[9, 0, 0]));
    assert!(!task.origins.contains(&[-8, 0, 0]));
    assert_eq!(task.origins[0], [-7, -8, -8]);
}

#[test]
fn committing_what_was_asked_leaves_nothing_to_load() {
    let mut manager = ChunkManager::new();
    manager.commit(vec![flat_chunk([0, 0, 0], 0)]);
    let task = manager.update_chunks([3, 3, 3]).unwrap();
    let asked: Vec<[i32; 3]> = task.origins.iter().take(40).copied().collect();
    let generated: Vec<Chunk> = asked.iter().map(|origin| flat_chunk(*origin, 0)).collect();
    manager.commit(generated);
    assert_eq!(manager.chunks.len(), 41);
    let again = manager.update_chunks([3, 3, 3]).unwrap();
    assert_eq!(again.origins.len(), 4913 - 41);
    for origin in asked.iter() {
        assert!(manager.chunks.contains_key(origin));
        assert!(!again.origins.contains(origin));
    }
}

#[test]
fn full_cycle_loads_exactly_the_cube() {
    let mut manager = ChunkManager::new();
    manager.commit(vec![flat_chunk([100, 0, 0], 0), flat_chunk([-3, 4, 8], 0)]);
    let position = [-40, 70, 5];
    let center = ChunkManager::get_chunk_at(position);
    assert_eq!(center, [-3, 4, 0]);
    let task = manager.update_chunks(position).unwrap();
    assert_eq!(task.unloaded, vec![[100, 0, 0]]);
    assert_eq!(task.origins.len(), 4912);
    let generated: Vec<Chunk> = task.origins.iter().map(|origin| flat_chunk(*origin, 0)).collect();
    let added = manager.commit(generated);
    assert_eq!(added, task.origins);
    assert_eq!(manager.chunks.len(), 4913);
    assert!(!manager.in_flight);
    for entry in manager.chunks.entries.iter() {
        assert!(ChunkManager::chunk_in_range(entry.key, center, 8));
        assert_eq!(entry.value.origin, entry.key);
    }
    for x in -11..=5 {
        for y in -4..=12 {
            for z in -8..=8 {
                assert!(manager.chunks.contains_key(&[x, y, z]));
            }
        }
    }
    assert!(!manager.chunks.contains_key(&[6, 4, 0]));
    assert!(!manager.chunks.contains_key(&[-3, 13, 0]));
    let again = manager.update_chunks(position).unwrap();
    assert!(again.origins.is_empty());
    assert!(again.unloaded.is_empty());
    assert_eq!(manager.chunks.len(), 4913);
}

#[test]
fn commit_discards_duplicates() {
    let mut manager = ChunkManager::new();
    let first = manager.commit(vec![flat_chunk([1, 2, 3], 40)]);
    assert_eq!(first, vec![[1, 2, 3]]);
    let second = manager.commit(vec![
        flat_chunk([1, 2, 3], 0),
        flat_chunk([4, 5, 6], 0),
        flat_chunk([4, 5, 6], 90),
    ]);
    assert_eq!(second, vec![[4, 5, 6]]);
    assert_eq!(manager.chunks.len(), 2);
    let kept = manager.chunks.get(&[1, 2, 3]).unwrap();
    assert_eq!(kept.block(0, 8, 0).block_type, BlockType::Grass);
    assert_eq!(*kept, flat_chunk([1, 2, 3], 40));
    let second = manager.chunks.get(&[4, 5, 6]).unwrap();
    assert_eq!(*second, flat_chunk([4, 5, 6], 0));
}

#[test]
fn commit_keeps_the_order_of_arrival() {
    let mut manager = ChunkManager::new();
    let added = manager.commit(vec![
        flat_chunk([2, 0, 0], 0),
        flat_chunk([0, 0, 0], 0),
        flat_chunk([1, 0, 0], 0),
    ]);
    let keys: Vec<[i32; 3]> = manager.chunks.entries.iter().map(|e| e.key).collect();
    assert_eq!(keys, vec![[2, 0, 0], [0, 0, 0], [1, 0, 0]]);
    assert_eq!(added, keys);
}

#[test]
fn pack_keeps_coordinates_apart() {
    assert_eq!(pack(&[i32::MIN, i32::MIN, i32::MIN]), 0);
    assert_eq!(pack(&[i32::MIN, i32::MIN, i32::MIN + 1]), 1);
    assert_eq!(pack(&[0, 0, 0]), (1u128 << 95) + (1u128 << 63) + (1u128 << 31));
    assert_eq!(pack(&[i32::MAX, i32::MAX, i32::MAX]), (1u128 << 96) - 1);
    assert_eq!(pack(&[-1, 0, 1]) - pack(&[-1, 0, 0]), 1);
    assert_eq!(pack(&[-1, 1, 0]) - pack(&[-1, 0, 0]), 1u128 << 32);
    assert_eq!(pack(&[0, 0, 0]) - pack(&[-1, 0, 0]), 1u128 << 64);
    assert_ne!(pack(&[0, 1, 0]), pack(&[1, 0, 0]));
    assert_ne!(pack(&[0, 0, -1]), pack(&[0, -1, 0]));
}

#[test]
fn coord_map_finds_among_many() {
    let mut map: CoordMap<i32> = CoordMap::new();
    for x in -10..10 {
        for y in -10..10 {
            for z in -10..10 {
                map.insert([x, y, z], x * 10000 + y * 100 + z);
            }
        }
    }
    assert_eq!(map.len(), 8000);
    assert!(map.is_wf());
    assert_eq!(map.get(&[-10, -10, -10]), Some(&-101010));
    assert_eq!(map.get(&[9, -3, 4]), Some(&(90000 - 300 + 4)));
    assert_eq!(map.find(&[-10, -10, -9]), Some(1));
    assert_eq!(map.get(&[10, 0, 0]), None);
    let dropped = map.retain_within(&[0, 0, 0], 1);
    assert_eq!(dropped.len(), 8000 - 27);
    assert_eq!(map.len(), 27);
    assert!(map.is_wf());
    assert_eq!(map.find(&[-1, -1, -1]), Some(0));
    assert_eq!(map.find(&[1, 1, 1]), Some(26));
    assert_eq!(map.get(&[0, 1, -1]), Some(&99));
    assert_eq!(map.find(&[2, 0, 0]), None);
}

#[test]
fn coord_map_insert_get_and_find() {
    let mut map: CoordMap<u32> = CoordMap::new();
    assert_eq!(map.len(), 0);
    assert_eq!(map.get(&[0, 0, 0]), None);
    map.insert([0, 0, 0], 10);
    map.insert([0, 0, 1], 11);
    map.insert([-1, 0, 0], 12);
    assert_eq!(map.len(), 3);
    assert_eq!(map.get(&[0, 0, 1]), Some(&11));
    assert_eq!(map.get(&[-1, 0, 0]), Some(&12));
    assert_eq!(map.get(&[1, 0, 0]), None);
    assert_eq!(map.find(&[0, 0, 0]), Some(0));
    assert_eq!(map.find(&[-1, 0, 0]), Some(2));
    assert_eq!(map.find(&[0, 1, 0]), None);
    assert!(map.contains_key(&[0, 0, 1]));
    assert!(!map.contains_key(&[0, 1, 0]));
}

#[test]
fn coord_map_retain_within_keeps_order() {
    let mut map: CoordMap<u32> = CoordMap::new();
    map.insert([5, 0, 0], 1);
    map.insert([2, 0, 0], 2);
    map.insert([0, 3, 0], 3);
    map.insert([0, 0, -2], 4);
    map.insert([0, 0, 0], 5);
    let dropped = map.retain_within(&[0, 0, 0], 2);
    let kept: Vec<([i32; 3], u32)> = map.entries.iter().map(|e| (e.key, e.value)).collect();
    assert_eq!(kept, vec![([2, 0, 0], 2), ([0, 0, -2], 4), ([0, 0, 0], 5)]);
    assert_eq!(dropped, vec![[5, 0, 0], [0, 3, 0]]);
}

#[test]
fn worker_messages_carry_the_task() {
    let task = LoadChunkTask { origins: vec![[1, 2, 3]], unloaded: vec![[9, 9, 9]] };
    let message = WorkerMessage::LoadChunkTask(task.clone());
    assert_eq!(message, WorkerMessage::LoadChunkTask(task));
    assert_ne!(message, WorkerMessage::Shutdown);
}
