use voxel_svo::config::Node;
use voxel_svo::key::Position;
use std::collections::BTreeMap;
use voxel_svo::tree::{build_chunk_tree, build_tlas, get_cluster_key, merge_clusters, RenderClusterInfo};
use voxel_svo::voxel_map::{key_of, Brick, Voxel, VoxelMap, CHUNK_SIZE};

fn at(x: i32, y: i32, z: i32) -> Position {
    Position { x, y, z }
}

#[test]
fn voxel_emptiness() {
    assert!(Voxel(0).is_empty());
    assert!(Voxel::empty().is_empty());
    assert!(Voxel::default().is_empty());
    assert!(!Voxel(1).is_empty());
    assert_eq!(CHUNK_SIZE, 64);
}

#[test]
fn brick_get_and_set_use_low_three_bits() {
    let mut brick = Brick::default();
    assert!(brick.data.iter().all(|v| v.is_empty()));
    brick.set(1, 2, 3, Voxel(7));
    assert_eq!(brick.data[1 + 3 * 8 + 2 * 64], Voxel(7));
    assert_eq!(brick.get(1, 2, 3), Voxel(7));
    assert_eq!(brick.get(9, 10, 11), Voxel(7));
    assert_eq!(brick.get(-7, -6, -5), Voxel(7));
    assert_eq!(brick.get(0, 0, 0), Voxel(0));
}

#[test]
fn map_set_then_get() {
    let mut map = VoxelMap::default();
    assert_eq!(map.get_voxel(at(1, 2, 3)), Voxel(0));
    assert!(map.get_brick(at(0, 0, 0)).is_none());
    map.set_voxel(at(1, 2, 3), Voxel(5));
    map.set_voxel(at(-1, -9, 17), Voxel(6));
    assert_eq!(map.get_voxel(at(1, 2, 3)), Voxel(5));
    assert_eq!(map.get_voxel(at(-1, -9, 17)), Voxel(6));
    assert_eq!(map.get_voxel(at(2, 2, 3)), Voxel(0));
    assert_eq!(map.get_voxel(at(9, 2, 3)), Voxel(0));
    assert_eq!(map.bricks.len(), 2);
    assert!(map.get_brick(at(0, 0, 0)).is_some());
    assert!(map.get_brick(at(-1, -2, 2)).is_some());
    assert!(map.get_brick(at(1, 0, 0)).is_none());
    assert_eq!(map.get_brick(at(-1, -2, 2)).unwrap().get(7, 7, 1), Voxel(6));
    map.set_voxel(at(1, 2, 3), Voxel(0));
    assert_eq!(map.get_voxel(at(1, 2, 3)), Voxel(0));
    assert!(map.dirty_chunks.is_empty());
}

#[test]
fn get_brick_mut_inserts_blank_brick() {
    let mut map = VoxelMap::default();
    {
        let brick = map.get_brick_mut(at(3, -4, 5));
        assert!(brick.data.iter().all(|v| v.is_empty()));
        brick.set(0, 0, 0, Voxel(2));
    }
    assert_eq!(map.get_brick_mut(at(3, -4, 5)).get(0, 0, 0), Voxel(2));
    assert_eq!(map.get_voxel(at(24, -32, 40)), Voxel(2));
}

#[test]
fn cluster_key_values() {
    assert_eq!(get_cluster_key(at(0, 0, 0)), 0);
    assert_eq!(get_cluster_key(at(1, 0, 0)), 1);
    assert_eq!(get_cluster_key(at(0, 0, 1)), 4);
    assert_eq!(get_cluster_key(at(0, 1, 0)), 16);
    assert_eq!(get_cluster_key(at(4, 4, 4)), (1 << 6) | (1 << 8) | (1 << 10));
    assert_eq!(get_cluster_key(at(0xF_FFFF, 0, 0)), 0x00C3_0C30_C30C_30C3);
    assert_eq!(get_cluster_key(at(1 << 20, 0, 0)), 0);
    assert_eq!(get_cluster_key(at(-1, 0, 0)), 0x00C3_0C30_C30C_30C3);
    assert_eq!(get_cluster_key(at(i32::MIN, 0, 0)), 0x00C3_0000_0000_0000);
}

#[test]
fn map_tree_of_empty_cube_is_empty_node() {
    let map = VoxelMap::default();
    let mut pool: Vec<Node> = vec![Node::new(1, true, 1)];
    let mut leaves: Vec<u32> = vec![8];
    let node = build_chunk_tree(&map, &mut pool, &mut leaves, 6, at(0, 0, 0));
    assert_eq!(node, Node::new_empty());
    assert_eq!(pool.len(), 1);
    assert_eq!(leaves, vec![8]);
}

#[test]
fn map_tree_leaf_and_parent() {
    let mut map = VoxelMap::default();
    map.set_voxel(at(0, 0, 0), Voxel(11));
    map.set_voxel(at(1, 0, 0), Voxel(12));
    map.set_voxel(at(0, 1, 0), Voxel(13));
    map.set_voxel(at(7, 7, 7), Voxel(14));
    let mut pool: Vec<Node> = Vec::new();
    let mut leaves: Vec<u32> = vec![1];
    let leaf = build_chunk_tree(&map, &mut pool, &mut leaves, 2, at(0, 0, 0));
    assert_eq!(leaf, Node::new(1, true, 1 | (1 << 1) | (1 << 16)));
    assert_eq!(leaves, vec![1, 11, 12, 13]);
    assert!(pool.is_empty());

    let mut pool: Vec<Node> = Vec::new();
    let mut leaves: Vec<u32> = Vec::new();
    let node = build_chunk_tree(&map, &mut pool, &mut leaves, 4, at(0, 0, 0));
    // bricks at slots 0 and 21 (offset (1, 1, 1))
    assert_eq!(node, Node::new(0, false, 1 | (1 << 21)));
    assert_eq!(leaves, vec![11, 12, 13, 14]);
    assert_eq!(pool, vec![Node::new(0, true, 1 | (1 << 1) | (1 << 16)), Node::new(3, true, 1 << 63)]);
}

#[test]
fn cluster_merge_of_nothing_is_empty_node() {
    let mut pool: Vec<Node> = Vec::new();
    let clusters: BTreeMap<u64, RenderClusterInfo> = BTreeMap::new();
    assert_eq!(build_tlas(&clusters, &mut pool, 12), Node::new_empty());
    assert!(pool.is_empty());
    let none: Vec<(u64, RenderClusterInfo)> = Vec::new();
    assert_eq!(merge_clusters(&none, &mut pool, 12), Node::new_empty());
    assert!(pool.is_empty());
}

#[test]
fn cluster_merge_builds_levels_below_root_scale() {
    let a = Node::new(5, true, 3);
    let b = Node::new(6, true, 4);
    let c = Node::new(7, true, 8);
    let mut first = RenderClusterInfo::default();
    assert_eq!(first.pop_mask, 0);
    assert!(first.chunk_roots.iter().all(|n| *n == Node::new_empty()));
    first.pop_mask = (1 << 2) | (1 << 40);
    first.chunk_roots[2] = a;
    first.chunk_roots[40] = b;
    first.chunk_roots[41] = Node::new(9, true, 9);
    let mut second = RenderClusterInfo::default();
    second.pop_mask = 1;
    second.chunk_roots[0] = c;
    let mut clusters: BTreeMap<u64, RenderClusterInfo> = BTreeMap::new();
    clusters.insert(3u64, second);
    clusters.insert(0u64, first);
    let listed = vec![(0u64, first), (3u64, second)];
    let mut other: Vec<Node> = vec![Node::new_empty()];
    assert_eq!(merge_clusters(&listed, &mut other, 10), Node::new(4, false, 1 | (1 << 3)));
    assert_eq!(other.len(), 6);

    let mut pool: Vec<Node> = vec![Node::new_empty()];
    let root = build_tlas(&clusters, &mut pool, 8);
    assert_eq!(pool, vec![Node::new_empty(), a, b, c]);
    assert_eq!(root, Node::new(1, false, (1 << 2) | (1 << 40)));

    let mut pool: Vec<Node> = vec![Node::new_empty()];
    let root = build_tlas(&clusters, &mut pool, 10);
    assert_eq!(pool.len(), 6);
    assert_eq!(pool[4], Node::new(1, false, (1 << 2) | (1 << 40)));
    assert_eq!(pool[5], Node::new(3, false, 1));
    assert_eq!(root, Node::new(4, false, 1 | (1 << 3)));
}

#[test]
fn brick_keys_tell_coordinates_apart() {
    assert_eq!(key_of(at(i32::MIN, i32::MIN, i32::MIN)), 0);
    assert_eq!(key_of(at(0, 0, 0)), 0x8000_0000u128 | (0x8000_0000u128 << 32) | (0x8000_0000u128 << 64));
    assert_eq!(key_of(at(-1, 0, 1)), 0x7FFF_FFFFu128 | (0x8000_0000u128 << 32) | (0x8000_0001u128 << 64));
    assert_ne!(key_of(at(1, 0, 0)), key_of(at(0, 1, 0)));
    assert_ne!(key_of(at(0, 1, 0)), key_of(at(0, 0, 1)));
}
