use bevy::platform::collections::HashMap;
use voxel_svo::chunk::build_chunk_tree;
use voxel_svo::config::Node;
use voxel_svo::key::{get_morton_key, Position};
use voxel_svo::store::{Brick, Sector, VoxelWorld};
use voxel_svo::svo::{update_svo_system, SvoStorage};
use voxel_svo::tlas::build_tlas;

fn pos(x: i32, y: i32, z: i32) -> Position {
    Position { x, y, z }
}

fn set_voxel(world: &mut VoxelWorld, p: (i32, i32, i32), material: u8) {
    let sector_pos = (p.0 >> 6, p.1 >> 6, p.2 >> 6);
    let sector = world.sectors.entry(sector_pos).or_insert(Sector { bricks: HashMap::new() });
    let local = (p.0 & 63, p.1 & 63, p.2 & 63);
    let brick_idx = ((local.0 >> 2) + (local.1 >> 2) * 16 + (local.2 >> 2) * 256) as u32;
    let brick = sector.bricks.entry(brick_idx).or_insert(Brick { voxels: [0; 64] });
    let v_idx = ((local.0 & 3) + (local.2 & 3) * 4 + (local.1 & 3) * 16) as usize;
    brick.voxels[v_idx] = material;
}

fn sphere_world() -> VoxelWorld {
    let mut world = VoxelWorld::default();
    let radius: i32 = 32;
    for x in -radius..=radius {
        for y in -radius..=radius {
            for z in -radius..=radius {
                if x * x + y * y + z * z <= radius * radius {
                    set_voxel(&mut world, (32 + x, 32 + y, 32 + z), 1);
                }
            }
        }
    }
    world
}

#[test]
fn pack_bits_marks_occupied_slots() {
    let mut brick = Brick { voxels: [0; 64] };
    brick.voxels[0] = 3;
    brick.voxels[5] = 1;
    brick.voxels[63] = 9;
    assert_eq!(brick.pack_bits_64(), 1 | (1 << 5) | (1 << 63));
    assert_eq!(Brick { voxels: [0; 64] }.pack_bits_64(), 0);
    assert_eq!(Brick { voxels: [7; 64] }.pack_bits_64(), u64::MAX);
}

#[test]
fn get_brick_at_finds_stored_brick() {
    let mut world = VoxelWorld::default();
    set_voxel(&mut world, (70, 9, 130), 4);
    let brick = world.get_brick_at(pos(68, 8, 128)).expect("brick");
    assert_eq!(brick.voxels[(2 + 2 * 4 + 1 * 16) as usize], 4);
    assert!(world.get_brick_at(pos(71, 11, 131)).is_some());
    assert!(world.get_brick_at(pos(72, 8, 128)).is_none());
    assert!(world.get_brick_at(pos(0, 0, 0)).is_none());
}

#[test]
fn empty_chunk_builds_nothing() {
    let world = VoxelWorld::default();
    let mut nodes = vec![Node::new_empty()];
    let mut leaves: Vec<u32> = vec![11, 12];
    assert!(build_chunk_tree(&world, &mut nodes, &mut leaves, 6, pos(0, 0, 0)).is_none());
    assert_eq!(nodes.len(), 1);
    assert_eq!(leaves, vec![11, 12]);
}

#[test]
fn chunk_of_zero_bricks_builds_nothing() {
    let mut world = VoxelWorld::default();
    set_voxel(&mut world, (1, 2, 3), 0);
    set_voxel(&mut world, (40, 50, 60), 0);
    let mut nodes: Vec<Node> = Vec::new();
    let mut leaves: Vec<u32> = Vec::new();
    assert!(build_chunk_tree(&world, &mut nodes, &mut leaves, 6, pos(0, 0, 0)).is_none());
    assert_eq!(nodes.len(), 0);
    assert_eq!(leaves.len(), 0);
}

#[test]
fn single_brick_leaf() {
    let mut world = VoxelWorld::default();
    set_voxel(&mut world, (0, 0, 0), 5);
    set_voxel(&mut world, (1, 0, 0), 6);
    set_voxel(&mut world, (0, 0, 1), 7);
    set_voxel(&mut world, (0, 1, 0), 8);
    set_voxel(&mut world, (3, 3, 3), 9);
    let mut nodes: Vec<Node> = Vec::new();
    let mut leaves: Vec<u32> = vec![100];
    let leaf = build_chunk_tree(&world, &mut nodes, &mut leaves, 2, pos(0, 0, 0)).expect("leaf");
    assert!(leaf.is_leaf());
    assert_eq!(leaf.get_pop_mask(), 1 | (1 << 1) | (1 << 4) | (1 << 16) | (1 << 63));
    assert_eq!(leaf.get_child_ptr(), 1);
    assert_eq!(leaves, vec![100, 5, 6, 7, 8, 9]);
    assert_eq!(nodes.len(), 0);
}

#[test]
fn sector_tree_has_three_levels() {
    let mut world = VoxelWorld::default();
    set_voxel(&mut world, (0, 0, 0), 1);
    set_voxel(&mut world, (63, 63, 63), 2);
    let mut nodes = vec![Node::new_empty()];
    let mut leaves: Vec<u32> = Vec::new();
    let root = build_chunk_tree(&world, &mut nodes, &mut leaves, 6, pos(0, 0, 0)).expect("root");
    assert!(!root.is_leaf());
    assert_eq!(root.get_pop_mask(), 1 | (1 << 63));
    assert_eq!(leaves, vec![1, 2]);
    // pool: root slot, leaf A, mid A, leaf B, mid B
    assert_eq!(nodes.len(), 5);
    assert_eq!(root.get_child_ptr(), 3);
    let mid_a = nodes[3];
    let mid_b = nodes[4];
    assert_eq!(mid_a, Node::new(1, false, 1));
    assert_eq!(mid_b, Node::new(2, false, 1 << 63));
    assert_eq!(nodes[1], Node::new(0, true, 1));
    assert_eq!(nodes[2], Node::new(1, true, 1 << 63));
}

#[test]
fn child_slots_follow_x_z_y_order() {
    let mut world = VoxelWorld::default();
    set_voxel(&mut world, (4, 0, 0), 1);
    set_voxel(&mut world, (0, 0, 4), 2);
    set_voxel(&mut world, (0, 4, 0), 3);
    let mut nodes: Vec<Node> = Vec::new();
    let mut leaves: Vec<u32> = Vec::new();
    let node = build_chunk_tree(&world, &mut nodes, &mut leaves, 4, pos(0, 0, 0)).expect("node");
    assert_eq!(node.get_pop_mask(), (1 << 1) | (1 << 4) | (1 << 16));
    assert_eq!(leaves, vec![1, 2, 3]);
    assert_eq!(nodes.len(), 3);
    assert_eq!(node.get_child_ptr(), 0);
}

#[test]
fn tlas_of_nothing_is_empty_node() {
    let mut pool = vec![Node::new_empty()];
    let root = build_tlas(Vec::new(), &mut pool, 12);
    assert_eq!(root, Node::new_empty());
    assert_eq!(pool.len(), 1);
}

#[test]
fn tlas_single_root_below_first_scale_is_returned() {
    let chunk = Node::new(9, false, 0xFF);
    let mut pool = vec![Node::new_empty()];
    let root = build_tlas(vec![(0, chunk)], &mut pool, 6);
    assert_eq!(root, chunk);
    assert_eq!(pool.len(), 1);
}

#[test]
fn tlas_merges_siblings_into_one_parent() {
    let keys: [u64; 4] = [
        get_morton_key(pos(0, 0, 0)),
        get_morton_key(pos(1, 0, 0)),
        get_morton_key(pos(0, 0, 1)),
        get_morton_key(pos(0, 1, 0)),
    ];
    let mut roots: Vec<(u64, Node)> = Vec::new();
    for (i, k) in keys.iter().enumerate() {
        roots.push((k << 18, Node::new(i as u32, true, 1)));
    }
    roots.sort_by_key(|r| r.0);
    let mut pool = vec![Node::new_empty()];
    let root = build_tlas(roots.clone(), &mut pool, 8);
    assert_eq!(root.get_pop_mask().count_ones(), 4);
    assert_eq!(root.get_pop_mask(), 1 | (1 << 1) | (1 << 4) | (1 << 16));
    assert_eq!(root.get_child_ptr(), 1);
    assert!(!root.is_leaf());
    assert_eq!(pool.len(), 5);
    for i in 0..4 {
        assert_eq!(pool[1 + i], roots[i].1);
    }
}

#[test]
fn tlas_groups_runs_by_prefix() {
    let a = Node::new(1, true, 1);
    let b = Node::new(2, true, 2);
    let c = Node::new(3, true, 4);
    let roots = vec![(0u64 << 18, a), (5u64 << 18, b), (1u64 << 24, c)];
    let mut pool: Vec<Node> = Vec::new();
    let root = build_tlas(roots, &mut pool, 8);
    // scale 8: runs {a, b} and {c}; scale 10: one run of the two parents
    assert_eq!(pool.len(), 5);
    assert_eq!(&pool[0..3], &[a, b, c]);
    assert_eq!(pool[3], Node::new(0, false, 1 | (1 << 5)));
    assert_eq!(pool[4], Node::new(2, false, 1));
    assert_eq!(root, Node::new(3, false, 1 | (1 << 1)));
}

#[test]
fn tlas_stops_at_scale_cap() {
    let a = Node::new(1, true, 1);
    let mut pool: Vec<Node> = Vec::new();
    let root = build_tlas(vec![(0, a)], &mut pool, 1000);
    // levels at scales 8, 10, .., 30
    assert_eq!(pool.len(), 12);
    assert_eq!(root, Node::new(11, false, 1));
}

#[test]
fn update_leaves_storage_for_empty_world() {
    let world = VoxelWorld::default();
    let mut storage = SvoStorage::default();
    storage.nodes.push(Node::new(3, true, 3));
    storage.leaf_data.push(42);
    update_svo_system(&world, &mut storage);
    assert!(!storage.dirty);
    assert_eq!(storage.nodes, vec![Node::new(3, true, 3)]);
    assert_eq!(storage.leaf_data, vec![42]);
}

#[test]
fn generate_on_vacant_sector_keeps_placeholder_root() {
    let mut world = VoxelWorld::default();
    set_voxel(&mut world, (5, 5, 5), 0);
    let mut storage = SvoStorage::default();
    storage.leaf_data.push(1);
    assert!(world.sectors_in_range());
    world.generate_svo(&mut storage);
    assert_eq!(storage.nodes, vec![Node::new_empty()]);
    assert!(storage.leaf_data.is_empty());
    assert!(!storage.dirty);
}

#[test]
fn sectors_out_of_range_are_reported() {
    let mut world = VoxelWorld::default();
    world.sectors.insert((0x200_0000, 0, 0), Sector { bricks: HashMap::new() });
    assert!(!world.sectors_in_range());
    let mut ok = VoxelWorld::default();
    ok.sectors.insert((-0x200_0000, 0x1FF_FFFF, 0), Sector { bricks: HashMap::new() });
    assert!(ok.sectors_in_range());
}

#[test]
fn rebuild_sorts_chunk_roots_by_key() {
    let mut world = VoxelWorld::default();
    set_voxel(&mut world, (64, 0, 0), 1);
    set_voxel(&mut world, (0, 0, 0), 2);
    set_voxel(&mut world, (0, 64, 0), 3);
    let mut storage = SvoStorage { tree_scale: 8, ..SvoStorage::default() };
    let order = vec![(0, 1, 0), (1, 0, 0), (0, 0, 0)];
    world.rebuild_in_order(&mut storage, &order);
    let root = storage.nodes[0];
    // sectors (0,0,0), (1,0,0) and (0,1,0) take slots 0, 1 and 16
    assert_eq!(root.get_pop_mask(), 1 | (1 << 1) | (1 << 16));
    assert_eq!(root.get_pop_mask().count_ones(), 3);
    assert_eq!(storage.leaf_data, vec![3, 1, 2]);
    let first = root.get_child_ptr() as usize;
    // children in key order: sector (0,0,0), (1,0,0), (0,1,0)
    let leaf_ptr = |chunk: Node| -> u32 {
        let mid = storage.nodes[chunk.get_child_ptr() as usize];
        storage.nodes[mid.get_child_ptr() as usize].get_child_ptr()
    };
    assert_eq!(leaf_ptr(storage.nodes[first]), 2);
    assert_eq!(leaf_ptr(storage.nodes[first + 1]), 1);
    assert_eq!(leaf_ptr(storage.nodes[first + 2]), 0);
}

fn reaches_only_sphere_bricks(storage: &SvoStorage, node: Node, scale: i32, origin: (i32, i32, i32)) {
    let mask = node.get_pop_mask();
    assert_ne!(mask, 0);
    if node.is_leaf() {
        let near = |o: i32| -> i32 {
            if 32 < o {
                o - 32
            } else if 32 > o + 3 {
                32 - (o + 3)
            } else {
                0
            }
        };
        let d = (near(origin.0), near(origin.1), near(origin.2));
        assert!(d.0 * d.0 + d.1 * d.1 + d.2 * d.2 <= 32 * 32);
        let n = mask.count_ones() as usize;
        let start = node.get_child_ptr() as usize;
        for m in &storage.leaf_data[start..start + n] {
            assert_eq!(*m, 1);
        }
        return;
    }
    let mut child = node.get_child_ptr() as usize;
    let step = 1 << (scale - 2);
    for i in 0..64 {
        if mask & (1u64 << i) != 0 {
            let o = (
                origin.0 + (i & 3) * step,
                origin.1 + ((i >> 4) & 3) * step,
                origin.2 + ((i >> 2) & 3) * step,
            );
            reaches_only_sphere_bricks(storage, storage.nodes[child], scale - 2, o);
            child += 1;
        }
    }
}

#[test]
fn sphere_end_to_end() {
    let world = sphere_world();
    let mut storage = SvoStorage { tree_scale: 6, ..SvoStorage::default() };
    assert!(world.sectors_in_range());
    update_svo_system(&world, &mut storage);
    assert!(storage.dirty);
    assert!(!storage.nodes.is_empty());
    let root = storage.nodes[0];
    assert_ne!(root.get_pop_mask(), 0);
    // the sphere reaches into sector 1 on each axis, so one level is merged
    assert_eq!(world.sectors.len(), 4);
    assert!(!root.is_leaf());
    assert_eq!(root.get_pop_mask(), 0x10013);
    assert_eq!(root.get_pop_mask().count_ones(), 4);
    assert!(storage.nodes.len() >= 2);
    assert!(!storage.leaf_data.is_empty());
    let mut sectors: Vec<(i32, i32, i32)> = world.sectors.keys().copied().collect();
    sectors.sort_by_key(|s| get_morton_key(pos(s.0 * 64, s.1 * 64, s.2 * 64)));
    assert_eq!(sectors, vec![(0, 0, 0), (1, 0, 0), (0, 0, 1), (0, 1, 0)]);
    let mut child = root.get_child_ptr() as usize;
    let mut voxels: usize = 0;
    for s in sectors {
        reaches_only_sphere_bricks(&storage, storage.nodes[child], 6, (s.0 * 64, s.1 * 64, s.2 * 64));
        child += 1;
    }
    assert_eq!(child, storage.nodes.len());
    for x in 0..=64i32 {
        for y in 0..=64i32 {
            for z in 0..=64i32 {
                let d = (x - 32, y - 32, z - 32);
                if d.0 * d.0 + d.1 * d.1 + d.2 * d.2 <= 32 * 32 {
                    voxels += 1;
                }
            }
        }
    }
    assert_eq!(storage.leaf_data.len(), voxels);
}

#[test]
fn rebuild_twice_is_identical() {
    let world = sphere_world();
    let mut storage = SvoStorage { tree_scale: 6, ..SvoStorage::default() };
    update_svo_system(&world, &mut storage);
    let nodes = storage.nodes.clone();
    let leaves = storage.leaf_data.clone();
    update_svo_system(&world, &mut storage);
    assert_eq!(storage.nodes, nodes);
    assert_eq!(storage.leaf_data, leaves);
    let order: Vec<(i32, i32, i32)> = vec![(0, 0, 0), (1, 0, 0), (1, 1, 1)];
    let mut a = SvoStorage { tree_scale: 6, ..SvoStorage::default() };
    let mut b = SvoStorage { tree_scale: 6, ..SvoStorage::default() };
    b.nodes.push(Node::new(1, true, 1));
    b.leaf_data.push(9);
    world.rebuild_in_order(&mut a, &order);
    world.rebuild_in_order(&mut b, &order);
    world.rebuild_in_order(&mut b, &order);
    assert_eq!(a.nodes, b.nodes);
    assert_eq!(a.leaf_data, b.leaf_data);
}

#[test]
fn set_voxel_stores_one_voxel() {
    let mut world = VoxelWorld::default();
    world.set_voxel(pos(-1, 70, 5), 9);
    let brick = world.get_brick_at(pos(-1, 70, 5)).expect("brick");
    let slot = (3 + (5 & 3) * 4 + (70 & 3) * 16) as usize;
    for (i, v) in brick.voxels.iter().enumerate() {
        assert_eq!(*v, if i == slot { 9 } else { 0 });
    }
    assert_eq!(world.sectors.len(), 1);
    assert!(world.sectors.contains_key(&(-1, 1, 0)));
    assert_eq!(world.sectors[&(-1, 1, 0)].bricks.len(), 1);
    assert!(world.sectors[&(-1, 1, 0)].bricks.contains_key(&(15 + 1 * 16 + 1 * 256)));
    world.set_voxel(pos(-2, 70, 5), 4);
    let brick = world.get_brick_at(pos(-1, 70, 5)).expect("brick");
    assert_eq!(brick.voxels[slot], 9);
    assert_eq!(brick.voxels[slot - 1], 4);
}

#[test]
fn spawn_sphere_fills_exactly_the_sphere() {
    let mut world = VoxelWorld::default();
    world.set_voxel(pos(200, 0, 0), 7);
    world.set_voxel(pos(32, 32, 32), 5);
    voxel_svo::scene::spawn_sphere(&mut world);
    let reference = sphere_world();
    for x in -4..70 {
        for y in -4..70 {
            for z in -4..70 {
                let d = (x - 32, y - 32, z - 32);
                let inside = d.0 * d.0 + d.1 * d.1 + d.2 * d.2 <= 32 * 32;
                let slot = ((x & 3) + (z & 3) * 4 + (y & 3) * 16) as usize;
                let got = world.get_brick_at(pos(x, y, z)).map(|b| b.voxels[slot]).unwrap_or(0);
                let want = reference.get_brick_at(pos(x, y, z)).map(|b| b.voxels[slot]).unwrap_or(0);
                assert_eq!(got, if inside { 1 } else { 0 });
                assert_eq!(got, want);
            }
        }
    }
    let far = world.get_brick_at(pos(200, 0, 0)).expect("brick");
    assert_eq!(far.voxels[0], 7);
}

#[test]
fn install_root_writes_slot_zero() {
    let a = Node::new(1, true, 1);
    let b = Node::new(2, true, 2);
    let mut storage = SvoStorage { tree_scale: 8, ..SvoStorage::default() };
    storage.nodes.push(Node::new_empty());
    storage.leaf_data.push(5);
    voxel_svo::svo::install_root(&mut storage, vec![(1u64 << 18, a), (2u64 << 18, b)]);
    assert_eq!(storage.nodes, vec![Node::new(1, false, (1 << 1) | (1 << 2)), a, b]);
    assert_eq!(storage.leaf_data, vec![5]);
    assert_eq!(storage.tree_scale, 8);
    assert!(!storage.dirty);
}

#[test]
fn huge_tree_scale_counts_as_below_every_level() {
    let a = Node::new(1, true, 1);
    let mut storage = SvoStorage { tree_scale: u32::MAX, ..SvoStorage::default() };
    storage.nodes.push(Node::new_empty());
    voxel_svo::svo::install_root(&mut storage, vec![(0, a)]);
    assert_eq!(storage.nodes, vec![a]);
}

#[test]
fn sectors_of_other_cells_get_other_parents() {
    let mut world = VoxelWorld::default();
    set_voxel(&mut world, (0, 0, 0), 1);
    set_voxel(&mut world, (4 * 64, 0, 0), 2);
    let mut storage = SvoStorage { tree_scale: 10, ..SvoStorage::default() };
    let order = vec![(4, 0, 0), (0, 0, 0)];
    world.rebuild_in_order(&mut storage, &order);
    let root = storage.nodes[0];
    // two cells of scale 8, at slots 0 and 1 of the cell of scale 10
    assert_eq!(root.get_pop_mask(), 1 | (1 << 1));
    let first = storage.nodes[root.get_child_ptr() as usize];
    let second = storage.nodes[root.get_child_ptr() as usize + 1];
    assert_eq!(first.get_pop_mask(), 1);
    assert_eq!(second.get_pop_mask(), 1);
    assert!(!first.is_leaf());
}

#[test]
fn spawn_sphere_makes_only_bricks_it_fills() {
    let mut world = VoxelWorld::default();
    voxel_svo::scene::spawn_sphere(&mut world);
    let mut sectors: Vec<(i32, i32, i32)> = world.sectors.keys().copied().collect();
    sectors.sort();
    assert_eq!(sectors, vec![(0, 0, 0), (0, 0, 1), (0, 1, 0), (1, 0, 0)]);
    for sector in world.sectors.values() {
        for brick in sector.bricks.values() {
            assert!(brick.voxels.iter().any(|v| *v != 0));
        }
    }
    let far = &world.sectors[&(1, 0, 0)];
    assert_eq!(far.bricks.len(), 1);
    let brick = far.bricks[&2176];
    for (i, v) in brick.voxels.iter().enumerate() {
        assert_eq!(*v, if i == 0 { 1 } else { 0 });
    }
    assert!(!world.sectors[&(0, 0, 0)].bricks.contains_key(&0));
    assert!(world.sectors[&(0, 0, 0)].bricks.contains_key(&(8 + 8 * 16 + 8 * 256)));
}

#[test]
fn node_default_is_empty_node() {
    assert_eq!(Node::default(), Node::new_empty());
}
