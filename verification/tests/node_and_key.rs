use voxel_svo::config::{AppSettings, Node};
use voxel_svo::key::{get_morton_key, Position};

fn pos(x: i32, y: i32, z: i32) -> Position {
    Position { x, y, z }
}

#[test]
fn app_settings_default_values() {
    let s = AppSettings::default();
    assert_eq!(s.width, 700);
    assert_eq!(s.height, 512);
    assert_eq!(s.workgroup_size, 8);
}

#[test]
fn node_new_packs_words() {
    let n = Node::new(5, true, 0x0123_4567_89AB_CDEF);
    assert_eq!(n.x, (5 << 2) | 1);
    assert_eq!(n.y, 0x89AB_CDEF);
    assert_eq!(n.z, 0x0123_4567);
    assert_eq!(n.w, 0);
}

#[test]
fn node_round_trip() {
    let ptrs: [u32; 5] = [0, 1, 12345, 0x2AAA_AAAA, 0x3FFF_FFFF];
    let masks: [u64; 5] = [0, 1, u64::MAX, 0x8000_0000_0000_0000, 0x0000_0001_0000_0000];
    for &p in ptrs.iter() {
        for &m in masks.iter() {
            for &leaf in [false, true].iter() {
                let n = Node::new(p, leaf, m);
                assert_eq!(n.get_child_ptr(), p);
                assert_eq!(n.is_leaf(), leaf);
                assert_eq!(n.get_pop_mask(), m);
            }
        }
    }
}

#[test]
fn node_new_empty_is_zero() {
    let n = Node::new_empty();
    assert_eq!((n.x, n.y, n.z, n.w), (0, 0, 0, 0));
    assert_eq!(n.get_pop_mask(), 0);
    assert!(!n.is_leaf());
    assert_eq!(n.get_child_ptr(), 0);
}

#[test]
fn node_setters_change_one_thing() {
    let mut n = Node::new(77, false, 0xF0F0);
    n.set_leaf(true);
    assert!(n.is_leaf());
    assert_eq!(n.get_child_ptr(), 77);
    n.set_absolute_ptr(true);
    assert_eq!(n.x & 2, 2);
    assert!(n.is_leaf());
    assert_eq!(n.get_child_ptr(), 77);
    n.set_child_ptr(1000);
    assert_eq!(n.get_child_ptr(), 1000);
    assert!(n.is_leaf());
    assert_eq!(n.x & 2, 2);
    n.set_leaf(false);
    n.set_absolute_ptr(false);
    assert_eq!(n.x, 1000 << 2);
    n.set_pop_mask(0xDEAD_BEEF_0000_0001);
    assert_eq!(n.get_pop_mask(), 0xDEAD_BEEF_0000_0001);
    assert_eq!(n.y, 1);
    assert_eq!(n.z, 0xDEAD_BEEF);
    assert_eq!(n.get_child_ptr(), 1000);
}

#[test]
fn node_pointer_wraps_past_thirty_bits() {
    let n = Node::new(0x4000_0001, false, 1);
    assert_eq!(n.get_child_ptr(), 1);
}

#[test]
fn morton_key_unit_steps() {
    assert_eq!(get_morton_key(pos(0, 0, 0)), 0);
    assert_eq!(get_morton_key(pos(1, 0, 0)), 1);
    assert_eq!(get_morton_key(pos(2, 0, 0)), 2);
    assert_eq!(get_morton_key(pos(0, 0, 1)), 1 << 2);
    assert_eq!(get_morton_key(pos(0, 1, 0)), 1 << 4);
    assert_eq!(get_morton_key(pos(3, 3, 3)), 63);
    assert_eq!(get_morton_key(pos(4, 0, 0)), 1 << 6);
    assert_eq!(get_morton_key(pos(0, 4, 0)), 1 << 10);
    assert_eq!(get_morton_key(pos(0, 0, 4)), 1 << 8);
    assert_eq!(get_morton_key(pos(5, 6, 7)), 1 | (1 << 6) | (3 << 2) | (1 << 8) | (2 << 4) | (1 << 10));
}

#[test]
fn morton_key_masks_to_21_bits() {
    assert_eq!(get_morton_key(pos(1 << 21, 0, 0)), 0);
    assert_eq!(get_morton_key(pos(1 << 20, 0, 0)), 1 << 60);
    assert_eq!(get_morton_key(pos(0, 0, 1 << 20)), 1 << 62);
    assert_eq!(get_morton_key(pos(0, 1 << 20, 0)), 0);
    assert_eq!(get_morton_key(pos(-1, 0, 0)), get_morton_key(pos(0x1F_FFFF, 0, 0)));
    assert_eq!(get_morton_key(pos(0x1F_FFFF, 0, 0)), 0x10C3_0C30_C30C_30C3);
}

#[test]
fn morton_keys_group_by_cell() {
    let a = pos(0x1234, 0x0FF0, 0x7001);
    let b = pos(0x123F, 0x0FF5, 0x700E);
    assert_eq!(a.x >> 4, b.x >> 4);
    assert_eq!(a.y >> 4, b.y >> 4);
    assert_eq!(a.z >> 4, b.z >> 4);
    assert_eq!(get_morton_key(a) >> 12, get_morton_key(b) >> 12);
    assert_ne!(get_morton_key(a), get_morton_key(b));
}
