use crate::bits::{lemma_count_bits_zero, single_bit};
use crate::clusters::cluster_entries;
use crate::chunk::{child_position, child_slots, chunk_tree, cube_fits, lemma_chunk_tree_appends, lemma_node_fields, pointer_to, ptr_word};
use crate::config::{lemma_mask_halves, lemma_pack_word, node_of, Node};
use crate::key::{slot_position, spread_pairs, Position};
use crate::store::{lemma_materials_len, materials, occupancy};
use crate::tlas::{merge_layer, merge_level, Merge};
use crate::voxel_map::{Voxel, VoxelMap};
use std::collections::BTreeMap;
use vstd::arithmetic::power2::lemma2_to64;
use vstd::prelude::*;

verus! {

/// The chunk roots of one cluster: a population mask and, for each of the
/// 64 slots, the root that stands there.
#[derive(Clone, Copy)]
pub struct RenderClusterInfo {
    pub pop_mask: u64,
    pub chunk_roots: [Node; 64],
}

impl Default for RenderClusterInfo {
    fn default() -> (c: Self)
        ensures
            c.pop_mask == 0,
            forall|i: int| 0 <= i < 64 ==> #[trigger] c.chunk_roots@[i] == node_of(0, false, 0),
    {
        RenderClusterInfo { pop_mask: 0, chunk_roots: [Node::new_empty();64] }
    }
}

/// The part of a coordinate that a cluster key records: its low 20 bits,
/// the upper four of them all set for a negative coordinate.
pub open spec fn cluster_field(c: i32) -> u64 {
    if c < 0 {
        ((c & 0xFFFFi32) as u64) | 0xF_0000u64
    } else {
        (c & 0xF_FFFFi32) as u64
    }
}

/// The cluster key of a position: per level two bits of x, then two of z,
/// then two of y, over ten levels.
pub open spec fn cluster_key(pos: Position) -> u64 {
    spread_pairs(cluster_field(pos.x), 10) | (spread_pairs(cluster_field(pos.z), 10) << 2u64) | (
    spread_pairs(cluster_field(pos.y), 10) << 4u64)
}

fn spread_cluster_field(c: i32) -> (r: u64)
    ensures
        r == spread_pairs(cluster_field(c), 10),
{
    let v: u64 = if c < 0 {
        ((c & 0xFFFF) as u64) | 0xF_0000
    } else {
        (c & 0xF_FFFF) as u64
    };
    proof {
        assert(0 <= (c & 0xFFFFi32) <= 0xFFFF && 0 <= (c & 0xF_FFFFi32) <= 0xF_FFFF)
            by (bit_vector);
        let low: u64 = (c & 0xFFFFi32) as u64;
        assert(low <= 0xFFFFu64 ==> (low | 0xF_0000u64) <= 0xF_FFFFu64) by (bit_vector);
        reveal_with_fuel(spread_pairs, 11);
        assert(v <= 0xF_FFFFu64 ==> ({
            let a = (v | (v << 32u64)) & 0x000F_0000_0000_FFFFu64;
            let b = (a | (a << 16u64)) & 0x000F_0000_FF00_00FFu64;
            let c = (b | (b << 8u64)) & 0x000F_00F0_0F00_F00Fu64;
            (c | (c << 4u64)) & 0x00C3_0C30_C30C_30C3u64
        }) == (0u64 | (((v >> 0u64) & 3u64) << 0u64) | (((v >> 2u64) & 3u64) << 6u64) | (((v
            >> 4u64) & 3u64) << 12u64) | (((v >> 6u64) & 3u64) << 18u64) | (((v >> 8u64) & 3u64)
            << 24u64) | (((v >> 10u64) & 3u64) << 30u64) | (((v >> 12u64) & 3u64) << 36u64) | (((v
            >> 14u64) & 3u64) << 42u64) | (((v >> 16u64) & 3u64) << 48u64) | (((v >> 18u64) & 3u64)
            << 54u64))) by (bit_vector);
    }
    let a: u64 = (v | (v << 32)) & 0x000F_0000_0000_FFFF;
    let b: u64 = (a | (a << 16)) & 0x000F_0000_FF00_00FF;
    let c: u64 = (b | (b << 8)) & 0x000F_00F0_0F00_F00F;
    (c | (c << 4)) & 0x00C3_0C30_C30C_30C3
}

/// Interleaves the 20-bit fields of the coordinates into one key.
pub fn get_cluster_key(pos: Position) -> (key: u64)
    ensures
        key == cluster_key(pos),
{
    let x: u64 = spread_cluster_field(pos.x);
    let y: u64 = spread_cluster_field(pos.y);
    let z: u64 = spread_cluster_field(pos.z);
    x | (z << 2) | (y << 4)
}

/// The node that stands for a build's result: the node itself, or the
/// empty node where the cube holds no voxel.
pub open spec fn node_or_empty(root: Option<Node>) -> Node {
    match root {
        Some(node) => node,
        None => node_of(0, false, 0),
    }
}

/// Setting flag and pointer on the empty node gives the packed first word.
proof fn lemma_built_node(ptr: u32)
    ensures
        (1u32 & 3u32) | (ptr << 2u32) == (ptr << 2u32) | 1u32,
        (0u32 & 3u32) | (ptr << 2u32) == ptr << 2u32,
        0u32 | 1u32 == 1u32,
        0u32 << 2u32 == 0u32,
        0u64 & 0xFFFF_FFFFu64 == 0u64,
        0u64 >> 32u64 == 0u64,
{
    assert((1u32 & 3u32) | (ptr << 2u32) == (ptr << 2u32) | 1u32 && (0u32 & 3u32) | (ptr << 2u32)
        == ptr << 2u32 && 0u32 | 1u32 == 1u32 && 0u32 << 2u32 == 0u32 && 0u64 & 0xFFFF_FFFFu64
        == 0u64 && 0u64 >> 32u64 == 0u64) by (bit_vector);
}

/// Builds the tree of the cube of scale `scale` at `pos` from the voxels of
/// the map, onto the node pool and the leaf array, and returns its node, or
/// the empty node for a cube without a voxel.
pub fn build_chunk_tree(
    map: &VoxelMap,
    node_pool: &mut Vec<Node>,
    leaf_data: &mut Vec<u32>,
    scale: i32,
    pos: Position,
) -> (node: Node)
    requires
        cube_fits(pos, scale as int),
    ensures
        node == node_or_empty(
            chunk_tree(map.cells(), old(node_pool)@, old(leaf_data)@, scale as int, pos).root,
        ),
        final(node_pool)@ == chunk_tree(
            map.cells(),
            old(node_pool)@,
            old(leaf_data)@,
            scale as int,
            pos,
        ).nodes,
        final(leaf_data)@ == chunk_tree(
            map.cells(),
            old(node_pool)@,
            old(leaf_data)@,
            scale as int,
            pos,
        ).leaves,
        old(node_pool)@.is_prefix_of(final(node_pool)@),
        old(leaf_data)@.is_prefix_of(final(leaf_data)@),
        node.pop_mask() == 0 ==> final(node_pool)@ == old(node_pool)@ && final(leaf_data)@ == old(
            leaf_data,
        )@,
    decreases scale,
{
    let ghost nodes0 = node_pool@;
    let ghost leaves0 = leaf_data@;
    let ghost cells = map.cells();
    proof {
        lemma_chunk_tree_appends(cells, nodes0, leaves0, scale as int, pos);
        lemma_mask_halves(0);
        lemma_pack_word(0, false);
        lemma2_to64();
    }
    let mut node: Node = Node::new_empty();
    if scale == 2 {
        let mut mask: u64 = 0;
        let start_leaf_idx: usize = leaf_data.len();
        let mut i: u32 = 0;
        while i < 64
            invariant
                i <= 64,
                cube_fits(pos, 2),
                cells == map.cells(),
                mask == occupancy(cells(pos), i as nat),
                leaf_data@ == leaves0 + materials(cells(pos), i as nat),
            decreases 64 - i,
        {
            proof {
                lemma2_to64();
                assert(i < 64 ==> i & 3 == i % 4 && (i >> 2) & 3 == (i / 4) % 4 && (i >> 4) & 3 == (i
                    / 16) % 4) by (bit_vector);
            }
            let cx: i32 = (i & 3) as i32;
            let cy: i32 = ((i >> 4) & 3) as i32;
            let cz: i32 = ((i >> 2) & 3) as i32;
            let voxel_pos: Position = Position { x: pos.x + cx, y: pos.y + cy, z: pos.z + cz };
            assert(voxel_pos == slot_position(pos, i as int));
            let voxel: Voxel = map.get_voxel(voxel_pos);
            assert(cells(pos)[i as int] == voxel.0);
            if !voxel.is_empty() {
                mask |= 1u64 << (i as u64);
                leaf_data.push(voxel.0);
            }
            i += 1;
        }
        proof {
            lemma_materials_len(cells(pos), 64);
            lemma_count_bits_zero(64);
            if mask == 0 {
                assert(leaf_data@ =~= leaves0);
            }
        }
        node.set_pop_mask(mask);
        if mask != 0 {
            let ptr: u32 = pointer_to(start_leaf_idx);
            node.set_leaf(true);
            node.set_child_ptr(ptr);
            proof {
                lemma_built_node(ptr);
                lemma_node_fields(start_leaf_idx as nat, true, mask);
            }
        } else {
            proof {
                lemma_built_node(0);
            }
        }
        return node;
    }
    let next_scale: i32 = scale - 2;
    let mut children: Vec<Node> = Vec::new();
    let mut mask: u64 = 0;
    let mut i: u32 = 0;
    while i < 64
        invariant
            i <= 64,
            scale > 2,
            next_scale == scale - 2,
            cube_fits(pos, scale as int),
            cells == map.cells(),
            node == node_of(0, false, 0),
            node_pool@ == child_slots(cells, nodes0, leaves0, scale as int, pos, i as nat).nodes,
            leaf_data@ == child_slots(cells, nodes0, leaves0, scale as int, pos, i as nat).leaves,
            children@ == child_slots(cells, nodes0, leaves0, scale as int, pos, i as nat).children,
            mask == child_slots(cells, nodes0, leaves0, scale as int, pos, i as nat).mask,
        decreases 64 - i,
    {
        let child_pos: Position = child_position(pos, scale, i);
        proof {
            lemma_chunk_tree_appends(cells, node_pool@, leaf_data@, next_scale as int, child_pos);
            lemma_mask_halves(0);
            lemma_pack_word(0, false);
        }
        let child_node: Node = build_chunk_tree(map, node_pool, leaf_data, next_scale, child_pos);
        if child_node.get_pop_mask() != 0 || child_node.is_leaf() {
            mask |= 1u64 << (i as u64);
            children.push(child_node);
        }
        i += 1;
    }
    if mask != 0 {
        let ptr: u32 = pointer_to(node_pool.len());
        node.set_pop_mask(mask);
        node.set_child_ptr(ptr);
        node_pool.append(&mut children);
        proof {
            lemma_built_node(ptr);
        }
    }
    node
}

/// The roots of a cluster that its mask marks among the first `n` slots,
/// in slot order.
pub open spec fn present_roots(cluster: RenderClusterInfo, n: nat) -> Seq<Node>
    decreases n,
{
    if n == 0 || n > 64 {
        Seq::empty()
    } else if cluster.pop_mask & single_bit((n - 1) as nat) != 0 {
        present_roots(cluster, (n - 1) as nat).push(cluster.chunk_roots@[n - 1])
    } else {
        present_roots(cluster, (n - 1) as nat)
    }
}

/// The layer of the first `n` clusters: each cluster's marked roots are
/// appended to the pool, and a node that points at them and carries the
/// cluster's mask stands for it, keyed by the cluster's key moved up by one
/// chunk's 18 bits.
pub open spec fn cluster_layer(clusters: Seq<(u64, RenderClusterInfo)>, pool: Seq<Node>, n: nat) -> Merge
    decreases n,
{
    if n == 0 || n > clusters.len() {
        Merge { layer: Seq::empty(), pool }
    } else {
        let prev = cluster_layer(clusters, pool, (n - 1) as nat);
        let (key, cluster) = clusters[n - 1];
        Merge {
            layer: prev.layer.push(
                (key << 18u64, node_of(ptr_word(prev.pool.len()), false, cluster.pop_mask)),
            ),
            pool: prev.pool + present_roots(cluster, 64),
        }
    }
}

/// The merge from scale `scale` on, a level for each even scale below
/// `root_scale`.
pub open spec fn merge_below(
    layer: Seq<(u64, Node)>,
    pool: Seq<Node>,
    scale: int,
    root_scale: int,
) -> Merge
    decreases root_scale - scale + 2,
{
    if scale < root_scale {
        let m = merge_level(layer, pool, scale);
        merge_below(m.layer, m.pool, scale + 2, root_scale)
    } else {
        Merge { layer, pool }
    }
}

/// The root that the cluster merge returns: the first node of the last
/// layer, or the empty node where there is none.
pub open spec fn cluster_root(m: Merge) -> Node {
    if m.layer.len() == 0 {
        node_of(0, false, 0)
    } else {
        m.layer[0].1
    }
}

/// Whether `entries` holds the clusters of the map with their keys, each
/// once, in ascending key order.
pub open spec fn entries_of(
    entries: Seq<(u64, RenderClusterInfo)>,
    clusters: Map<u64, RenderClusterInfo>,
) -> bool {
    &&& entries.len() == clusters.dom().len()
    &&& forall|i: int|
        0 <= i < entries.len() ==> clusters.contains_key((#[trigger] entries[i]).0)
            && clusters[entries[i].0] == entries[i].1
    &&& forall|i: int, j: int|
        0 <= i < j < entries.len() ==> (#[trigger] entries[i]).0 < (#[trigger] entries[j]).0
}

/// Whether `root` and `pool` are what merging the clusters of `entries`,
/// in their order, onto `before` gives.
pub open spec fn merged_clusters(
    entries: Seq<(u64, RenderClusterInfo)>,
    before: Seq<Node>,
    root_scale: int,
    root: Node,
    pool: Seq<Node>,
) -> bool {
    let first = cluster_layer(entries, before, entries.len());
    let last = merge_below(first.layer, first.pool, 8, root_scale);
    root == cluster_root(last) && pool == last.pool
}

/// Merges the clusters of a map into one tree, in ascending key order: the
/// clusters' roots go to the pool behind one node per cluster, and these
/// nodes are merged level by level from scale 8 up to, not including,
/// `root_scale`. Returns the first node of the last layer, or the empty node
/// for a map without clusters.
pub fn build_tlas(
    clusters: &BTreeMap<u64, RenderClusterInfo>,
    node_pool: &mut Vec<Node>,
    root_scale: i32,
) -> (root: Node)
    requires
        root_scale <= 22,
    ensures
        exists|entries: Seq<(u64, RenderClusterInfo)>| #[trigger]
            entries_of(entries, clusters@) && merged_clusters(
                entries,
                old(node_pool)@,
                root_scale as int,
                root,
                final(node_pool)@,
            ),
{
    let entries: Vec<(u64, RenderClusterInfo)> = cluster_entries(clusters);
    let ghost before = node_pool@;
    let root: Node = merge_clusters(&entries, node_pool, root_scale);
    proof {
        assert(entries_of(entries@, clusters@));
        assert(merged_clusters(entries@, before, root_scale as int, root, node_pool@));
    }
    root
}

/// Merges clusters, given in ascending key order, into one tree, as
/// `build_tlas` does with the clusters of a map.
pub fn merge_clusters(
    clusters: &Vec<(u64, RenderClusterInfo)>,
    node_pool: &mut Vec<Node>,
    root_scale: i32,
) -> (root: Node)
    requires
        root_scale <= 22,
        forall|i: int, j: int|
            0 <= i < j < clusters@.len() ==> (#[trigger] clusters@[i]).0 < (#[trigger] clusters@[j]).0,
    ensures
        merged_clusters(clusters@, old(node_pool)@, root_scale as int, root, final(node_pool)@),
{
    let ghost pool0 = node_pool@;
    let mut layer_nodes: Vec<(u64, Node)> = Vec::new();
    let mut c: usize = 0;
    while c < clusters.len()
        invariant
            c <= clusters@.len(),
            layer_nodes@ == cluster_layer(clusters@, pool0, c as nat).layer,
            node_pool@ == cluster_layer(clusters@, pool0, c as nat).pool,
        decreases clusters@.len() - c,
    {
        let pos_key: u64 = clusters[c].0;
        let pop_mask: u64 = clusters[c].1.pop_mask;
        let start_ptr: u32 = pointer_to(node_pool.len());
        let ghost before = node_pool@;
        let mut i: usize = 0;
        while i < 64
            invariant
                i <= 64,
                c < clusters@.len(),
                pop_mask == clusters@[c as int].1.pop_mask,
                node_pool@ == before + present_roots(clusters@[c as int].1, i as nat),
            decreases 64 - i,
        {
            if (pop_mask & (1u64 << (i as u64))) != 0 {
                node_pool.push(clusters[c].1.chunk_roots[i]);
            }
            i += 1;
        }
        let mut node: Node = Node::new_empty();
        node.set_child_ptr(start_ptr);
        node.set_pop_mask(pop_mask);
        proof {
            lemma_built_node(start_ptr);
        }
        layer_nodes.push((pos_key << 18, node));
        c += 1;
    }
    let ghost first = cluster_layer(clusters@, pool0, clusters@.len());
    let mut scale: i32 = 8;
    while scale < root_scale
        invariant
            8 <= scale <= 22,
            scale % 2 == 0,
            root_scale <= 22,
            merge_below(layer_nodes@, node_pool@, scale as int, root_scale as int) == merge_below(
                first.layer,
                first.pool,
                8,
                root_scale as int,
            ),
        decreases root_scale - scale + 2,
    {
        let next_layer: Vec<(u64, Node)> = merge_layer(&layer_nodes, node_pool, scale);
        layer_nodes = next_layer;
        scale += 2;
    }
    if layer_nodes.len() == 0 {
        Node::new_empty()
    } else {
        layer_nodes[0].1
    }
}

} // verus!
