use crate::chunk::{build_chunk_tree, chunk_tree, cube_fits, in_cube, lemma_chunk_tree_appends, lemma_no_node_no_voxel, lemma_chunk_tree_ok, lemma_chunk_tree_shows, lemma_tree_ok_extends, lemma_tree_shows_extends, tree_ok, tree_shows};
use crate::config::{lemma_mask_halves, node_of, Node, MAX_CHILD_PTR};
use crate::bits::{bit_set, lemma_masks_equal, popcount};
use crate::chunk::lemma_node_fields;
use crate::key::{block_slot, get_morton_key, lemma_block_coordinate, lemma_key_block_slot, morton_key, Position};
use crate::scene::{grown_by_sphere, in_sphere};
use crate::store::{sector_entries, sector_keys, sector_map_is_empty, VoxelWorld};
use crate::tlas::{all_occupied, build_tlas, key_prefix, key_slot, lemma_cell_of_positions, lemma_merge_occupied, lemma_run_mask_bits, lemma_run_mask_count, lemma_run_mask_full, lemma_single_cell_merge, lemma_slot_order, slots_ascend, nodes_of, run_mask, tlas_pool, tlas_root};
use vstd::arithmetic::power2::lemma2_to64;
use vstd::prelude::*;

verus! {

/// The scale of one sector's chunk tree: a sector is 64 voxels wide.
pub const SECTOR_SCALE: i32 = 6;

/// The flat tree as the GPU reads it: the node pool, whose slot 0 is the
/// root, the leaf materials, the declared scale of the root, and a flag that
/// is raised when the buffers were rebuilt.
pub struct SvoStorage {
    pub nodes: Vec<Node>,
    pub leaf_data: Vec<u32>,
    pub tree_scale: u32,
    pub dirty: bool,
}

/// The storage as plain values.
pub struct SvoView {
    pub nodes: Seq<Node>,
    pub leaf_data: Seq<u32>,
    pub tree_scale: u32,
    pub dirty: bool,
}

impl View for SvoStorage {
    type V = SvoView;

    open spec fn view(&self) -> SvoView {
        SvoView {
            nodes: self.nodes@,
            leaf_data: self.leaf_data@,
            tree_scale: self.tree_scale,
            dirty: self.dirty,
        }
    }
}

impl Default for SvoStorage {
    fn default() -> (s: Self)
        ensures
            s.nodes@.len() == 0,
            s.leaf_data@.len() == 0,
            s.tree_scale == 0,
            !s.dirty,
    {
        SvoStorage { nodes: Vec::new(), leaf_data: Vec::new(), tree_scale: 0, dirty: false }
    }
}

/// Whether a sector coordinate is small enough for the sector's voxel
/// coordinates to fit the coordinate type.
pub open spec fn sector_in_range(k: (i32, i32, i32)) -> bool {
    &&& -0x200_0000 <= k.0 < 0x200_0000
    &&& -0x200_0000 <= k.1 < 0x200_0000
    &&& -0x200_0000 <= k.2 < 0x200_0000
}

/// The voxel position of a sector's origin.
pub open spec fn sector_origin(k: (i32, i32, i32)) -> Position {
    Position { x: (k.0 * 64) as i32, y: (k.1 * 64) as i32, z: (k.2 * 64) as i32 }
}

/// The spatial key of a sector: the key of its origin, in voxels, so that
/// the key's bits from bit 18 on tell the sector's place among the sectors.
pub open spec fn sector_key(k: (i32, i32, i32)) -> u64 {
    morton_key(sector_origin(k))
}

/// Whether two sectors lie in one cell of the first merge scale, which is
/// four sectors wide: their coordinates agree above the low two bits.
pub open spec fn same_cell(a: (i32, i32, i32), b: (i32, i32, i32)) -> bool {
    a.0 >> 2u32 == b.0 >> 2u32 && a.1 >> 2u32 == b.1 >> 2u32 && a.2 >> 2u32 == b.2 >> 2u32
}

/// Whether all sectors of a walk lie in one cell of the first merge scale.
pub open spec fn one_cell(order: Seq<(i32, i32, i32)>) -> bool {
    forall|i: int, j: int|
        0 <= i < order.len() && 0 <= j < order.len() ==> same_cell(
            #[trigger] order[i],
            #[trigger] order[j],
        )
}

/// The origin coordinate of a sector coordinate in range is a multiple of
/// 64 that carries the sector coordinate from bit 6 on.
pub proof fn lemma_origin_bits(a: i32)
    requires
        -0x200_0000 <= a < 0x200_0000,
    ensures
        ((a * 64) as i32) & 3i32 == 0,
        ((a * 64) as i32) & 63i32 == 0,
        ((a * 64) as i32) >> 8u32 == a >> 2u32,
{
    assert(-0x200_0000 <= a && a < 0x200_0000 ==> ((a * 64) as i32) & 3i32 == 0 && ((a * 64) as i32)
        & 63i32 == 0 && ((a * 64) as i32) >> 8u32 == a >> 2u32) by (bit_vector);
}

/// Sectors of one cell have keys in one cell of the first merge scale, and
/// two different ones take different slots in it.
pub proof fn lemma_sector_slots(a: (i32, i32, i32), b: (i32, i32, i32))
    requires
        sector_in_range(a),
        sector_in_range(b),
        same_cell(a, b),
    ensures
        key_prefix(sector_key(a), 8) == key_prefix(sector_key(b), 8),
        a != b ==> key_slot(sector_key(a), 8) != key_slot(sector_key(b), 8),
{
    let (oa, ob) = (sector_origin(a), sector_origin(b));
    lemma_origin_bits(a.0);
    lemma_origin_bits(a.1);
    lemma_origin_bits(a.2);
    lemma_origin_bits(b.0);
    lemma_origin_bits(b.1);
    lemma_origin_bits(b.2);
    lemma_cell_of_positions(oa, ob, 8);
    lemma_key_block_slot(oa);
    lemma_key_block_slot(ob);
    if key_slot(sector_key(a), 8) == key_slot(sector_key(b), 8) {
        assert(block_slot(oa) == block_slot(ob));
        lemma_block_coordinate(oa.x, ob.x);
        lemma_block_coordinate(oa.y, ob.y);
        lemma_block_coordinate(oa.z, ob.z);
    }
}

/// The merge's root scale for a declared tree scale. A declared scale
/// beyond the signed range lies below every merge scale.
pub open spec fn root_scale_of(tree_scale: u32) -> int {
    if tree_scale <= 0x7FFF_FFFF {
        tree_scale as int
    } else {
        -1
    }
}

/// The chunk trees of the first sectors of a walk: the pool and leaf array
/// after building them in order behind the reserved root slot, and the
/// keyed roots of the sectors that hold a voxel.
pub struct ChunkScan {
    pub nodes: Seq<Node>,
    pub leaves: Seq<u32>,
    pub roots: Seq<(u64, Node)>,
}

/// The chunk trees of the first `n` sectors of `order`.
pub open spec fn chunk_scan(world: VoxelWorld, order: Seq<(i32, i32, i32)>, n: nat) -> ChunkScan
    decreases n,
{
    if n == 0 || n > order.len() {
        ChunkScan { nodes: seq![node_of(0, false, 0)], leaves: Seq::empty(), roots: Seq::empty() }
    } else {
        let prev = chunk_scan(world, order, (n - 1) as nat);
        let k = order[n - 1];
        let b = chunk_tree(world.cells(), prev.nodes, prev.leaves, 6, sector_origin(k));
        ChunkScan {
            nodes: b.nodes,
            leaves: b.leaves,
            roots: match b.root {
                Some(root) => prev.roots.push((sector_key(k), root)),
                None => prev.roots,
            },
        }
    }
}

/// Every chunk root of a walk is the root of a well-formed tree of a
/// sector's scale in the pool and leaf array as they stand after the walk,
/// as long as both are short enough for their indices to fit a pointer.
pub proof fn lemma_chunk_scan_ok(world: VoxelWorld, order: Seq<(i32, i32, i32)>, n: nat)
    requires
        n <= order.len(),
        chunk_scan(world, order, n).nodes.len() <= MAX_CHILD_PTR,
        chunk_scan(world, order, n).leaves.len() <= MAX_CHILD_PTR,
    ensures
        ({
            let scan = chunk_scan(world, order, n);
            forall|i: int|
                0 <= i < scan.roots.len() ==> tree_ok(
                    scan.nodes,
                    scan.leaves,
                    (#[trigger] scan.roots[i]).1,
                    6,
                )
        }),
    decreases n,
{
    if n > 0 {
        let prev = chunk_scan(world, order, (n - 1) as nat);
        let origin = sector_origin(order[n - 1]);
        let scan = chunk_scan(world, order, n);
        lemma_chunk_tree_appends(world.cells(), prev.nodes, prev.leaves, 6, origin);
        lemma_chunk_scan_ok(world, order, (n - 1) as nat);
        lemma_chunk_tree_ok(world.cells(), prev.nodes, prev.leaves, 6, origin);
        assert forall|i: int| 0 <= i < scan.roots.len() implies tree_ok(
            scan.nodes,
            scan.leaves,
            (#[trigger] scan.roots[i]).1,
            6,
        ) by {
            if i < prev.roots.len() {
                assert(scan.roots[i] == prev.roots[i]);
                lemma_tree_ok_extends(
                    prev.nodes,
                    prev.leaves,
                    scan.nodes,
                    scan.leaves,
                    prev.roots[i].1,
                    6,
                );
            }
        }
    }
}

/// A walk's chunk roots only grow in number as the walk goes on.
pub proof fn lemma_chunk_scan_grows(world: VoxelWorld, order: Seq<(i32, i32, i32)>, m: nat, n: nat)
    requires
        m <= n <= order.len(),
    ensures
        chunk_scan(world, order, m).roots.len() <= chunk_scan(world, order, n).roots.len(),
    decreases n - m,
{
    if m < n {
        lemma_chunk_scan_grows(world, order, m, (n - 1) as nat);
    }
}

/// A walk that comes by a sector with a voxel ends with a chunk root: the
/// rebuilt tree is not empty.
pub proof fn lemma_voxel_gives_root(
    world: VoxelWorld,
    order: Seq<(i32, i32, i32)>,
    i: int,
    p: Position,
)
    requires
        0 <= i < order.len(),
        sector_in_range(order[i]),
        in_cube(p, sector_origin(order[i]), 6),
        world.voxel_at(p) != 0,
    ensures
        chunk_scan(world, order, order.len()).roots.len() > 0,
{
    let k = order[i];
    let origin = sector_origin(k);
    let prev = chunk_scan(world, order, i as nat);
    lemma2_to64();
    lemma_origin_bits(k.0);
    lemma_origin_bits(k.1);
    lemma_origin_bits(k.2);
    assert(cube_fits(origin, 6));
    if chunk_tree(world.cells(), prev.nodes, prev.leaves, 6, origin).root is None {
        lemma_no_node_no_voxel(world, prev.nodes, prev.leaves, 6, origin, p);
    }
    lemma_chunk_scan_grows(world, order, (i + 1) as nat, order.len());
}

/// Whether `entry` is the keyed chunk root of one of the first `n` sectors
/// of the walk and shows that sector's cube in the pool and leaf array.
pub open spec fn root_shows(
    world: VoxelWorld,
    order: Seq<(i32, i32, i32)>,
    n: nat,
    entry: (u64, Node),
    nodes: Seq<Node>,
    leaves: Seq<u32>,
) -> bool {
    exists|idx: int|
        0 <= idx < n && entry.0 == sector_key(#[trigger] order[idx]) && tree_shows(
            world.cells(),
            nodes,
            leaves,
            entry.1,
            6,
            sector_origin(order[idx]),
        )
}

/// Every chunk root of a walk shows the cube of the sector that it is
/// keyed by, in the pool and leaf array as they stand after the walk, as
/// long as both are short enough for their indices to fit a pointer.
pub proof fn lemma_chunk_scan_shows(world: VoxelWorld, order: Seq<(i32, i32, i32)>, n: nat)
    requires
        n <= order.len(),
        chunk_scan(world, order, n).nodes.len() <= MAX_CHILD_PTR,
        chunk_scan(world, order, n).leaves.len() <= MAX_CHILD_PTR,
    ensures
        ({
            let scan = chunk_scan(world, order, n);
            forall|i: int|
                0 <= i < scan.roots.len() ==> root_shows(
                    world,
                    order,
                    n,
                    #[trigger] scan.roots[i],
                    scan.nodes,
                    scan.leaves,
                )
        }),
    decreases n,
{
    if n > 0 {
        let prev = chunk_scan(world, order, (n - 1) as nat);
        let origin = sector_origin(order[n - 1]);
        let scan = chunk_scan(world, order, n);
        lemma_chunk_tree_appends(world.cells(), prev.nodes, prev.leaves, 6, origin);
        lemma_chunk_scan_shows(world, order, (n - 1) as nat);
        lemma_chunk_tree_shows(world.cells(), prev.nodes, prev.leaves, 6, origin);
        assert forall|i: int| 0 <= i < scan.roots.len() implies root_shows(
            world,
            order,
            n,
            #[trigger] scan.roots[i],
            scan.nodes,
            scan.leaves,
        ) by {
            if i < prev.roots.len() {
                let entry = prev.roots[i];
                assert(scan.roots[i] == entry);
                assert(root_shows(world, order, (n - 1) as nat, entry, prev.nodes, prev.leaves));
                let idx = choose|idx: int|
                    0 <= idx < n - 1 && entry.0 == sector_key(#[trigger] order[idx]) && tree_shows(
                        world.cells(),
                        prev.nodes,
                        prev.leaves,
                        entry.1,
                        6,
                        sector_origin(order[idx]),
                    );
                lemma_tree_shows_extends(
                    world.cells(),
                    prev.nodes,
                    prev.leaves,
                    scan.nodes,
                    scan.leaves,
                    entry.1,
                    6,
                    sector_origin(order[idx]),
                );
                assert(0 <= idx < n && entry.0 == sector_key(order[idx]));
            } else {
                assert(scan.roots[i].0 == sector_key(order[n - 1]));
            }
        }
    }
}

/// Whether `key` is the key of one of the first `n` sectors of the walk.
pub open spec fn keyed_by(key: u64, order: Seq<(i32, i32, i32)>, n: nat) -> bool {
    exists|idx: int| 0 <= idx < n && key == sector_key(#[trigger] order[idx])
}

/// The chunk roots of a walk that stays in one cell and comes by no sector
/// twice carry keys of the walk's sectors, all in one cell of the first
/// merge scale, and take pairwise different slots in it.
pub proof fn lemma_scan_roots(world: VoxelWorld, order: Seq<(i32, i32, i32)>, n: nat)
    requires
        n <= order.len(),
        order.no_duplicates(),
        one_cell(order),
        forall|i: int| 0 <= i < order.len() ==> sector_in_range(#[trigger] order[i]),
    ensures
        ({
            let roots = chunk_scan(world, order, n).roots;
            &&& chunk_scan(world, order, n).nodes.len() > 0
            &&& forall|i: int| 0 <= i < roots.len() ==> keyed_by((#[trigger] roots[i]).0, order, n)
            &&& forall|i: int|
                0 <= i < roots.len() ==> key_prefix((#[trigger] roots[i]).0, 8) == key_prefix(
                    sector_key(order[0]),
                    8,
                )
            &&& forall|i: int, j: int|
                0 <= i < j < roots.len() ==> key_slot((#[trigger] roots[i]).0, 8) != key_slot(
                    (#[trigger] roots[j]).0,
                    8,
                )
        }),
    decreases n,
{
    if n > 0 {
        let prev = chunk_scan(world, order, (n - 1) as nat);
        let k = order[n - 1];
        let roots = chunk_scan(world, order, n).roots;
        lemma_scan_roots(world, order, (n - 1) as nat);
        lemma_chunk_tree_appends(world.cells(), prev.nodes, prev.leaves, 6, sector_origin(k));
        lemma_sector_slots(k, order[0]);
        assert forall|i: int| 0 <= i < roots.len() implies keyed_by(
            (#[trigger] roots[i]).0,
            order,
            n,
        ) by {
            if i < prev.roots.len() {
                assert(roots[i] == prev.roots[i]);
                assert(keyed_by(prev.roots[i].0, order, (n - 1) as nat));
                let idx = choose|idx: int|
                    0 <= idx < n - 1 && prev.roots[i].0 == sector_key(#[trigger] order[idx]);
                assert(0 <= idx < n && roots[i].0 == sector_key(order[idx]));
            } else {
                assert(roots[i].0 == sector_key(order[n - 1]));
            }
        }
        assert forall|i: int, j: int| 0 <= i < j < roots.len() implies key_slot(
            (#[trigger] roots[i]).0,
            8,
        ) != key_slot((#[trigger] roots[j]).0, 8) by {
            assert(roots[i] == prev.roots[i]);
            if j < prev.roots.len() {
                assert(roots[j] == prev.roots[j]);
            } else {
                assert(keyed_by(prev.roots[i].0, order, (n - 1) as nat));
                let idx = choose|idx: int|
                    0 <= idx < n - 1 && prev.roots[i].0 == sector_key(#[trigger] order[idx]);
                assert(order[idx] != order[n - 1]);
                lemma_sector_slots(order[idx], k);
            }
        }
        assert forall|i: int| 0 <= i < roots.len() implies key_prefix(
            (#[trigger] roots[i]).0,
            8,
        ) == key_prefix(sector_key(order[0]), 8) by {
            if i < prev.roots.len() {
                assert(roots[i] == prev.roots[i]);
            }
        }
    }
}

/// Whether `sorted` holds the entries of `given` in ascending key order,
/// entries of one key in the order in which `given` has them.
pub open spec fn sorted_form(sorted: Seq<(u64, Node)>, given: Seq<(u64, Node)>) -> bool {
    &&& sorted.len() == given.len()
    &&& sorted.to_multiset() == given.to_multiset()
    &&& forall|i: int, j: int| 0 <= i < j < sorted.len() ==> sorted[i].0 <= sorted[j].0
    &&& forall|k: u64| #[trigger] roots_with_key(sorted, k) == roots_with_key(given, k)
}

/// Whether the walk's sectors lie in one cell, none twice, with a chunk
/// root among them, and the declared scale has the merge build exactly the
/// level of that cell.
pub open spec fn merges_one_cell(world: VoxelWorld, order: Seq<(i32, i32, i32)>, tree_scale: u32) -> bool {
    let count = chunk_scan(world, order, order.len()).roots.len();
    &&& order.no_duplicates()
    &&& one_cell(order)
    &&& count > 0
    &&& tree_scale == 8 || (tree_scale < 8 && count > 1)
}

/// What the rebuilt buffers show of the walk they were built over. Slot 0
/// has a bit set exactly when a sector of the walk gave a chunk root. With
/// a chunk root, the roots were merged in sorted form, slot 0 is no leaf,
/// the pool holds a node besides it and the leaf array a material. Where
/// the walk's sectors lie in one cell and the merge builds that cell's
/// level only, slot 0 has one bit per chunk root, and the chunk roots stand
/// at the end of the pool in ascending slot order.
pub open spec fn shows_walk(
    world: VoxelWorld,
    order: Seq<(i32, i32, i32)>,
    tree_scale: u32,
    nodes: Seq<Node>,
    leaf_data: Seq<u32>,
) -> bool {
    let roots = chunk_scan(world, order, order.len()).roots;
    &&& nodes.len() > 0
    &&& (nodes[0].pop_mask() != 0) == (roots.len() > 0)
    &&& roots.len() > 0 ==> {
        &&& sorted_form(sorted_roots(roots), roots)
        &&& !nodes[0].leaf()
        &&& nodes.len() >= 2
        &&& leaf_data.len() > 0
    }
    &&& merges_one_cell(world, order, tree_scale) ==> {
        &&& popcount(nodes[0].pop_mask()) == roots.len()
        &&& nodes[0].pop_mask() == run_mask(roots, 8, 0, roots.len() as int)
        &&& slots_ascend(sorted_roots(roots))
        &&& nodes == (chunk_scan(world, order, order.len()).nodes + nodes_of(
            sorted_roots(roots),
        )).update(0, nodes[0])
        &&& chunk_scan(world, order, order.len()).nodes.len() <= MAX_CHILD_PTR
            ==> nodes[0].child_ptr() == chunk_scan(world, order, order.len()).nodes.len()
    }
}

/// A rebuild over sectors of one cell gives a root whose mask has one bit
/// per chunk root, each at the slot of its sector, and which points at the
/// chunk roots, appended to the pool in key order.
pub proof fn lemma_one_cell_root(world: VoxelWorld, order: Seq<(i32, i32, i32)>, tree_scale: u32)
    requires
        forall|i: int| 0 <= i < order.len() ==> sector_in_range(#[trigger] order[i]),
        merges_one_cell(world, order, tree_scale),
        sorted_form(
            sorted_roots(chunk_scan(world, order, order.len()).roots),
            chunk_scan(world, order, order.len()).roots,
        ),
    ensures
        ({
            let scan = chunk_scan(world, order, order.len());
            let root = svo_nodes(world, order, tree_scale)[0];
            &&& popcount(root.pop_mask()) == scan.roots.len()
            &&& root.pop_mask() == run_mask(scan.roots, 8, 0, scan.roots.len() as int)
            &&& !root.leaf()
            &&& scan.nodes.len() <= MAX_CHILD_PTR ==> root.child_ptr() == scan.nodes.len()
            &&& svo_nodes(world, order, tree_scale) == (scan.nodes + nodes_of(
                sorted_roots(scan.roots),
            )).update(0, root)
            &&& slots_ascend(sorted_roots(scan.roots))
        }),
{
    let scan = chunk_scan(world, order, order.len());
    let roots = scan.roots;
    let sorted = sorted_roots(roots);
    let n = roots.len() as int;
    lemma_scan_roots(world, order, order.len());
    sorted.to_multiset_ensures();
    roots.to_multiset_ensures();
    assert forall|j: int| 0 <= j < sorted.len() implies #[trigger] key_prefix(sorted[j].0, 8)
        == key_prefix(sector_key(order[0]), 8) by {
        assert(sorted.contains(sorted[j]));
        assert(sorted.to_multiset().count(sorted[j]) > 0);
        assert(roots.to_multiset().count(sorted[j]) > 0);
        assert(roots.contains(sorted[j]));
    }
    lemma_single_cell_merge(sorted, scan.nodes, root_scale_of(tree_scale));
    let sorted_mask = run_mask(sorted, 8, 0, n);
    let mask = run_mask(roots, 8, 0, n);
    assert forall|k: nat| k < 64 implies bit_set(sorted_mask, k) == bit_set(mask, k) by {
        lemma_run_mask_bits(sorted, 8, 0, n, k);
        lemma_run_mask_bits(roots, 8, 0, n, k);
        if bit_set(sorted_mask, k) {
            let j = choose|j: int| 0 <= j < n && #[trigger] key_slot(sorted[j].0, 8) == k;
            assert(sorted.contains(sorted[j]));
            assert(sorted.to_multiset().count(sorted[j]) > 0);
            assert(roots.to_multiset().count(sorted[j]) > 0);
            assert(roots.contains(sorted[j]));
            let i = choose|i: int| 0 <= i < roots.len() && roots[i] == sorted[j];
            assert(0 <= i < n && key_slot(roots[i].0, 8) == k);
        }
        if bit_set(mask, k) {
            let j = choose|j: int| 0 <= j < n && #[trigger] key_slot(roots[j].0, 8) == k;
            assert(roots.contains(roots[j]));
            assert(roots.to_multiset().count(roots[j]) > 0);
            assert(sorted.to_multiset().count(roots[j]) > 0);
            assert(sorted.contains(roots[j]));
            let i = choose|i: int| 0 <= i < sorted.len() && sorted[i] == roots[j];
            assert(0 <= i < n && key_slot(sorted[i].0, 8) == k);
        }
    }
    lemma_masks_equal(sorted_mask, mask);
    lemma_run_mask_count(roots, 8, 0, n);
    lemma_node_fields(scan.nodes.len(), false, sorted_mask);
    lemma_run_mask_full(sorted, 8, 0, n);
    assert forall|i: int, j: int| 0 <= i < j < sorted.len() implies key_slot(
        (#[trigger] sorted[i]).0,
        8,
    ) < key_slot((#[trigger] sorted[j]).0, 8) by {
        lemma_slot_order(sorted[i].0, sorted[j].0);
    }
}

/// The chunk roots in ascending key order, roots of equal keys in the order
/// in which they were given: what the standard library's stable sort by key
/// makes of them.
pub uninterp spec fn sorted_roots(roots: Seq<(u64, Node)>) -> Seq<(u64, Node)>;

/// The node pool that a rebuild over the sectors of `order` gives.
pub open spec fn svo_nodes(world: VoxelWorld, order: Seq<(i32, i32, i32)>, tree_scale: u32) -> Seq<
    Node,
> {
    let scan = chunk_scan(world, order, order.len());
    installed_nodes(scan.nodes, scan.roots, tree_scale)
}

/// The leaf array that a rebuild over the sectors of `order` gives.
pub open spec fn svo_leaves(world: VoxelWorld, order: Seq<(i32, i32, i32)>) -> Seq<u32> {
    chunk_scan(world, order, order.len()).leaves
}

/// The storage after a rebuild over the sectors of `order`: new buffers,
/// the declared scale and the dirty flag as before.
pub open spec fn rebuilt(world: VoxelWorld, order: Seq<(i32, i32, i32)>, before: SvoView) -> SvoView {
    SvoView {
        nodes: svo_nodes(world, order, before.tree_scale),
        leaf_data: svo_leaves(world, order),
        tree_scale: before.tree_scale,
        dirty: before.dirty,
    }
}

/// Rebuilding over the same walk of an unchanged world gives the same
/// buffers, whatever the storage held before: a second rebuild changes
/// nothing, and two storages of one declared scale end with equal buffers.
pub proof fn lemma_rebuild_idempotent(
    world: VoxelWorld,
    order: Seq<(i32, i32, i32)>,
    first: SvoView,
    second: SvoView,
)
    ensures
        rebuilt(world, order, rebuilt(world, order, first)) == rebuilt(world, order, first),
        first.tree_scale == second.tree_scale ==> rebuilt(world, order, first).nodes == rebuilt(
            world,
            order,
            second,
        ).nodes,
        rebuilt(world, order, first).leaf_data == rebuilt(world, order, second).leaf_data,
{
}

/// The pool after the chunk roots were sorted, merged and the merge's root
/// written to slot 0. Without a chunk root the pool stays as it is.
pub open spec fn installed_nodes(nodes: Seq<Node>, roots: Seq<(u64, Node)>, tree_scale: u32) -> Seq<
    Node,
> {
    if roots.len() == 0 {
        nodes
    } else {
        merged_nodes(nodes, sorted_roots(roots), tree_scale)
    }
}

/// The pool after sorted chunk roots were merged and the merge's root
/// written to slot 0.
pub open spec fn merged_nodes(nodes: Seq<Node>, sorted: Seq<(u64, Node)>, tree_scale: u32) -> Seq<
    Node,
> {
    tlas_pool(sorted, nodes, root_scale_of(tree_scale)).update(
        0,
        tlas_root(sorted, nodes, root_scale_of(tree_scale)),
    )
}

/// The roots that carry the key `k`, in the order in which they stand.
pub open spec fn roots_with_key(roots: Seq<(u64, Node)>, k: u64) -> Seq<(u64, Node)> {
    roots.filter(|e: (u64, Node)| e.0 == k)
}

/// `sort_by_key` of the standard library's slices, by the key of each
/// entry: afterwards the entries are in ascending key order, they are the
/// entries given, and for each key those that carry it stand in the order
/// in which they were given.
#[verifier::external_body]
fn sort_roots(roots: &mut Vec<(u64, Node)>)
    ensures
        final(roots)@ == sorted_roots(old(roots)@),
        final(roots)@.len() == old(roots)@.len(),
        final(roots)@.to_multiset() == old(roots)@.to_multiset(),
        forall|i: int, j: int|
            0 <= i < j < final(roots)@.len() ==> final(roots)@[i].0 <= final(roots)@[j].0,
        forall|k: u64| #[trigger] roots_with_key(final(roots)@, k) == roots_with_key(old(roots)@, k),
{
    roots.sort_by_key(|k| k.0);
}

/// Merges sorted chunk roots onto the pool and writes the merge's root to
/// slot 0.
pub fn install_root(storage: &mut SvoStorage, sorted: Vec<(u64, Node)>)
    requires
        old(storage).nodes@.len() > 0,
    ensures
        final(storage).nodes@ == merged_nodes(old(storage).nodes@, sorted@, old(storage).tree_scale),
        final(storage).nodes@.len() >= old(storage).nodes@.len(),
        final(storage).nodes@[0] == tlas_root(
            sorted@,
            old(storage).nodes@,
            root_scale_of(old(storage).tree_scale),
        ),
        final(storage).leaf_data@ == old(storage).leaf_data@,
        final(storage).tree_scale == old(storage).tree_scale,
        final(storage).dirty == old(storage).dirty,
{
    let root_scale: i32 = if storage.tree_scale <= 0x7FFF_FFFF {
        storage.tree_scale as i32
    } else {
        -1
    };
    let global_root: Node = build_tlas(sorted, &mut storage.nodes, root_scale);
    storage.nodes[0] = global_root;
}

impl VoxelWorld {
    /// Whether every sector coordinate of the world is in range.
    pub open spec fn in_range(&self) -> bool {
        forall|k: (i32, i32, i32)| #[trigger]
            sector_entries(self.sectors).contains_key(k) ==> sector_in_range(k)
    }

    /// Rebuilds the storage from the sectors of `order`, in that order: the
    /// pool and the leaf array are emptied, slot 0 is reserved, each
    /// sector's chunk tree is built, and the roots of the sectors that hold
    /// a voxel are sorted by key, merged and installed as the root. What the
    /// storage held before has no part in the result.
    pub fn rebuild_in_order(&self, storage: &mut SvoStorage, order: &Vec<(i32, i32, i32)>)
        requires
            forall|i: int| 0 <= i < order@.len() ==> sector_in_range(#[trigger] order@[i]),
        ensures
            final(storage)@ == rebuilt(*self, order@, old(storage)@),
            shows_walk(
                *self,
                order@,
                old(storage).tree_scale,
                final(storage).nodes@,
                final(storage).leaf_data@,
            ),
    {
        storage.nodes.clear();
        storage.leaf_data.clear();
        storage.nodes.push(Node::new_empty());
        let mut chunk_roots: Vec<(u64, Node)> = Vec::new();
        let mut i: usize = 0;
        while i < order.len()
            invariant
                i <= order@.len(),
                forall|j: int| 0 <= j < order@.len() ==> sector_in_range(#[trigger] order@[j]),
                storage.nodes@ == chunk_scan(*self, order@, i as nat).nodes,
                storage.leaf_data@ == chunk_scan(*self, order@, i as nat).leaves,
                chunk_roots@ == chunk_scan(*self, order@, i as nat).roots,
                storage.nodes@.len() > 0,
                storage.nodes@[0] == node_of(0, false, 0),
                all_occupied(chunk_roots@),
                chunk_roots@.len() > 0 ==> storage.nodes@.len() >= 2 && storage.leaf_data@.len() > 0,
                storage.tree_scale == old(storage).tree_scale,
                storage.dirty == old(storage).dirty,
            decreases order@.len() - i,
        {
            let k: (i32, i32, i32) = order[i];
            assert(sector_in_range(order@[i as int]));
            let origin: Position = Position { x: k.0 * 64, y: k.1 * 64, z: k.2 * 64 };
            proof {
                lemma2_to64();
                assert(cube_fits(origin, 6));
                lemma_chunk_tree_appends(self.cells(), storage.nodes@, storage.leaf_data@, 6, origin);
            }
            match build_chunk_tree(
                self,
                &mut storage.nodes,
                &mut storage.leaf_data,
                SECTOR_SCALE,
                origin,
            ) {
                Some(root) => {
                    let morton_key: u64 = get_morton_key(origin);
                    chunk_roots.push((morton_key, root));
                },
                None => {},
            }
            i += 1;
        }
        proof {
            lemma_mask_halves(0);
        }
        if chunk_roots.len() == 0 {
            return;
        }
        let ghost unsorted = chunk_roots@;
        sort_roots(&mut chunk_roots);
        proof {
            let sorted = chunk_roots@;
            assert(sorted_form(sorted, unsorted));
            assert forall|i: int| 0 <= i < sorted.len() implies (#[trigger] sorted[i]).1.pop_mask()
                != 0 && !sorted[i].1.leaf() by {
                sorted.to_multiset_ensures();
                unsorted.to_multiset_ensures();
                assert(sorted.contains(sorted[i]));
                assert(sorted.to_multiset().count(sorted[i]) > 0);
                assert(unsorted.to_multiset().count(sorted[i]) > 0);
                assert(unsorted.contains(sorted[i]));
            }
            lemma_merge_occupied(sorted, storage.nodes@, 8, root_scale_of(storage.tree_scale));
            if merges_one_cell(*self, order@, storage.tree_scale) {
                lemma_one_cell_root(*self, order@, storage.tree_scale);
            }
        }
        install_root(storage, chunk_roots);
    }

    /// Rebuilds the storage from every sector of the world, in the order in
    /// which the sector map is walked.
    pub fn generate_svo(&self, storage: &mut SvoStorage)
        requires
            self.in_range(),
        ensures
            exists|order: Seq<(i32, i32, i32)>|
                {
                    &&& order.no_duplicates()
                    &&& forall|k: (i32, i32, i32)|
                        order.contains(k) <==> sector_entries(self.sectors).contains_key(k)
                    &&& final(storage)@ == #[trigger] rebuilt(*self, order, old(storage)@)
                    &&& shows_walk(
                        *self,
                        order,
                        old(storage).tree_scale,
                        final(storage).nodes@,
                        final(storage).leaf_data@,
                    )
                },
            final(storage).nodes@.len() > 0,
    {
        let order: Vec<(i32, i32, i32)> = sector_keys(&self.sectors);
        proof {
            assert forall|i: int| 0 <= i < order@.len() implies sector_in_range(
                #[trigger] order@[i],
            ) by {
                assert(order@.contains(order@[i]));
            }
        }
        self.rebuild_in_order(storage, &order);
    }

    /// Whether every sector coordinate of the world is in range.
    pub fn sectors_in_range(&self) -> (r: bool)
        ensures
            r == self.in_range(),
    {
        let order: Vec<(i32, i32, i32)> = sector_keys(&self.sectors);
        let mut i: usize = 0;
        while i < order.len()
            invariant
                i <= order@.len(),
                forall|j: int| 0 <= j < i ==> sector_in_range(#[trigger] order@[j]),
                forall|k: (i32, i32, i32)|
                    #![trigger order@.contains(k)]
                    #![trigger sector_entries(self.sectors).contains_key(k)]
                    order@.contains(k) <==> sector_entries(self.sectors).contains_key(k),
            decreases order@.len() - i,
        {
            let k: (i32, i32, i32) = order[i];
            if !(-0x200_0000 <= k.0 && k.0 < 0x200_0000 && -0x200_0000 <= k.1 && k.1 < 0x200_0000
                && -0x200_0000 <= k.2 && k.2 < 0x200_0000) {
                proof {
                    assert(order@[i as int] == k);
                    assert(order@.contains(k));
                    assert(sector_entries(self.sectors).contains_key(k));
                    assert(!sector_in_range(k));
                }
                return false;
            }
            i += 1;
        }
        proof {
            assert forall|k: (i32, i32, i32)| #[trigger]
                sector_entries(self.sectors).contains_key(k) implies sector_in_range(k) by {
                assert(order@.contains(k));
                let j = choose|j: int| 0 <= j < order@.len() && order@[j] == k;
                assert(sector_in_range(order@[j]));
            }
        }
        true
    }
}

/// A world in range stays in range when the sphere is spawned into it, so
/// it can be rebuilt from.
pub proof fn lemma_sphere_keeps_range(before: VoxelWorld, world: VoxelWorld)
    requires
        before.in_range(),
        grown_by_sphere(before, world),
    ensures
        world.in_range(),
{
    assert forall|k: (i32, i32, i32)| #[trigger]
        sector_entries(world.sectors).contains_key(k) implies sector_in_range(k) by {
        if sector_entries(before.sectors).contains_key(k) {
            assert(sector_in_range(k));
        }
    }
}

/// A walk that comes by the sector at the origin of a world with the sphere
/// in it ends with a chunk root, so the rebuilt buffers show a tree: slot 0
/// has a bit set and is no leaf, and the pool and the leaf array hold more.
pub proof fn lemma_sphere_gives_root(world: VoxelWorld, order: Seq<(i32, i32, i32)>, i: int)
    requires
        0 <= i < order.len(),
        order[i] == (0i32, 0i32, 0i32),
        forall|p: Position| in_sphere(p) ==> #[trigger] world.voxel_at(p) == 1,
    ensures
        chunk_scan(world, order, order.len()).roots.len() > 0,
{
    let centre = Position { x: 32, y: 32, z: 32 };
    let none = centre.x - 32;
    assert(none * none == 0) by (nonlinear_arith)
        requires
            none == 0,
    ;
    assert(in_sphere(centre));
    assert(world.voxel_at(centre) == 1);
    lemma2_to64();
    assert(in_cube(centre, sector_origin(order[i]), 6));
    lemma_voxel_gives_root(world, order, i, centre);
}

/// Rebuilds the storage when the world holds a sector, and raises the dirty
/// flag; does nothing to the storage of a world without sectors.
pub fn update_svo_system(world: &VoxelWorld, storage: &mut SvoStorage)
    requires
        world.in_range(),
    ensures
        world.has_no_sector() ==> *final(storage) == *old(storage),
        !world.has_no_sector() ==> final(storage).nodes@.len() > 0 && exists|
            order: Seq<(i32, i32, i32)>,
        |
            {
                &&& order.no_duplicates()
                &&& forall|k: (i32, i32, i32)|
                    order.contains(k) <==> sector_entries(world.sectors).contains_key(k)
                &&& final(storage)@ == (SvoView {
                    dirty: true,
                    ..#[trigger] rebuilt(*world, order, old(storage)@)
                })
                &&& shows_walk(
                    *world,
                    order,
                    old(storage).tree_scale,
                    final(storage).nodes@,
                    final(storage).leaf_data@,
                )
            },
{
    if sector_map_is_empty(&world.sectors) {
        return;
    }
    world.generate_svo(storage);
    storage.dirty = true;
}

} // verus!
