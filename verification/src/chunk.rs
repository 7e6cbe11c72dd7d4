use crate::bits::{bit_set, count_bits, lemma_count_bits_set, lemma_count_bits_zero, lemma_set_bit, lemma_zero_mask, popcount, single_bit};
use crate::config::{lemma_node_round_trip, node_of, Node, MAX_CHILD_PTR};
use crate::key::{slot_position, Position};
use crate::store::{blank_slots, brick_aligned, brick_origin, lemma_blank_slots, lemma_brick_origin, lemma_slot_voxel, lemma_materials_len, lemma_occupancy_bits, materials, occupancy, Brick, VoxelWorld};
use vstd::arithmetic::power2::{lemma2_to64, lemma_pow2_adds, lemma_pow2_strictly_increases, pow2};
use vstd::bits::lemma_u32_shl_is_mul;
use vstd::prelude::*;

verus! {

/// The edge length, in voxels, of a cube of the given scale.
pub open spec fn side(scale: int) -> int {
    pow2(scale as nat) as int
}

/// The x offset of a child slot within its parent's 4x4x4 grid.
pub open spec fn slot_x(slot: nat) -> int {
    (slot % 4) as int
}

/// The z offset of a child slot.
pub open spec fn slot_z(slot: nat) -> int {
    ((slot / 4) % 4) as int
}

/// The y offset of a child slot.
pub open spec fn slot_y(slot: nat) -> int {
    ((slot / 16) % 4) as int
}

/// A cube of an even scale from 2 to 30 whose far corner is still within
/// the coordinate range.
pub open spec fn cube_fits(pos: Position, scale: int) -> bool {
    &&& 2 <= scale <= 30
    &&& scale % 2 == 0
    &&& pos.x + side(scale) <= 0x8000_0000
    &&& pos.y + side(scale) <= 0x8000_0000
    &&& pos.z + side(scale) <= 0x8000_0000
}

/// The origin of child `slot` of the cube of scale `scale` at `pos`.
pub open spec fn child_origin(pos: Position, scale: int, slot: nat) -> Position {
    Position {
        x: (pos.x + slot_x(slot) * side(scale - 2)) as i32,
        y: (pos.y + slot_y(slot) * side(scale - 2)) as i32,
        z: (pos.z + slot_z(slot) * side(scale - 2)) as i32,
    }
}

/// The pointer word for a block that starts at index `len`: its low 32 bits.
pub open spec fn ptr_word(len: nat) -> u32 {
    ((len as u64) & 0xFFFF_FFFFu64) as u32
}

/// What building one cube yields: its node, if the cube holds a voxel, and
/// the node pool and leaf array as they stand afterwards.
pub struct Built {
    pub root: Option<Node>,
    pub nodes: Seq<Node>,
    pub leaves: Seq<u32>,
}

/// What building the first slots of a cube yields: the pool and leaf array
/// afterwards, the nodes of the non-empty children in slot order, and the
/// mask of their slots.
pub struct Scan {
    pub nodes: Seq<Node>,
    pub leaves: Seq<u32>,
    pub children: Seq<Node>,
    pub mask: u64,
}

/// The tree of the cube of scale `scale` at `pos`, built onto `nodes` and
/// `leaves`. A brick-sized cube gives a leaf that points at its materials,
/// appended to the leaf array. A larger cube builds its 64 children in slot
/// order, then appends the nodes of the non-empty ones as one block and
/// points at it. A cube without a voxel gives no node.
pub open spec fn chunk_tree(
    cells: spec_fn(Position) -> Seq<u32>,
    nodes: Seq<Node>,
    leaves: Seq<u32>,
    scale: int,
    pos: Position,
) -> Built
    decreases scale, 65nat,
{
    if scale <= 2 {
        if occupancy(cells(pos), 64) == 0 {
            Built { root: None, nodes, leaves }
        } else {
            Built {
                root: Some(node_of(ptr_word(leaves.len()), true, occupancy(cells(pos), 64))),
                nodes,
                leaves: leaves + materials(cells(pos), 64),
            }
        }
    } else {
        let s = child_slots(cells, nodes, leaves, scale, pos, 64);
        if s.mask == 0 {
            Built { root: None, nodes: s.nodes, leaves: s.leaves }
        } else {
            Built {
                root: Some(node_of(ptr_word(s.nodes.len()), false, s.mask)),
                nodes: s.nodes + s.children,
                leaves: s.leaves,
            }
        }
    }
}

/// The first `n` child slots of the cube of scale `scale` at `pos`, built in
/// slot order onto `nodes` and `leaves`.
pub open spec fn child_slots(
    cells: spec_fn(Position) -> Seq<u32>,
    nodes: Seq<Node>,
    leaves: Seq<u32>,
    scale: int,
    pos: Position,
    n: nat,
) -> Scan
    decreases scale, n,
{
    if n == 0 || n > 64 || scale <= 2 {
        Scan { nodes, leaves, children: Seq::empty(), mask: 0 }
    } else {
        let prev = child_slots(cells, nodes, leaves, scale, pos, (n - 1) as nat);
        let sub = chunk_tree(
            cells,
            prev.nodes,
            prev.leaves,
            scale - 2,
            child_origin(pos, scale, (n - 1) as nat),
        );
        match sub.root {
            Some(child) => Scan {
                nodes: sub.nodes,
                leaves: sub.leaves,
                children: prev.children.push(child),
                mask: prev.mask | single_bit((n - 1) as nat),
            },
            None => Scan {
                nodes: sub.nodes,
                leaves: sub.leaves,
                children: prev.children,
                mask: prev.mask,
            },
        }
    }
}

/// Building a cube only appends to the pool and the leaf array, and where it
/// gives no node it leaves both as they were. The node of a larger cube
/// points at a block at the end of the pool that holds one node per bit of
/// its mask; a leaf points at as many materials at the end of the leaf array.
pub proof fn lemma_chunk_tree_appends(
    cells: spec_fn(Position) -> Seq<u32>,
    nodes: Seq<Node>,
    leaves: Seq<u32>,
    scale: int,
    pos: Position,
)
    requires
        2 <= scale,
        scale % 2 == 0,
    ensures
        ({
            let b = chunk_tree(cells, nodes, leaves, scale, pos);
            &&& nodes.is_prefix_of(b.nodes)
            &&& leaves.is_prefix_of(b.leaves)
            &&& b.root is None ==> b.nodes == nodes && b.leaves == leaves
            &&& b.root is Some ==> {
                let node = b.root.unwrap();
                &&& node.pop_mask() != 0
                &&& node.leaf() == (scale == 2)
                &&& b.leaves.len() > leaves.len()
                &&& scale > 2 ==> b.nodes.len() > nodes.len()
                &&& scale == 2 ==> b.nodes == nodes && b.leaves.len() == leaves.len() + popcount(
                    node.pop_mask(),
                ) && (leaves.len() <= MAX_CHILD_PTR ==> node.child_ptr() == leaves.len())
                &&& scale > 2 ==> b.nodes.len() >= popcount(node.pop_mask()) && (b.nodes.len()
                    - popcount(node.pop_mask()) <= MAX_CHILD_PTR ==> node.child_ptr()
                    == b.nodes.len() - popcount(node.pop_mask()))
            }
        }),
    decreases scale, 65nat,
{
    let b = chunk_tree(cells, nodes, leaves, scale, pos);
    if scale <= 2 {
        if occupancy(cells(pos), 64) != 0 {
            lemma_materials_len(cells(pos), 64);
            lemma_zero_mask(occupancy(cells(pos), 64));
            lemma_node_fields(leaves.len(), true, occupancy(cells(pos), 64));
        }
    } else {
        lemma_child_slots_appends(cells, nodes, leaves, scale, pos, 64);
        let s = child_slots(cells, nodes, leaves, scale, pos, 64);
        if s.mask != 0 {
            lemma_zero_mask(s.mask);
            lemma_node_fields(s.nodes.len(), false, s.mask);
        }
    }
}

/// The node made for a block at index `len` reads back its flag and mask,
/// and the index itself where that fits in 30 bits.
pub proof fn lemma_node_fields(len: nat, is_leaf: bool, mask: u64)
    ensures
        node_of(ptr_word(len), is_leaf, mask).leaf() == is_leaf,
        node_of(ptr_word(len), is_leaf, mask).pop_mask() == mask,
        len <= MAX_CHILD_PTR ==> node_of(ptr_word(len), is_leaf, mask).child_ptr() == len,
{
    crate::config::lemma_mask_halves(mask);
    crate::config::lemma_pack_word(ptr_word(len), is_leaf);
    if len <= MAX_CHILD_PTR {
        let l: u64 = len as u64;
        assert(l <= 0x3FFF_FFFFu64 ==> l & 0xFFFF_FFFFu64 == l) by (bit_vector);
        lemma_node_round_trip(ptr_word(len), is_leaf, mask);
    }
}

/// Building the first `n` slots only appends, changes nothing where no
/// child is found, and stages one child per bit of the mask, all of them
/// below bit `n`.
pub proof fn lemma_child_slots_appends(
    cells: spec_fn(Position) -> Seq<u32>,
    nodes: Seq<Node>,
    leaves: Seq<u32>,
    scale: int,
    pos: Position,
    n: nat,
)
    requires
        2 < scale,
        scale % 2 == 0,
        n <= 64,
    ensures
        ({
            let s = child_slots(cells, nodes, leaves, scale, pos, n);
            &&& nodes.is_prefix_of(s.nodes)
            &&& leaves.is_prefix_of(s.leaves)
            &&& s.mask == 0 ==> s.nodes == nodes && s.leaves == leaves && s.children.len() == 0
            &&& s.children.len() == popcount(s.mask)
            &&& s.mask != 0 ==> s.leaves.len() > leaves.len()
            &&& forall|j: nat| n <= j < 64 ==> !#[trigger] bit_set(s.mask, j)
        }),
    decreases scale, n,
{
    if n == 0 {
        lemma_count_bits_zero(64);
    } else {
        let k = (n - 1) as nat;
        let prev = child_slots(cells, nodes, leaves, scale, pos, k);
        let origin = child_origin(pos, scale, k);
        lemma_child_slots_appends(cells, nodes, leaves, scale, pos, k);
        lemma_chunk_tree_appends(cells, prev.nodes, prev.leaves, scale - 2, origin);
        let s = child_slots(cells, nodes, leaves, scale, pos, n);
        lemma_count_bits_set(prev.mask, k, 64);
        lemma_zero_mask(s.mask);
        lemma_zero_mask(prev.mask);
        assert forall|j: nat| j < 64 implies #[trigger] bit_set(prev.mask | single_bit(k), j) == (j
            == k || bit_set(prev.mask, j)) by {
            lemma_set_bit(prev.mask, k, j);
        }
        assert(bit_set(prev.mask | single_bit(k), k));
    }
}

/// Whether `node` is the root of a well-formed tree of scale `scale` in the
/// pool: a leaf points at one material per bit of its mask within the leaf
/// array, and a larger node points at one child per bit of its mask within
/// the pool, each the root of a well-formed tree of the next scale.
pub open spec fn tree_ok(pool: Seq<Node>, leaves: Seq<u32>, node: Node, scale: int) -> bool
    decreases scale,
{
    let count = popcount(node.pop_mask()) as int;
    let ptr = node.child_ptr() as int;
    if scale <= 2 {
        node.leaf() && count > 0 && ptr + count <= leaves.len()
    } else {
        &&& !node.leaf()
        &&& count > 0
        &&& ptr + count <= pool.len()
        &&& forall|j: int|
            #![trigger pool[j]]
            ptr <= j < ptr + count ==> tree_ok(pool, leaves, pool[j], scale - 2)
    }
}

/// A well-formed tree stays well-formed when the pool and the leaf array
/// grow at their ends.
pub proof fn lemma_tree_ok_extends(
    pool: Seq<Node>,
    leaves: Seq<u32>,
    longer_pool: Seq<Node>,
    longer_leaves: Seq<u32>,
    node: Node,
    scale: int,
)
    requires
        tree_ok(pool, leaves, node, scale),
        pool.is_prefix_of(longer_pool),
        leaves.is_prefix_of(longer_leaves),
    ensures
        tree_ok(longer_pool, longer_leaves, node, scale),
    decreases scale,
{
    if scale > 2 {
        let count = popcount(node.pop_mask()) as int;
        let ptr = node.child_ptr() as int;
        assert forall|j: int| #![trigger longer_pool[j]] ptr <= j < ptr + count implies tree_ok(
            longer_pool,
            longer_leaves,
            longer_pool[j],
            scale - 2,
        ) by {
            assert(longer_pool[j] == pool[j]);
            assert(tree_ok(pool, leaves, pool[j], scale - 2));
            lemma_tree_ok_extends(pool, leaves, longer_pool, longer_leaves, pool[j], scale - 2);
        }
    }
}

/// The node that building a cube gives is the root of a well-formed tree in
/// the pool and leaf array as they stand afterwards, as long as both are
/// short enough for their indices to fit the 30 bits of a pointer.
pub proof fn lemma_chunk_tree_ok(
    cells: spec_fn(Position) -> Seq<u32>,
    nodes: Seq<Node>,
    leaves: Seq<u32>,
    scale: int,
    pos: Position,
)
    requires
        2 <= scale,
        scale % 2 == 0,
        chunk_tree(cells, nodes, leaves, scale, pos).nodes.len() <= MAX_CHILD_PTR,
        chunk_tree(cells, nodes, leaves, scale, pos).leaves.len() <= MAX_CHILD_PTR,
    ensures
        ({
            let b = chunk_tree(cells, nodes, leaves, scale, pos);
            b.root is Some ==> tree_ok(b.nodes, b.leaves, b.root.unwrap(), scale)
        }),
    decreases scale, 65nat,
{
    let b = chunk_tree(cells, nodes, leaves, scale, pos);
    lemma_chunk_tree_appends(cells, nodes, leaves, scale, pos);
    if b.root is Some {
        let node = b.root.unwrap();
        lemma_zero_mask(node.pop_mask());
        if scale > 2 {
            let s = child_slots(cells, nodes, leaves, scale, pos, 64);
            lemma_child_slots_appends(cells, nodes, leaves, scale, pos, 64);
            lemma_child_slots_ok(cells, nodes, leaves, scale, pos, 64);
            lemma_node_fields(s.nodes.len(), false, s.mask);
            let ptr = node.child_ptr() as int;
            assert forall|j: int|
                #![trigger b.nodes[j]]
                ptr <= j < ptr + popcount(node.pop_mask()) implies tree_ok(
                b.nodes,
                b.leaves,
                b.nodes[j],
                scale - 2,
            ) by {
                let i = j - ptr;
                assert(b.nodes[j] == s.children[i]);
                lemma_tree_ok_extends(s.nodes, s.leaves, b.nodes, b.leaves, s.children[i], scale - 2);
            }
        }
    }
}

/// The children that the first `n` slots stage are roots of well-formed
/// trees in the pool and leaf array as they stand after those slots.
pub proof fn lemma_child_slots_ok(
    cells: spec_fn(Position) -> Seq<u32>,
    nodes: Seq<Node>,
    leaves: Seq<u32>,
    scale: int,
    pos: Position,
    n: nat,
)
    requires
        2 < scale,
        scale % 2 == 0,
        n <= 64,
        child_slots(cells, nodes, leaves, scale, pos, n).nodes.len() <= MAX_CHILD_PTR,
        child_slots(cells, nodes, leaves, scale, pos, n).leaves.len() <= MAX_CHILD_PTR,
    ensures
        ({
            let s = child_slots(cells, nodes, leaves, scale, pos, n);
            forall|i: int|
                0 <= i < s.children.len() ==> tree_ok(s.nodes, s.leaves, #[trigger] s.children[i], scale - 2)
        }),
    decreases scale, n,
{
    if n > 0 {
        let k = (n - 1) as nat;
        let prev = child_slots(cells, nodes, leaves, scale, pos, k);
        let origin = child_origin(pos, scale, k);
        let sub = chunk_tree(cells, prev.nodes, prev.leaves, scale - 2, origin);
        let s = child_slots(cells, nodes, leaves, scale, pos, n);
        lemma_chunk_tree_appends(cells, prev.nodes, prev.leaves, scale - 2, origin);
        lemma_child_slots_ok(cells, nodes, leaves, scale, pos, k);
        lemma_chunk_tree_ok(cells, prev.nodes, prev.leaves, scale - 2, origin);
        assert forall|i: int| 0 <= i < s.children.len() implies tree_ok(
            s.nodes,
            s.leaves,
            #[trigger] s.children[i],
            scale - 2,
        ) by {
            if i < prev.children.len() {
                assert(s.children[i] == prev.children[i]);
                lemma_tree_ok_extends(
                    prev.nodes,
                    prev.leaves,
                    s.nodes,
                    s.leaves,
                    prev.children[i],
                    scale - 2,
                );
            }
        }
    }
}

/// Whether the tree under `node` shows the cube of scale `scale` at `pos`.
/// A leaf carries the occupancy of the brick there and points at the
/// brick's materials in the leaf array. A larger node is no leaf, and for
/// each bit `k` of its mask the child that stands in its block behind the
/// children of the lower bits shows child cube `k`.
pub open spec fn tree_shows(
    cells: spec_fn(Position) -> Seq<u32>,
    pool: Seq<Node>,
    leaves: Seq<u32>,
    node: Node,
    scale: int,
    pos: Position,
) -> bool
    decreases scale,
{
    let ptr = node.child_ptr() as int;
    let mask = node.pop_mask();
    if scale <= 2 {
        &&& node.leaf()
        &&& mask != 0
        &&& mask == occupancy(cells(pos), 64)
        &&& ptr + materials(cells(pos), 64).len() <= leaves.len()
        &&& leaves.subrange(ptr, ptr + materials(cells(pos), 64).len()) == materials(cells(pos), 64)
    } else {
        &&& !node.leaf()
        &&& mask != 0
        &&& ptr + popcount(mask) <= pool.len()
        &&& forall|k: nat|
            k < 64 && #[trigger] bit_set(mask, k) ==> tree_shows(
                cells,
                pool,
                leaves,
                pool[ptr + count_bits(mask, k)],
                scale - 2,
                child_origin(pos, scale, k),
            )
    }
}

/// A tree that shows a cube still shows it when the pool and the leaf array
/// grow at their ends.
pub proof fn lemma_tree_shows_extends(
    cells: spec_fn(Position) -> Seq<u32>,
    pool: Seq<Node>,
    leaves: Seq<u32>,
    longer_pool: Seq<Node>,
    longer_leaves: Seq<u32>,
    node: Node,
    scale: int,
    pos: Position,
)
    requires
        tree_shows(cells, pool, leaves, node, scale, pos),
        pool.is_prefix_of(longer_pool),
        leaves.is_prefix_of(longer_leaves),
    ensures
        tree_shows(cells, longer_pool, longer_leaves, node, scale, pos),
    decreases scale,
{
    let ptr = node.child_ptr() as int;
    let mask = node.pop_mask();
    if scale > 2 {
        assert forall|k: nat| k < 64 && #[trigger] bit_set(mask, k) implies tree_shows(
            cells,
            longer_pool,
            longer_leaves,
            longer_pool[ptr + count_bits(mask, k)],
            scale - 2,
            child_origin(pos, scale, k),
        ) by {
            crate::bits::lemma_rank_in_range(mask, k, 64);
            let j = ptr + count_bits(mask, k);
            assert(longer_pool[j] == pool[j]);
            lemma_tree_shows_extends(
                cells,
                pool,
                leaves,
                longer_pool,
                longer_leaves,
                pool[j],
                scale - 2,
                child_origin(pos, scale, k),
            );
        }
    } else {
        let len = materials(cells(pos), 64).len();
        assert(longer_leaves.subrange(ptr, ptr + len) =~= leaves.subrange(ptr, ptr + len));
    }
}

/// The node that building a cube gives shows that cube in the pool and
/// leaf array as they stand afterwards, as long as both are short enough
/// for their indices to fit the 30 bits of a pointer.
pub proof fn lemma_chunk_tree_shows(
    cells: spec_fn(Position) -> Seq<u32>,
    nodes: Seq<Node>,
    leaves: Seq<u32>,
    scale: int,
    pos: Position,
)
    requires
        2 <= scale,
        scale % 2 == 0,
        chunk_tree(cells, nodes, leaves, scale, pos).nodes.len() <= MAX_CHILD_PTR,
        chunk_tree(cells, nodes, leaves, scale, pos).leaves.len() <= MAX_CHILD_PTR,
    ensures
        ({
            let b = chunk_tree(cells, nodes, leaves, scale, pos);
            b.root is Some ==> tree_shows(cells, b.nodes, b.leaves, b.root.unwrap(), scale, pos)
        }),
    decreases scale, 65nat,
{
    let b = chunk_tree(cells, nodes, leaves, scale, pos);
    lemma_chunk_tree_appends(cells, nodes, leaves, scale, pos);
    if b.root is Some {
        let node = b.root.unwrap();
        let ptr = node.child_ptr() as int;
        if scale > 2 {
            let s = child_slots(cells, nodes, leaves, scale, pos, 64);
            lemma_child_slots_appends(cells, nodes, leaves, scale, pos, 64);
            lemma_child_slots_shows(cells, nodes, leaves, scale, pos, 64);
            lemma_node_fields(s.nodes.len(), false, s.mask);
            assert forall|k: nat| k < 64 && #[trigger] bit_set(s.mask, k) implies tree_shows(
                cells,
                b.nodes,
                b.leaves,
                b.nodes[ptr + count_bits(s.mask, k)],
                scale - 2,
                child_origin(pos, scale, k),
            ) by {
                crate::bits::lemma_rank_in_range(s.mask, k, 64);
                let i = count_bits(s.mask, k) as int;
                assert(b.nodes[ptr + i] == s.children[i]);
                lemma_tree_shows_extends(
                    cells,
                    s.nodes,
                    s.leaves,
                    b.nodes,
                    b.leaves,
                    s.children[i],
                    scale - 2,
                    child_origin(pos, scale, k),
                );
            }
        } else {
            let mats = materials(cells(pos), 64);
            lemma_materials_len(cells(pos), 64);
            lemma_node_fields(leaves.len(), true, occupancy(cells(pos), 64));
            assert(b.leaves.subrange(ptr, ptr + mats.len()) =~= mats);
        }
    }
}

/// The children that the first `n` slots stage show their cubes: the child
/// of a set bit `k` stands behind the children of the lower bits.
pub proof fn lemma_child_slots_shows(
    cells: spec_fn(Position) -> Seq<u32>,
    nodes: Seq<Node>,
    leaves: Seq<u32>,
    scale: int,
    pos: Position,
    n: nat,
)
    requires
        2 < scale,
        scale % 2 == 0,
        n <= 64,
        child_slots(cells, nodes, leaves, scale, pos, n).nodes.len() <= MAX_CHILD_PTR,
        child_slots(cells, nodes, leaves, scale, pos, n).leaves.len() <= MAX_CHILD_PTR,
    ensures
        ({
            let s = child_slots(cells, nodes, leaves, scale, pos, n);
            forall|k: nat|
                k < 64 && #[trigger] bit_set(s.mask, k) ==> count_bits(s.mask, k) < s.children.len()
                    && tree_shows(
                    cells,
                    s.nodes,
                    s.leaves,
                    s.children[count_bits(s.mask, k) as int],
                    scale - 2,
                    child_origin(pos, scale, k),
                )
        }),
    decreases scale, n,
{
    let s = child_slots(cells, nodes, leaves, scale, pos, n);
    lemma_child_slots_appends(cells, nodes, leaves, scale, pos, n);
    if n == 0 {
        lemma_count_bits_zero(64);
    } else {
        let last = (n - 1) as nat;
        let prev = child_slots(cells, nodes, leaves, scale, pos, last);
        let origin = child_origin(pos, scale, last);
        let sub = chunk_tree(cells, prev.nodes, prev.leaves, scale - 2, origin);
        lemma_child_slots_appends(cells, nodes, leaves, scale, pos, last);
        lemma_chunk_tree_appends(cells, prev.nodes, prev.leaves, scale - 2, origin);
        lemma_child_slots_shows(cells, nodes, leaves, scale, pos, last);
        lemma_chunk_tree_shows(cells, prev.nodes, prev.leaves, scale - 2, origin);
        assert forall|k: nat| k < 64 && #[trigger] bit_set(s.mask, k) implies count_bits(s.mask, k)
            < s.children.len() && tree_shows(
            cells,
            s.nodes,
            s.leaves,
            s.children[count_bits(s.mask, k) as int],
            scale - 2,
            child_origin(pos, scale, k),
        ) by {
            crate::bits::lemma_rank_in_range(s.mask, k, 64);
            if sub.root is Some {
                lemma_set_bit(prev.mask, last, k);
                lemma_count_bits_set(prev.mask, last, k);
            }
            if k == last && sub.root is Some {
                crate::bits::lemma_count_bits_below(prev.mask, last, 64);
                assert(count_bits(s.mask, k) == prev.children.len());
            } else {
                assert(bit_set(prev.mask, k));
                let i = count_bits(prev.mask, k) as int;
                assert(count_bits(s.mask, k) == i);
                assert(s.children[i] == prev.children[i]);
                lemma_tree_shows_extends(
                    cells,
                    prev.nodes,
                    prev.leaves,
                    s.nodes,
                    s.leaves,
                    prev.children[i],
                    scale - 2,
                    child_origin(pos, scale, k),
                );
            }
        }
    }
}

/// Whether `p` lies in the cube of scale `scale` at `pos`.
pub open spec fn in_cube(p: Position, pos: Position, scale: int) -> bool {
    &&& pos.x <= p.x < pos.x + side(scale)
    &&& pos.y <= p.y < pos.y + side(scale)
    &&& pos.z <= p.z < pos.z + side(scale)
}

/// Whether every voxel of the bricks that the cube reaches is empty: at no
/// position of the cube is a slot occupied.
pub open spec fn cube_vacant(cells: spec_fn(Position) -> Seq<u32>, pos: Position, scale: int) -> bool {
    forall|p: Position| #[trigger] in_cube(p, pos, scale) ==> occupancy(cells(p), 64) == 0
}

/// A child cube fits where its parent does, and lies within the parent.
pub proof fn lemma_child_cube(pos: Position, scale: int, slot: nat)
    requires
        cube_fits(pos, scale),
        scale > 2,
        slot < 64,
    ensures
        cube_fits(child_origin(pos, scale, slot), scale - 2),
        forall|p: Position| #[trigger]
            in_cube(p, child_origin(pos, scale, slot), scale - 2) ==> in_cube(p, pos, scale),
{
    lemma2_to64();
    lemma_pow2_adds(2, (scale - 2) as nat);
    let step = side(scale - 2);
    assert(side(scale) == 4 * step);
    assert(step > 0) by {
        vstd::arithmetic::power2::lemma_pow2_pos((scale - 2) as nat);
    }
    let (sx, sy, sz) = (slot_x(slot), slot_y(slot), slot_z(slot));
    assert(0 <= sx * step <= 3 * step && 0 <= sy * step <= 3 * step && 0 <= sz * step <= 3 * step)
        by (nonlinear_arith)
        requires
            0 <= sx <= 3,
            0 <= sy <= 3,
            0 <= sz <= 3,
            step > 0,
    ;
}

/// A cube that reaches no occupied brick gives no node and leaves the pool
/// and the leaf array exactly as they were.
pub proof fn lemma_vacant_cube(
    cells: spec_fn(Position) -> Seq<u32>,
    nodes: Seq<Node>,
    leaves: Seq<u32>,
    scale: int,
    pos: Position,
)
    requires
        cube_fits(pos, scale),
        cube_vacant(cells, pos, scale),
    ensures
        chunk_tree(cells, nodes, leaves, scale, pos) == (Built { root: None, nodes, leaves }),
    decreases scale, 65nat,
{
    if scale <= 2 {
        lemma2_to64();
        assert(in_cube(pos, pos, scale));
    } else {
        lemma_vacant_slots(cells, nodes, leaves, scale, pos, 64);
    }
}

/// The first `n` slots of a cube that reaches no occupied brick stage no
/// child and change nothing.
pub proof fn lemma_vacant_slots(
    cells: spec_fn(Position) -> Seq<u32>,
    nodes: Seq<Node>,
    leaves: Seq<u32>,
    scale: int,
    pos: Position,
    n: nat,
)
    requires
        cube_fits(pos, scale),
        scale > 2,
        cube_vacant(cells, pos, scale),
        n <= 64,
    ensures
        child_slots(cells, nodes, leaves, scale, pos, n) == (Scan {
            nodes,
            leaves,
            children: Seq::empty(),
            mask: 0,
        }),
    decreases scale, n,
{
    if n > 0 {
        let k = (n - 1) as nat;
        let origin = child_origin(pos, scale, k);
        lemma_vacant_slots(cells, nodes, leaves, scale, pos, k);
        lemma_child_cube(pos, scale, k);
        assert forall|p: Position| #[trigger] in_cube(p, origin, scale - 2) implies occupancy(
            cells(p),
            64,
        ) == 0 by {
            assert(in_cube(p, pos, scale));
        }
        lemma_vacant_cube(cells, nodes, leaves, scale - 2, origin);
    }
}

/// A multiple of 4 at or below a coordinate of the cube is in the cube, and
/// so are the three coordinates after it.
proof fn lemma_brick_in_cube(lo: i32, side: int, a: i32)
    requires
        lo & 3i32 == 0,
        side % 4 == 0,
        4 <= side <= 0x4000_0000,
        lo + side <= 0x8000_0000,
        lo <= a < lo + side,
    ensures
        lo <= (a & !3i32),
        (a & !3i32) + 3 < lo + side,
{
    let k: i32 = (side / 4) as i32;
    let last: i32 = (lo + side - 1) as i32;
    assert(side == 4 * k && 1 <= k <= 0x1000_0000);
    assert((lo & 3i32 == 0 && 1 <= k && k <= 0x2000_0000 && lo + 4 * k - 1 <= 0x7FFF_FFFF && last
        == lo + 4 * k - 1 ==> last & 3i32 == 3) && (lo & 3i32 == 0 && lo <= a ==> lo <= (a & !3i32))
        && (last & 3i32 == 3 && a <= last ==> (a & !3i32) + 3 <= last)) by (bit_vector);
}

/// A chunk whose every voxel is empty gives no node and leaves the pool and
/// the leaf array exactly as they were.
pub proof fn lemma_empty_chunk(
    world: VoxelWorld,
    nodes: Seq<Node>,
    leaves: Seq<u32>,
    scale: int,
    pos: Position,
)
    requires
        cube_fits(pos, scale),
        brick_aligned(pos),
        forall|p: Position| in_cube(p, pos, scale) ==> #[trigger] world.voxel_at(p) == 0,
    ensures
        chunk_tree(world.cells(), nodes, leaves, scale, pos) == (Built { root: None, nodes, leaves }),
{
    lemma2_to64();
    lemma_pow2_adds(2, (scale - 2) as nat);
    vstd::arithmetic::power2::lemma_pow2_pos((scale - 2) as nat);
    lemma_pow2_strictly_increases(scale as nat, 31);
    let cells = world.cells();
    assert forall|p: Position| #[trigger] in_cube(p, pos, scale) implies occupancy(cells(p), 64)
        == 0 by {
        let origin = brick_origin(p);
        lemma_brick_origin(world, p);
        lemma_brick_in_cube(pos.x, side(scale), p.x);
        lemma_brick_in_cube(pos.y, side(scale), p.y);
        lemma_brick_in_cube(pos.z, side(scale), p.z);
        assert forall|j: int| 0 <= j < 64 implies world.slots_at(origin)[j] == 0 by {
            lemma_slot_voxel(world, origin, j);
            assert(in_cube(slot_position(origin, j), pos, scale));
        }
        lemma_blank_slots(world.slots_at(origin), 64);
    }
    lemma_vacant_cube(cells, nodes, leaves, scale, pos);
}

/// Where the first `n` slots stage no child, each of them gives no node.
pub proof fn lemma_no_child(
    cells: spec_fn(Position) -> Seq<u32>,
    nodes: Seq<Node>,
    leaves: Seq<u32>,
    scale: int,
    pos: Position,
    n: nat,
    k: nat,
)
    requires
        2 < scale,
        scale % 2 == 0,
        k < n <= 64,
        child_slots(cells, nodes, leaves, scale, pos, n).mask == 0,
    ensures
        chunk_tree(cells, nodes, leaves, scale - 2, child_origin(pos, scale, k)).root is None,
    decreases n,
{
    let prev = child_slots(cells, nodes, leaves, scale, pos, (n - 1) as nat);
    let sub = chunk_tree(
        cells,
        prev.nodes,
        prev.leaves,
        scale - 2,
        child_origin(pos, scale, (n - 1) as nat),
    );
    lemma_child_slots_appends(cells, nodes, leaves, scale, pos, (n - 1) as nat);
    if sub.root is Some {
        lemma_set_bit(prev.mask, (n - 1) as nat, (n - 1) as nat);
        lemma_zero_mask(prev.mask | single_bit((n - 1) as nat));
        assert(bit_set(prev.mask | single_bit((n - 1) as nat), (n - 1) as nat));
    }
    if k < n - 1 {
        lemma_no_child(cells, nodes, leaves, scale, pos, (n - 1) as nat, k);
    }
}

/// A coordinate of a cube lies in one of the four child ranges along its axis.
proof fn lemma_child_range(lo: i32, step: int, a: i32) -> (s: int)
    requires
        lo & 3i32 == 0,
        4 <= step <= 0x1000_0000,
        step % 4 == 0,
        lo + 4 * step <= 0x8000_0000,
        lo <= a < lo + 4 * step,
    ensures
        0 <= s < 4,
        lo + s * step <= a < lo + s * step + step,
        ((lo + s * step) as i32) & 3i32 == 0,
{
    let s = (a - lo) / step;
    let d = a - lo;
    assert(0 <= s < 4 && s * step <= d < s * step + step) by (nonlinear_arith)
        requires
            s == d / step,
            0 <= d < 4 * step,
            step > 0,
    ;
    let q = step / 4;
    assert(s * step == 4 * (s * q) && 0 <= s * q <= 3 * q) by (nonlinear_arith)
        requires
            step == 4 * q,
            q > 0,
            0 <= s < 4,
    ;
    let m: i32 = (s * q) as i32;
    assert(lo & 3i32 == 0 && 0 <= m && lo + 4 * m <= 0x7FFF_FFFF ==> ((lo + 4 * m) as i32) & 3i32
        == 0) by (bit_vector);
    s
}

/// A chunk that gives no node holds no voxel: every voxel of its cube is
/// empty.
pub proof fn lemma_no_node_no_voxel(
    world: VoxelWorld,
    nodes: Seq<Node>,
    leaves: Seq<u32>,
    scale: int,
    pos: Position,
    p: Position,
)
    requires
        cube_fits(pos, scale),
        brick_aligned(pos),
        chunk_tree(world.cells(), nodes, leaves, scale, pos).root is None,
        in_cube(p, pos, scale),
    ensures
        world.voxel_at(p) == 0,
    decreases scale,
{
    lemma2_to64();
    let cells = world.cells();
    if scale <= 2 {
        let j = (p.x - pos.x) + 4 * (p.z - pos.z) + 16 * (p.y - pos.y);
        assert(slot_position(pos, j) == p);
        lemma_slot_voxel(world, pos, j);
        lemma_occupancy_bits(cells(pos), 64);
        lemma_count_bits_zero(64);
        assert(!bit_set(occupancy(cells(pos), 64), j as nat));
    } else {
        let step = side(scale - 2);
        lemma_pow2_adds(2, (scale - 2) as nat);
        lemma_pow2_adds(2, (scale - 4) as nat);
        lemma_pow2_strictly_increases((scale - 2) as nat, 29);
        vstd::arithmetic::power2::lemma_pow2_pos((scale - 4) as nat);
        let sx = lemma_child_range(pos.x, step, p.x);
        let sy = lemma_child_range(pos.y, step, p.y);
        let sz = lemma_child_range(pos.z, step, p.z);
        let k = (sx + 4 * sz + 16 * sy) as nat;
        assert(slot_x(k) == sx && slot_y(k) == sy && slot_z(k) == sz);
        let child = child_origin(pos, scale, k);
        lemma_child_cube(pos, scale, k);
        lemma_no_child(cells, nodes, leaves, scale, pos, 64, k);
        lemma_no_node_no_voxel(world, nodes, leaves, scale - 2, child, p);
    }
}

/// The leaf of a brick-sized cube with an occupied slot: bit `j` of its
/// mask is set exactly when slot `j` is not empty, and it points at the
/// non-empty materials, which stand in slot order at the end of the leaf
/// array, one per bit of the mask.
pub proof fn lemma_leaf_build(
    cells: spec_fn(Position) -> Seq<u32>,
    nodes: Seq<Node>,
    leaves: Seq<u32>,
    pos: Position,
)
    requires
        occupancy(cells(pos), 64) != 0,
    ensures
        ({
            let b = chunk_tree(cells, nodes, leaves, 2, pos);
            &&& b.root is Some
            &&& b.root.unwrap().leaf()
            &&& forall|j: nat|
                j < 64 ==> #[trigger] bit_set(b.root.unwrap().pop_mask(), j) == (cells(pos)[j as int]
                    != 0)
            &&& leaves.len() <= MAX_CHILD_PTR ==> b.root.unwrap().child_ptr() == leaves.len()
            &&& b.nodes == nodes
            &&& b.leaves.len() == leaves.len() + popcount(b.root.unwrap().pop_mask())
            &&& b.leaves.subrange(leaves.len() as int, b.leaves.len() as int) == materials(
                cells(pos),
                64,
            )
            &&& b.leaves.subrange(0, leaves.len() as int) == leaves
        }),
{
    let b = chunk_tree(cells, nodes, leaves, 2, pos);
    let mask = occupancy(cells(pos), 64);
    lemma_occupancy_bits(cells(pos), 64);
    lemma_materials_len(cells(pos), 64);
    lemma_node_fields(leaves.len(), true, mask);
    assert(b.leaves.subrange(leaves.len() as int, b.leaves.len() as int) =~= materials(
        cells(pos),
        64,
    ));
    assert(b.leaves.subrange(0, leaves.len() as int) =~= leaves);
}

/// The pointer word of a length, as the builder stores it.
pub(crate) fn pointer_to(len: usize) -> (p: u32)
    ensures
        p == ptr_word(len as nat),
{
    ((len as u64) & 0xFFFF_FFFF) as u32
}

/// The origin of a child cube.
pub(crate) fn child_position(pos: Position, scale: i32, slot: u32) -> (r: Position)
    requires
        cube_fits(pos, scale as int),
        scale > 2,
        slot < 64,
    ensures
        r == child_origin(pos, scale as int, slot as nat),
        cube_fits(r, scale - 2),
{
    let child_scale: u32 = (scale - 2) as u32;
    proof {
        lemma2_to64();
        lemma_pow2_strictly_increases(child_scale as nat, 29);
        lemma_pow2_adds(2, child_scale as nat);
        lemma_u32_shl_is_mul(1, child_scale);
        assert(slot < 64 ==> slot & 3 == slot % 4 && (slot >> 2) & 3 == (slot / 4) % 4 && (slot
            >> 4) & 3 == (slot / 16) % 4) by (bit_vector);
    }
    let step: u32 = 1u32 << child_scale;
    let cx: u32 = slot & 3;
    let cz: u32 = (slot >> 2) & 3;
    let cy: u32 = (slot >> 4) & 3;
    proof {
        assert(cx * step <= 3 * step && cy * step <= 3 * step && cz * step <= 3 * step)
            by (nonlinear_arith)
            requires
                cx <= 3,
                cy <= 3,
                cz <= 3,
                step >= 0,
        ;
    }
    let dx: i32 = (cx * step) as i32;
    let dy: i32 = (cy * step) as i32;
    let dz: i32 = (cz * step) as i32;
    Position { x: pos.x + dx, y: pos.y + dy, z: pos.z + dz }
}

/// Appends the brick's non-empty materials to the leaf array, in slot order.
fn push_materials(brick: &Brick, leaf_data: &mut Vec<u32>)
    ensures
        final(leaf_data)@ == old(leaf_data)@ + brick.leaf_materials(),
{
    let ghost before = leaf_data@;
    let mut i: usize = 0;
    while i < 64
        invariant
            i <= 64,
            leaf_data@ == before + materials(brick.slots(), i as nat),
        decreases 64 - i,
    {
        let mat_id: u8 = brick.voxels[i];
        if mat_id != 0 {
            leaf_data.push(mat_id as u32);
        }
        i += 1;
    }
}

/// Builds the tree of the cube of scale `scale` at `pos` onto the node pool
/// and the leaf array, and returns its node, or `None` for a cube without a
/// voxel.
pub fn build_chunk_tree(
    world: &VoxelWorld,
    nodes: &mut Vec<Node>,
    leaf_data: &mut Vec<u32>,
    scale: i32,
    pos: Position,
) -> (r: Option<Node>)
    requires
        cube_fits(pos, scale as int),
    ensures
        r == chunk_tree(world.cells(), old(nodes)@, old(leaf_data)@, scale as int, pos).root,
        final(nodes)@ == chunk_tree(world.cells(), old(nodes)@, old(leaf_data)@, scale as int, pos).nodes,
        final(leaf_data)@ == chunk_tree(
            world.cells(),
            old(nodes)@,
            old(leaf_data)@,
            scale as int,
            pos,
        ).leaves,
        old(nodes)@.is_prefix_of(final(nodes)@),
        old(leaf_data)@.is_prefix_of(final(leaf_data)@),
        r is None ==> final(nodes)@ == old(nodes)@ && final(leaf_data)@ == old(leaf_data)@,
    decreases scale,
{
    let ghost nodes0 = nodes@;
    let ghost leaves0 = leaf_data@;
    proof {
        lemma_chunk_tree_appends(world.cells(), nodes0, leaves0, scale as int, pos);
    }
    if scale == 2 {
        match world.get_brick_at(pos) {
            Some(brick) => {
                let mask: u64 = brick.pack_bits_64();
                if mask == 0 {
                    return None;
                }
                let child_ptr: u32 = pointer_to(leaf_data.len());
                push_materials(brick, leaf_data);
                return Some(Node::new(child_ptr, true, mask));
            },
            None => {
                proof {
                    lemma_blank_slots(blank_slots(), 64);
                }
                return None;
            },
        }
    }
    let child_scale: i32 = scale - 2;
    let mut current_node_mask: u64 = 0;
    let mut children_results: Vec<Node> = Vec::with_capacity(64);
    let mut i: u32 = 0;
    while i < 64
        invariant
            i <= 64,
            scale > 2,
            child_scale == scale - 2,
            cube_fits(pos, scale as int),
            nodes@ == child_slots(world.cells(), nodes0, leaves0, scale as int, pos, i as nat).nodes,
            leaf_data@ == child_slots(world.cells(), nodes0, leaves0, scale as int, pos, i as nat).leaves,
            children_results@ == child_slots(
                world.cells(),
                nodes0,
                leaves0,
                scale as int,
                pos,
                i as nat,
            ).children,
            current_node_mask == child_slots(
                world.cells(),
                nodes0,
                leaves0,
                scale as int,
                pos,
                i as nat,
            ).mask,
        decreases 64 - i,
    {
        let child_pos: Position = child_position(pos, scale, i);
        match build_chunk_tree(world, nodes, leaf_data, child_scale, child_pos) {
            Some(child_node) => {
                current_node_mask |= 1u64 << (i as u64);
                children_results.push(child_node);
            },
            None => {},
        }
        i += 1;
    }
    if current_node_mask == 0 {
        return None;
    }
    let child_start_ptr: u32 = pointer_to(nodes.len());
    nodes.append(&mut children_results);
    Some(Node::new(child_start_ptr, false, current_node_mask))
}

} // verus!
