use crate::bits::{bit_set, lemma_count_bits_set, lemma_count_bits_zero, lemma_set_bit, popcount, single_bit};
use crate::chunk::{lemma_node_fields, pointer_to, ptr_word};
use crate::config::{node_of, Node};
use crate::key::{lemma_key_grouping, morton_key, Position};
use vstd::prelude::*;

verus! {

/// The scale of the first level that the merge builds above the chunk roots.
pub const FIRST_MERGE_SCALE: i32 = 8;

/// The scale past which the merge builds no further level.
pub const MAX_MERGE_SCALE: i32 = 30;

/// The key without its bits below offset `3 scale`: the cell of that scale
/// that the key lies in. Past the key's 64 bits every key lies in one cell.
pub open spec fn key_prefix(key: u64, scale: int) -> u64 {
    if 3 * scale >= 64 {
        0
    } else {
        key & (!0u64 << ((3 * scale) as u64))
    }
}

/// The slot that a key takes in its parent of scale `scale`: the six bits at
/// offset `3 (scale - 2)`.
pub open spec fn key_slot(key: u64, scale: int) -> nat {
    if 3 * (scale - 2) >= 64 {
        0
    } else {
        ((key >> ((3 * (scale - 2)) as u64)) & 63u64) as nat
    }
}

/// The nodes of a layer, in order.
pub open spec fn nodes_of(layer: Seq<(u64, Node)>) -> Seq<Node> {
    Seq::new(layer.len(), |j: int| layer[j].1)
}

/// The first index from `i` on at which the layer's entry leaves the cell
/// `cell` of scale `scale`, or the layer's length.
pub open spec fn run_end(layer: Seq<(u64, Node)>, scale: int, cell: u64, i: int) -> int
    decreases layer.len() - i,
{
    if 0 <= i < layer.len() && key_prefix(layer[i].0, scale) == cell {
        run_end(layer, scale, cell, i + 1)
    } else {
        i
    }
}

/// The slots, as a mask, of the layer's entries from `from` up to `to`.
pub open spec fn run_mask(layer: Seq<(u64, Node)>, scale: int, from: int, to: int) -> u64
    decreases to - from,
{
    if to <= from {
        0
    } else {
        run_mask(layer, scale, from, to - 1) | single_bit(key_slot(layer[to - 1].0, scale))
    }
}

/// The parents of the layer's entries from `start` on: one per maximal run
/// of consecutive entries in one cell of scale `scale`, keyed by that cell,
/// pointing at the run's nodes, which stand in the pool from `base + start`.
pub open spec fn parents(layer: Seq<(u64, Node)>, scale: int, base: nat, start: int) -> Seq<
    (u64, Node),
>
    decreases layer.len() - start,
    via parents_decreases
{
    if 0 <= start < layer.len() {
        let cell = key_prefix(layer[start].0, scale);
        let end = run_end(layer, scale, cell, start + 1);
        seq![
            (
                cell,
                node_of(
                    ptr_word((base + start) as nat),
                    false,
                    run_mask(layer, scale, start, end),
                ),
            ),
        ] + parents(layer, scale, base, end)
    } else {
        Seq::empty()
    }
}

#[via_fn]
proof fn parents_decreases(layer: Seq<(u64, Node)>, scale: int, base: nat, start: int) {
    if 0 <= start < layer.len() {
        lemma_run_end_bounds(layer, scale, key_prefix(layer[start].0, scale), start + 1);
    }
}

/// The state of a merge: the current layer and the node pool.
pub struct Merge {
    pub layer: Seq<(u64, Node)>,
    pub pool: Seq<Node>,
}

/// One level of the merge: the layer's nodes are appended to the pool in
/// order, and the layer of their parents takes its place.
pub open spec fn merge_level(layer: Seq<(u64, Node)>, pool: Seq<Node>, scale: int) -> Merge {
    Merge { layer: parents(layer, scale, pool.len(), 0), pool: pool + nodes_of(layer) }
}

/// The merge from scale `scale` on: a level is built while the scale is at
/// most 30 and either has not passed `root_scale` or more than one node is
/// left.
pub open spec fn merge_from(
    layer: Seq<(u64, Node)>,
    pool: Seq<Node>,
    scale: int,
    root_scale: int,
) -> Merge
    decreases 32 - scale,
{
    if scale <= 30 && (scale <= root_scale || layer.len() > 1) {
        let m = merge_level(layer, pool, scale);
        merge_from(m.layer, m.pool, scale + 2, root_scale)
    } else {
        Merge { layer, pool }
    }
}

/// A run's end lies at or after its start and within the layer.
pub proof fn lemma_run_end_bounds(layer: Seq<(u64, Node)>, scale: int, cell: u64, i: int)
    requires
        0 <= i <= layer.len(),
    ensures
        i <= run_end(layer, scale, cell, i) <= layer.len(),
    decreases layer.len() - i,
{
    if i < layer.len() && key_prefix(layer[i].0, scale) == cell {
        lemma_run_end_bounds(layer, scale, cell, i + 1);
    }
}

/// A layer with an entry at `start` has at least one parent from there on.
pub proof fn lemma_parents_nonempty(layer: Seq<(u64, Node)>, scale: int, base: nat, start: int)
    requires
        0 <= start < layer.len(),
    ensures
        parents(layer, scale, base, start).len() > 0,
{
}

fn prefix_of(key: u64, scale: i32) -> (r: u64)
    requires
        2 <= scale <= 30,
    ensures
        r == key_prefix(key, scale as int),
{
    let offset: u32 = (scale * 3) as u32;
    if offset >= 64 {
        0
    } else {
        key & (!0u64 << offset)
    }
}

fn slot_of(key: u64, scale: i32) -> (r: u64)
    requires
        2 <= scale <= 30,
    ensures
        r == key_slot(key, scale as int),
        r < 64,
{
    let offset: u32 = ((scale - 2) * 3) as u32;
    if offset >= 64 {
        0
    } else {
        proof {
            assert((key >> offset) & 63u64 < 64) by (bit_vector);
        }
        (key >> offset) & 63
    }
}

/// Builds one level: appends the layer's nodes to the pool, run by run, and
/// returns the layer of their parents.
pub(crate) fn merge_layer(layer_nodes: &Vec<(u64, Node)>, node_pool: &mut Vec<Node>, scale: i32) -> (next: Vec<
    (u64, Node),
>)
    requires
        2 <= scale <= 30,
    ensures
        next@ == merge_level(layer_nodes@, old(node_pool)@, scale as int).layer,
        final(node_pool)@ == merge_level(layer_nodes@, old(node_pool)@, scale as int).pool,
{
    let ghost layer = layer_nodes@;
    let ghost pool0 = node_pool@;
    let mut next_layer: Vec<(u64, Node)> = Vec::new();
    let mut i: usize = 0;
    while i < layer_nodes.len()
        invariant
            2 <= scale <= 30,
            layer == layer_nodes@,
            i <= layer.len(),
            node_pool@ == pool0 + nodes_of(layer).subrange(0, i as int),
            next_layer@ + parents(layer, scale as int, pool0.len(), i as int) == parents(
                layer,
                scale as int,
                pool0.len(),
                0,
            ),
        decreases layer.len() - i,
    {
        let start: usize = i;
        let parent_pos_key: u64 = prefix_of(layer_nodes[i].0, scale);
        let mut parent_pop_mask: u64 = 0;
        let child_start_ptr: u32 = pointer_to(node_pool.len());
        let mut children_to_push: Vec<Node> = Vec::new();
        let ghost end = run_end(layer, scale as int, parent_pos_key, start + 1);
        proof {
            lemma_run_end_bounds(layer, scale as int, parent_pos_key, start + 1);
        }
        while i < layer_nodes.len() && prefix_of(layer_nodes[i].0, scale) == parent_pos_key
            invariant
                2 <= scale <= 30,
                layer == layer_nodes@,
                start <= i <= layer.len(),
                start < layer.len(),
                parent_pos_key == key_prefix(layer[start as int].0, scale as int),
                i == start || run_end(layer, scale as int, parent_pos_key, i as int) == end,
                end == run_end(layer, scale as int, parent_pos_key, start + 1),
                parent_pop_mask == run_mask(layer, scale as int, start as int, i as int),
                children_to_push@ == nodes_of(layer).subrange(start as int, i as int),
            decreases layer.len() - i,
        {
            let child_key: u64 = layer_nodes[i].0;
            let child_node: Node = layer_nodes[i].1;
            let slot_index: u64 = slot_of(child_key, scale);
            parent_pop_mask |= 1u64 << slot_index;
            children_to_push.push(child_node);
            i += 1;
            proof {
                assert(children_to_push@ =~= nodes_of(layer).subrange(start as int, i as int));
            }
        }
        proof {
            assert(i > start);
            assert(i == end);
            assert(pool0 + nodes_of(layer).subrange(0, start as int) + nodes_of(layer).subrange(
                start as int,
                i as int,
            ) =~= pool0 + nodes_of(layer).subrange(0, i as int));
            assert(node_pool@.len() == pool0.len() + start);
        }
        node_pool.append(&mut children_to_push);
        let parent: Node = Node::new(child_start_ptr, false, parent_pop_mask);
        let ghost before = next_layer@;
        next_layer.push((parent_pos_key, parent));
        proof {
            assert(next_layer@ + parents(layer, scale as int, pool0.len(), i as int) =~= before
                + parents(layer, scale as int, pool0.len(), start as int));
        }
    }
    proof {
        assert(nodes_of(layer).subrange(0, i as int) =~= nodes_of(layer));
        assert(next_layer@ + parents(layer, scale as int, pool0.len(), i as int) =~= next_layer@);
    }
    next_layer
}

/// The root and the pool that merging the chunk roots gives: with no chunk
/// root the empty node and the pool unchanged, else the first node of the
/// layer that the merge from scale 8 ends with.
pub open spec fn tlas_root(chunk_roots: Seq<(u64, Node)>, pool: Seq<Node>, root_scale: int) -> Node {
    if chunk_roots.len() == 0 {
        node_of(0, false, 0)
    } else {
        merge_from(chunk_roots, pool, 8, root_scale).layer[0].1
    }
}

/// The pool after merging the chunk roots.
pub open spec fn tlas_pool(chunk_roots: Seq<(u64, Node)>, pool: Seq<Node>, root_scale: int) -> Seq<
    Node,
> {
    if chunk_roots.len() == 0 {
        pool
    } else {
        merge_from(chunk_roots, pool, 8, root_scale).pool
    }
}

/// A merge that starts with a non-empty layer ends with one, and only
/// appends to the pool.
pub proof fn lemma_merge_from(
    layer: Seq<(u64, Node)>,
    pool: Seq<Node>,
    scale: int,
    root_scale: int,
)
    requires
        layer.len() > 0,
    ensures
        merge_from(layer, pool, scale, root_scale).layer.len() > 0,
        pool.is_prefix_of(merge_from(layer, pool, scale, root_scale).pool),
    decreases 32 - scale,
{
    if scale <= 30 && (scale <= root_scale || layer.len() > 1) {
        let m = merge_level(layer, pool, scale);
        lemma_parents_nonempty(layer, scale, pool.len(), 0);
        lemma_merge_from(m.layer, m.pool, scale + 2, root_scale);
    }
}

/// A slot is one of 64.
pub proof fn lemma_key_slot_bound(key: u64, scale: int)
    ensures
        key_slot(key, scale) < 64,
{
    if 0 <= 3 * (scale - 2) < 64 {
        let offset: u64 = (3 * (scale - 2)) as u64;
        assert((key >> offset) & 63u64 < 64) by (bit_vector);
    } else if 3 * (scale - 2) < 0 {
        let offset: u64 = (3 * (scale - 2)) as u64;
        assert((key >> offset) & 63u64 < 64) by (bit_vector);
    }
}

/// Bit `k` of a run's mask is set exactly when an entry of the run takes
/// slot `k`.
pub proof fn lemma_run_mask_bits(layer: Seq<(u64, Node)>, scale: int, from: int, to: int, k: nat)
    requires
        0 <= from <= to <= layer.len(),
        k < 64,
    ensures
        bit_set(run_mask(layer, scale, from, to), k) == (exists|j: int|
            from <= j < to && #[trigger] key_slot(layer[j].0, scale) == k),
    decreases to - from,
{
    if to <= from {
        lemma_count_bits_zero(64);
    } else {
        lemma_run_mask_bits(layer, scale, from, to - 1, k);
        lemma_key_slot_bound(layer[to - 1].0, scale);
        lemma_set_bit(run_mask(layer, scale, from, to - 1), key_slot(layer[to - 1].0, scale), k);
        if bit_set(run_mask(layer, scale, from, to), k) {
            if key_slot(layer[to - 1].0, scale) == k {
                assert(from <= to - 1 < to && key_slot(layer[to - 1].0, scale) == k);
            } else {
                let j = choose|j: int|
                    from <= j < to - 1 && #[trigger] key_slot(layer[j].0, scale) == k;
                assert(from <= j < to && key_slot(layer[j].0, scale) == k);
            }
        }
    }
}

/// A run whose entries take pairwise distinct slots has a mask with as many
/// bits set as the run has entries.
pub proof fn lemma_run_mask_count(layer: Seq<(u64, Node)>, scale: int, from: int, to: int)
    requires
        0 <= from <= to <= layer.len(),
        forall|i: int, j: int|
            from <= i < j < to ==> #[trigger] key_slot(layer[i].0, scale) != #[trigger] key_slot(
                layer[j].0,
                scale,
            ),
    ensures
        popcount(run_mask(layer, scale, from, to)) == to - from,
    decreases to - from,
{
    if to <= from {
        lemma_count_bits_zero(64);
    } else {
        let slot = key_slot(layer[to - 1].0, scale);
        lemma_run_mask_count(layer, scale, from, to - 1);
        lemma_key_slot_bound(layer[to - 1].0, scale);
        lemma_run_mask_bits(layer, scale, from, to - 1, slot);
        lemma_count_bits_set(run_mask(layer, scale, from, to - 1), slot, 64);
    }
}

/// A run's mask has at most one bit per entry, and where it has exactly
/// that many, the entries take pairwise distinct slots.
pub proof fn lemma_run_mask_full(layer: Seq<(u64, Node)>, scale: int, from: int, to: int)
    requires
        0 <= from <= to <= layer.len(),
    ensures
        popcount(run_mask(layer, scale, from, to)) <= to - from,
        popcount(run_mask(layer, scale, from, to)) == to - from ==> forall|i: int, j: int|
            from <= i < j < to ==> #[trigger] key_slot(layer[i].0, scale) != #[trigger] key_slot(
                layer[j].0,
                scale,
            ),
    decreases to - from,
{
    if to <= from {
        lemma_count_bits_zero(64);
    } else {
        let slot = key_slot(layer[to - 1].0, scale);
        let rest = run_mask(layer, scale, from, to - 1);
        lemma_run_mask_full(layer, scale, from, to - 1);
        lemma_key_slot_bound(layer[to - 1].0, scale);
        lemma_run_mask_bits(layer, scale, from, to - 1, slot);
        lemma_count_bits_set(rest, slot, 64);
    }
}

/// Whether the entries of a layer take strictly ascending slots at the
/// first merge scale.
pub open spec fn slots_ascend(layer: Seq<(u64, Node)>) -> bool {
    forall|i: int, j: int|
        0 <= i < j < layer.len() ==> key_slot((#[trigger] layer[i]).0, 8) < key_slot(
            (#[trigger] layer[j]).0,
            8,
        )
}

/// Of two keys in one cell of the first merge scale the lesser takes no
/// greater slot.
pub proof fn lemma_slot_order(a: u64, b: u64)
    requires
        a <= b,
        key_prefix(a, 8) == key_prefix(b, 8),
    ensures
        key_slot(a, 8) <= key_slot(b, 8),
{
    assert(a <= b && a & (!0u64 << 24u64) == b & (!0u64 << 24u64) ==> (a >> 18u64) & 63u64 <= (b
        >> 18u64) & 63u64) by (bit_vector);
}

/// Entries that all lie in the cell `cell` form one run up to the layer's end.
pub proof fn lemma_single_run(layer: Seq<(u64, Node)>, scale: int, cell: u64, i: int)
    requires
        0 <= i <= layer.len(),
        forall|j: int| 0 <= j < layer.len() ==> #[trigger] key_prefix(layer[j].0, scale) == cell,
    ensures
        run_end(layer, scale, cell, i) == layer.len(),
    decreases layer.len() - i,
{
    if i < layer.len() {
        lemma_single_run(layer, scale, cell, i + 1);
    }
}

/// Positions whose coordinates agree above bit `scale` have keys in one
/// cell of that scale, so the merge puts what stands at them under one
/// parent.
pub proof fn lemma_cell_of_positions(a: Position, b: Position, scale: int)
    requires
        0 <= scale <= 20,
        scale % 2 == 0,
        a.x >> (scale as u32) == b.x >> (scale as u32),
        a.y >> (scale as u32) == b.y >> (scale as u32),
        a.z >> (scale as u32) == b.z >> (scale as u32),
    ensures
        key_prefix(morton_key(a), scale) == key_prefix(morton_key(b), scale),
{
    let level: u64 = (scale / 2) as u64;
    assert((2 * level) as u32 == scale as u32);
    lemma_key_grouping(a, b, level);
    let (ka, kb) = (morton_key(a), morton_key(b));
    let s: u64 = (3 * scale) as u64;
    assert(s == (6 * level) as u64);
    assert(s < 64 && ka >> s == kb >> s ==> ka & (!0u64 << s) == kb & (!0u64 << s))
        by (bit_vector);
}

/// Whether every node of a layer has a bit of its mask set and is no leaf.
pub open spec fn all_occupied(layer: Seq<(u64, Node)>) -> bool {
    forall|i: int|
        0 <= i < layer.len() ==> (#[trigger] layer[i]).1.pop_mask() != 0 && !layer[i].1.leaf()
}

/// The mask of a run with an entry is not zero.
pub proof fn lemma_run_mask_nonzero(layer: Seq<(u64, Node)>, scale: int, from: int, to: int)
    requires
        0 <= from < to <= layer.len(),
    ensures
        run_mask(layer, scale, from, to) != 0,
{
    let slot = key_slot(layer[to - 1].0, scale);
    let rest = run_mask(layer, scale, from, to - 1);
    lemma_key_slot_bound(layer[to - 1].0, scale);
    lemma_set_bit(rest, slot, slot);
    crate::bits::lemma_zero_mask(rest | single_bit(slot));
    assert(bit_set(rest | single_bit(slot), slot));
}

/// Every parent has a bit of its mask set and is no leaf.
pub proof fn lemma_parents_occupied(layer: Seq<(u64, Node)>, scale: int, base: nat, start: int)
    requires
        0 <= start <= layer.len(),
    ensures
        all_occupied(parents(layer, scale, base, start)),
    decreases layer.len() - start,
{
    if start < layer.len() {
        let cell = key_prefix(layer[start].0, scale);
        let end = run_end(layer, scale, cell, start + 1);
        lemma_run_end_bounds(layer, scale, cell, start + 1);
        lemma_parents_occupied(layer, scale, base, end);
        lemma_run_mask_nonzero(layer, scale, start, end);
        lemma_node_fields((base + start) as nat, false, run_mask(layer, scale, start, end));
        let rest = parents(layer, scale, base, end);
        let all = parents(layer, scale, base, start);
        assert forall|i: int| 0 <= i < all.len() implies (#[trigger] all[i]).1.pop_mask() != 0
            && !all[i].1.leaf() by {
            if i > 0 {
                assert(all[i] == rest[i - 1]);
            }
        }
    }
}

/// Merging chunk roots that each have a bit set and are no leaves gives a
/// root with a bit set that is no leaf: a tree with a voxel has a root that
/// shows it.
pub proof fn lemma_merge_occupied(
    layer: Seq<(u64, Node)>,
    pool: Seq<Node>,
    scale: int,
    root_scale: int,
)
    requires
        layer.len() > 0,
        all_occupied(layer),
    ensures
        all_occupied(merge_from(layer, pool, scale, root_scale).layer),
        merge_from(layer, pool, scale, root_scale).layer.len() > 0,
        scale == 8 ==> tlas_root(layer, pool, root_scale).pop_mask() != 0 && !tlas_root(
            layer,
            pool,
            root_scale,
        ).leaf(),
    decreases 32 - scale,
{
    if scale <= 30 && (scale <= root_scale || layer.len() > 1) {
        let m = merge_level(layer, pool, scale);
        lemma_parents_nonempty(layer, scale, pool.len(), 0);
        lemma_parents_occupied(layer, scale, pool.len(), 0);
        lemma_merge_occupied(m.layer, m.pool, scale + 2, root_scale);
    }
}

/// Whether a layer's keys ascend, equal keys allowed.
pub open spec fn keys_ascend(layer: Seq<(u64, Node)>) -> bool {
    forall|i: int, j: int| 0 <= i <= j < layer.len() ==> layer[i].0 <= layer[j].0
}

/// Whether a layer's keys ascend strictly: no key stands twice.
pub open spec fn keys_ascend_strictly(layer: Seq<(u64, Node)>) -> bool {
    forall|i: int, j: int| 0 <= i < j < layer.len() ==> layer[i].0 < layer[j].0
}

/// The cell of a greater key is no lesser cell.
pub proof fn lemma_prefix_monotone(a: u64, b: u64, scale: int)
    requires
        a <= b,
        0 <= scale,
    ensures
        key_prefix(a, scale) <= key_prefix(b, scale),
{
    if 3 * scale < 64 {
        let s: u64 = (3 * scale) as u64;
        assert(a <= b && s < 64 ==> a & (!0u64 << s) <= b & (!0u64 << s)) by (bit_vector);
    }
}

/// The entry at which a run ends, if there is one, lies in another cell.
pub proof fn lemma_run_end_leaves_cell(layer: Seq<(u64, Node)>, scale: int, cell: u64, i: int)
    requires
        0 <= i <= layer.len(),
    ensures
        run_end(layer, scale, cell, i) < layer.len() ==> key_prefix(
            layer[run_end(layer, scale, cell, i)].0,
            scale,
        ) != cell,
    decreases layer.len() - i,
{
    if i < layer.len() && key_prefix(layer[i].0, scale) == cell {
        lemma_run_end_leaves_cell(layer, scale, cell, i + 1);
    }
}

/// The parents of a layer whose keys ascend have keys that ascend strictly,
/// none below the cell of the entry they start from: in a sorted layer each
/// cell forms one run and gets one parent.
pub proof fn lemma_parents_ascend(layer: Seq<(u64, Node)>, scale: int, base: nat, start: int)
    requires
        keys_ascend(layer),
        0 <= scale,
        0 <= start <= layer.len(),
    ensures
        keys_ascend_strictly(parents(layer, scale, base, start)),
        forall|i: int|
            0 <= i < parents(layer, scale, base, start).len() ==> key_prefix(
                layer[start].0,
                scale,
            ) <= (#[trigger] parents(layer, scale, base, start)[i]).0,
    decreases layer.len() - start,
{
    if start < layer.len() {
        let cell = key_prefix(layer[start].0, scale);
        let end = run_end(layer, scale, cell, start + 1);
        lemma_run_end_bounds(layer, scale, cell, start + 1);
        lemma_run_end_leaves_cell(layer, scale, cell, start + 1);
        lemma_parents_ascend(layer, scale, base, end);
        let rest = parents(layer, scale, base, end);
        let all = parents(layer, scale, base, start);
        if end < layer.len() {
            lemma_prefix_monotone(layer[start].0, layer[end].0, scale);
        }
        assert forall|i: int| 0 <= i < all.len() implies cell <= (#[trigger] all[i]).0 by {
            if i > 0 {
                assert(all[i] == rest[i - 1]);
            }
        }
        assert forall|i: int, j: int| 0 <= i < j < all.len() implies all[i].0 < all[j].0 by {
            assert(all[j] == rest[j - 1]);
            if i > 0 {
                assert(all[i] == rest[i - 1]);
            }
        }
    }
}

/// Chunk roots that all lie in one cell of the first merge scale merge, where
/// the merge builds exactly that one level, into one parent: it points at
/// the roots, appended to the pool in their order, and its mask holds the
/// slot of each.
pub proof fn lemma_single_cell_merge(
    chunk_roots: Seq<(u64, Node)>,
    pool: Seq<Node>,
    root_scale: int,
)
    requires
        chunk_roots.len() > 0,
        forall|j: int|
            0 <= j < chunk_roots.len() ==> #[trigger] key_prefix(chunk_roots[j].0, 8) == key_prefix(
                chunk_roots[0].0,
                8,
            ),
        root_scale == 8 || (root_scale < 8 && chunk_roots.len() > 1),
    ensures
        tlas_root(chunk_roots, pool, root_scale) == node_of(
            ptr_word(pool.len()),
            false,
            run_mask(chunk_roots, 8, 0, chunk_roots.len() as int),
        ),
        tlas_pool(chunk_roots, pool, root_scale) == pool + nodes_of(chunk_roots),
{
    let cell = key_prefix(chunk_roots[0].0, 8);
    let n = chunk_roots.len() as int;
    lemma_single_run(chunk_roots, 8, cell, 1);
    let mask = run_mask(chunk_roots, 8, 0, n);
    let m = merge_level(chunk_roots, pool, 8);
    assert(parents(chunk_roots, 8, pool.len(), n) =~= Seq::empty());
    assert(m.layer =~= seq![(cell, node_of(ptr_word(pool.len()), false, mask))]);
    assert(merge_from(chunk_roots, pool, 8, root_scale) == merge_from(
        m.layer,
        m.pool,
        10,
        root_scale,
    ));
    assert(merge_from(m.layer, m.pool, 10, root_scale) == m);
}

/// Chunk roots that lie in one cell of the first merge scale and take
/// pairwise distinct slots in it merge into a root whose mask has one bit
/// set per chunk root, provided that the merge builds exactly that one
/// level: `root_scale` is the first merge scale, or lies below it with more
/// than one chunk root given.
pub proof fn lemma_merge_convergence(
    chunk_roots: Seq<(u64, Node)>,
    pool: Seq<Node>,
    root_scale: int,
)
    requires
        chunk_roots.len() > 0,
        forall|j: int|
            0 <= j < chunk_roots.len() ==> #[trigger] key_prefix(chunk_roots[j].0, 8) == key_prefix(
                chunk_roots[0].0,
                8,
            ),
        forall|i: int, j: int|
            0 <= i < j < chunk_roots.len() ==> #[trigger] key_slot(chunk_roots[i].0, 8)
                != #[trigger] key_slot(chunk_roots[j].0, 8),
        root_scale == 8 || (root_scale < 8 && chunk_roots.len() > 1),
    ensures
        popcount(tlas_root(chunk_roots, pool, root_scale).pop_mask()) == chunk_roots.len(),
        !tlas_root(chunk_roots, pool, root_scale).leaf(),
        tlas_pool(chunk_roots, pool, root_scale) == pool + nodes_of(chunk_roots),
        pool.len() <= crate::config::MAX_CHILD_PTR ==> tlas_root(
            chunk_roots,
            pool,
            root_scale,
        ).child_ptr() == pool.len(),
{
    let n = chunk_roots.len() as int;
    lemma_single_cell_merge(chunk_roots, pool, root_scale);
    lemma_run_mask_count(chunk_roots, 8, 0, n);
    lemma_node_fields(pool.len(), false, run_mask(chunk_roots, 8, 0, n));
}

/// Merges the chunk roots into one tree: level by level from scale 8, the
/// nodes of each level are appended to the pool and replaced by their
/// parents, until one node is left and the scale has passed `root_scale`, or
/// the scale has passed 30. Returns the first node of the last layer.
pub fn build_tlas(chunk_roots: Vec<(u64, Node)>, node_pool: &mut Vec<Node>, root_scale: i32) -> (root:
    Node)
    ensures
        root == tlas_root(chunk_roots@, old(node_pool)@, root_scale as int),
        final(node_pool)@ == tlas_pool(chunk_roots@, old(node_pool)@, root_scale as int),
        old(node_pool)@.is_prefix_of(final(node_pool)@),
{
    if chunk_roots.len() == 0 {
        return Node::new_empty();
    }
    proof {
        lemma_merge_from(chunk_roots@, node_pool@, 8, root_scale as int);
    }
    let ghost roots = chunk_roots@;
    let ghost pool0 = node_pool@;
    let mut layer_nodes: Vec<(u64, Node)> = chunk_roots;
    let mut current_scale: i32 = FIRST_MERGE_SCALE;
    while current_scale <= MAX_MERGE_SCALE && (current_scale <= root_scale || layer_nodes.len() > 1)
        invariant
            8 <= current_scale <= 32,
            layer_nodes@.len() > 0,
            merge_from(layer_nodes@, node_pool@, current_scale as int, root_scale as int)
                == merge_from(roots, pool0, 8, root_scale as int),
        decreases 32 - current_scale,
    {
        proof {
            lemma_parents_nonempty(layer_nodes@, current_scale as int, node_pool@.len(), 0);
        }
        let next_layer: Vec<(u64, Node)> = merge_layer(&layer_nodes, node_pool, current_scale);
        layer_nodes = next_layer;
        current_scale += 2;
    }
    layer_nodes[0].1
}

} // verus!
