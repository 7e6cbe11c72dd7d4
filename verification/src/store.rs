use crate::bits::{bit_set, count_bits, lemma_count_bits_set, lemma_count_bits_zero, lemma_set_bit, popcount, single_bit};
use crate::key::{slot_position, Position};
use bevy::platform::collections::HashMap;
use bevy::platform::hash::FixedHasher;
use vstd::prelude::*;

verus! {

/// `bevy::platform::collections::HashMap`, carried as an opaque value.
#[verifier::external_type_specification]
#[verifier::external_body]
#[verifier::reject_recursive_types(K)]
#[verifier::reject_recursive_types(V)]
#[verifier::reject_recursive_types(S)]
pub struct ExHashMap<K, V, S>(HashMap<K, V, S>);

/// `bevy::platform::hash::FixedHasher`, the map's default hasher.
#[verifier::external_type_specification]
#[verifier::external_body]
pub struct ExFixedHasher(FixedHasher);

/// A 4x4x4 grid of material ids, 0 for empty. The voxel at offset
/// `(cx, cy, cz)` from the brick's origin is held at slot `cx + 4 cz + 16 cy`.
#[derive(Clone, Copy, Debug)]
pub struct Brick {
    pub voxels: [u8; 64],
}

/// The bricks of one sector, by brick index.
pub struct Sector {
    pub bricks: HashMap<u32, Brick>,
}

/// The sparse voxel volume: its populated sectors, by sector coordinate
/// `(x, y, z)`.
pub struct VoxelWorld {
    pub sectors: HashMap<(i32, i32, i32), Sector>,
}

/// The entries that a sector map holds.
pub uninterp spec fn sector_entries(m: HashMap<(i32, i32, i32), Sector>) -> Map<
    (i32, i32, i32),
    Sector,
>;

/// The entries that a brick map holds.
pub uninterp spec fn brick_entries(m: HashMap<u32, Brick>) -> Map<u32, Brick>;

/// `HashMap::new` of bevy's platform collections: a map without entries.
#[verifier::external_body]
pub(crate) fn sector_map_new() -> (m: HashMap<(i32, i32, i32), Sector>)
    ensures
        forall|k: (i32, i32, i32)| !sector_entries(m).contains_key(k),
{
    HashMap::new()
}

/// `HashMap::get` on a sector map: the sector stored under `key`, if one is.
#[verifier::external_body]
pub(crate) fn sector_get<'a>(m: &'a HashMap<(i32, i32, i32), Sector>, key: (i32, i32, i32)) -> (r:
    Option<&'a Sector>)
    ensures
        r.is_some() == sector_entries(*m).contains_key(key),
        r.is_some() ==> *r.unwrap() == sector_entries(*m)[key],
{
    m.get(&key)
}

/// `HashMap::is_empty` on a sector map: whether no key is stored.
#[verifier::external_body]
pub(crate) fn sector_map_is_empty(m: &HashMap<(i32, i32, i32), Sector>) -> (r: bool)
    ensures
        r == (forall|k: (i32, i32, i32)| !sector_entries(*m).contains_key(k)),
{
    m.is_empty()
}

/// `HashMap::iter` on a sector map, keeping the keys: every stored key once,
/// in the order in which the map is walked, of which nothing is claimed.
#[verifier::external_body]
pub(crate) fn sector_keys(m: &HashMap<(i32, i32, i32), Sector>) -> (r: Vec<(i32, i32, i32)>)
    ensures
        r@.no_duplicates(),
        forall|k: (i32, i32, i32)|
            #![trigger r@.contains(k)]
            #![trigger sector_entries(*m).contains_key(k)]
            r@.contains(k) <==> sector_entries(*m).contains_key(k),
{
    m.iter().map(|(k, _)| *k).collect()
}

/// `HashMap::new` of bevy's platform collections: a brick map without entries.
#[verifier::external_body]
pub(crate) fn brick_map_new() -> (m: HashMap<u32, Brick>)
    ensures
        forall|k: u32| !brick_entries(m).contains_key(k),
{
    HashMap::new()
}

/// `HashMap::entry` followed by `Entry::or_insert` on a sector map: a
/// reference to the sector stored under `key`, after `fresh` was stored
/// there if none was. No other entry changes.
#[verifier::external_body]
pub(crate) fn sector_or_insert<'a>(
    m: &'a mut HashMap<(i32, i32, i32), Sector>,
    key: (i32, i32, i32),
    fresh: Sector,
) -> (r: &'a mut Sector)
    ensures
        *r == (if sector_entries(*old(m)).contains_key(key) {
            sector_entries(*old(m))[key]
        } else {
            fresh
        }),
        sector_entries(*final(m)) == sector_entries(*old(m)).insert(key, *final(r)),
{
    m.entry(key).or_insert(fresh)
}

/// `HashMap::entry` followed by `Entry::or_insert` on a brick map: a
/// reference to the brick stored under `idx`, after `fresh` was stored there
/// if none was. No other entry changes.
#[verifier::external_body]
pub(crate) fn brick_or_insert<'a>(m: &'a mut HashMap<u32, Brick>, idx: u32, fresh: Brick) -> (r:
    &'a mut Brick)
    ensures
        *r == (if brick_entries(*old(m)).contains_key(idx) {
            brick_entries(*old(m))[idx]
        } else {
            fresh
        }),
        brick_entries(*final(m)) == brick_entries(*old(m)).insert(idx, *final(r)),
{
    m.entry(idx).or_insert(fresh)
}

/// `HashMap::get` on a brick map: the brick stored under `idx`, if one is.
#[verifier::external_body]
pub(crate) fn brick_get<'a>(m: &'a HashMap<u32, Brick>, idx: u32) -> (r: Option<&'a Brick>)
    ensures
        r.is_some() == brick_entries(*m).contains_key(idx),
        r.is_some() ==> *r.unwrap() == brick_entries(*m)[idx],
{
    m.get(&idx)
}

/// The sector coordinate that holds `pos`: each coordinate without its low
/// six bits.
pub open spec fn sector_of(pos: Position) -> (i32, i32, i32) {
    (pos.x >> 6u32, pos.y >> 6u32, pos.z >> 6u32)
}

/// The index within its sector of the brick that holds `pos`: bits 2 to 5
/// of x, then of y, then of z.
pub open spec fn brick_index(pos: Position) -> u32 {
    (((pos.x >> 2u32) & 15i32) + ((pos.y >> 2u32) & 15i32) * 16 + ((pos.z >> 2u32) & 15i32)
        * 256) as u32
}

/// The slot within its brick of the voxel at `pos`: the low two bits of x,
/// then of z, then of y.
pub open spec fn voxel_index(pos: Position) -> int {
    (pos.x & 3i32) + (pos.z & 3i32) * 4 + (pos.y & 3i32) * 16
}

/// Sector, brick index and slot together tell positions apart.
pub proof fn lemma_address_injective(p: Position, q: Position)
    requires
        sector_of(p) == sector_of(q),
        brick_index(p) == brick_index(q),
        voxel_index(p) == voxel_index(q),
    ensures
        p == q,
{
    lemma_coordinate_parts(p.x, q.x);
    lemma_coordinate_parts(p.y, q.y);
    lemma_coordinate_parts(p.z, q.z);
}

/// The three parts of a coordinate are in range and determine it.
proof fn lemma_coordinate_parts(a: i32, b: i32)
    ensures
        0 <= ((a >> 2u32) & 15i32) < 16,
        0 <= ((b >> 2u32) & 15i32) < 16,
        0 <= (a & 3i32) < 4,
        0 <= (b & 3i32) < 4,
        a >> 6u32 == b >> 6u32 && ((a >> 2u32) & 15i32) == ((b >> 2u32) & 15i32) && (a & 3i32) == (b
            & 3i32) ==> a == b,
{
    assert(0 <= ((a >> 2u32) & 15i32) < 16 && 0 <= (a & 3i32) < 4 && 0 <= ((b >> 2u32) & 15i32) < 16
        && 0 <= (b & 3i32) < 4 && (a >> 6u32 == b >> 6u32 && ((a >> 2u32) & 15i32) == ((b >> 2u32)
        & 15i32) && (a & 3i32) == (b & 3i32) ==> a == b)) by (bit_vector);
}

/// Whether each coordinate of `pos` is a multiple of 4: the origin of a brick.
pub open spec fn brick_aligned(pos: Position) -> bool {
    pos.x & 3i32 == 0 && pos.y & 3i32 == 0 && pos.z & 3i32 == 0
}

/// The origin of the brick that holds `pos`.
pub open spec fn brick_origin(pos: Position) -> Position {
    Position { x: pos.x & !3i32, y: pos.y & !3i32, z: pos.z & !3i32 }
}

/// A coordinate `c` steps from a multiple of 4 stays in the same sector
/// and brick, and has `c` as its slot part.
proof fn lemma_step_in_brick(a: i32, c: int)
    requires
        a & 3i32 == 0,
        0 <= c < 4,
    ensures
        a + c <= 0x7FFF_FFFF,
        ((a + c) as i32) >> 6u32 == a >> 6u32,
        (((a + c) as i32) >> 2u32) & 15i32 == (a >> 2u32) & 15i32,
        ((a + c) as i32) & 3i32 == c,
{
    let d: i32 = c as i32;
    assert(a & 3i32 == 0 && 0 <= d && d < 4 ==> a + d <= 0x7FFF_FFFF && ((a + d) as i32) >> 6u32
        == a >> 6u32 && (((a + d) as i32) >> 2u32) & 15i32 == (a >> 2u32) & 15i32 && ((a + d) as i32)
        & 3i32 == d) by (bit_vector);
}

/// A coordinate and the multiple of 4 at or below it lie in the same
/// sector and brick.
proof fn lemma_origin_in_brick(a: i32)
    ensures
        (a & !3i32) & 3i32 == 0,
        (a & !3i32) >> 6u32 == a >> 6u32,
        ((a & !3i32) >> 2u32) & 15i32 == (a >> 2u32) & 15i32,
        a - 3 <= (a & !3i32) <= a,
{
    assert((a & !3i32) & 3i32 == 0 && (a & !3i32) >> 6u32 == a >> 6u32 && ((a & !3i32) >> 2u32)
        & 15i32 == (a >> 2u32) & 15i32 && a - 3 <= (a & !3i32) && (a & !3i32) <= a)
        by (bit_vector);
}

/// Slot `j` of the brick at a brick origin holds the voxel at the slot's
/// position.
pub proof fn lemma_slot_voxel(world: VoxelWorld, pos: Position, j: int)
    requires
        brick_aligned(pos),
        0 <= j < 64,
    ensures
        world.slots_at(pos)[j] == world.voxel_at(slot_position(pos, j)) as u32,
        sector_of(slot_position(pos, j)) == sector_of(pos),
        brick_index(slot_position(pos, j)) == brick_index(pos),
        voxel_index(slot_position(pos, j)) == j,
{
    lemma_step_in_brick(pos.x, j % 4);
    lemma_step_in_brick(pos.y, (j / 16) % 4);
    lemma_step_in_brick(pos.z, (j / 4) % 4);
}

/// A brick with an occupied slot holds a voxel: at the position of one of
/// its slots the world's voxel is not empty.
pub proof fn lemma_occupied_brick(world: VoxelWorld, pos: Position) -> (j: int)
    requires
        brick_aligned(pos),
        occupancy(world.slots_at(pos), 64) != 0,
    ensures
        0 <= j < 64,
        world.voxel_at(slot_position(pos, j)) != 0,
        world.voxel_at(slot_position(pos, j)) as u32 == world.slots_at(pos)[j],
{
    let mask = occupancy(world.slots_at(pos), 64);
    lemma_occupancy_bits(world.slots_at(pos), 64);
    crate::bits::lemma_zero_mask(mask);
    let k = choose|k: nat| k < 64 && bit_set(mask, k);
    lemma_slot_voxel(world, pos, k as int);
    k as int
}

/// Every position has the slots of the brick at its brick's origin, and
/// the origin is a brick origin.
pub proof fn lemma_brick_origin(world: VoxelWorld, pos: Position)
    ensures
        brick_aligned(brick_origin(pos)),
        world.slots_at(pos) == world.slots_at(brick_origin(pos)),
        pos.x - 3 <= brick_origin(pos).x <= pos.x,
        pos.y - 3 <= brick_origin(pos).y <= pos.y,
        pos.z - 3 <= brick_origin(pos).z <= pos.z,
{
    lemma_origin_in_brick(pos.x);
    lemma_origin_in_brick(pos.y);
    lemma_origin_in_brick(pos.z);
}

impl VoxelWorld {
    /// The material of the voxel at `pos`, 0 where the world stores no brick.
    pub open spec fn voxel_at(&self, pos: Position) -> u8 {
        match self.brick_at(pos) {
            Some(brick) => brick.voxels@[voxel_index(pos)],
            None => 0,
        }
    }

    /// Stores `material` at `pos`, with a new sector and a new brick of
    /// empty voxels where the world had none there. No other voxel changes.
    pub fn set_voxel(&mut self, pos: Position, material: u8)
        ensures
            final(self).voxel_at(pos) == material,
            forall|p: Position| p != pos ==> #[trigger] final(self).voxel_at(p) == old(self).voxel_at(p),
            forall|p: Position| #[trigger]
                final(self).brick_at(p).is_some() == (old(self).brick_at(p).is_some() || (sector_of(p)
                    == sector_of(pos) && brick_index(p) == brick_index(pos))),
            forall|k: (i32, i32, i32)| #[trigger]
                sector_entries(final(self).sectors).contains_key(k) == (sector_entries(
                    old(self).sectors,
                ).contains_key(k) || k == sector_of(pos)),
    {
        let sector_pos: (i32, i32, i32) = (pos.x >> 6, pos.y >> 6, pos.z >> 6);
        let lx: i32 = (pos.x >> 2) & 15;
        let ly: i32 = (pos.y >> 2) & 15;
        let lz: i32 = (pos.z >> 2) & 15;
        let vx: i32 = pos.x & 3;
        let vy: i32 = pos.y & 3;
        let vz: i32 = pos.z & 3;
        proof {
            lemma_coordinate_parts(pos.x, pos.y);
            lemma_coordinate_parts(pos.z, pos.z);
        }
        let brick_idx: u32 = (lx + ly * 16 + lz * 256) as u32;
        let v_idx: usize = (vx + vz * 4 + vy * 16) as usize;
        let ghost before = *self;
        let sector = sector_or_insert(&mut self.sectors, sector_pos, Sector { bricks: brick_map_new() });
        let ghost old_bricks = brick_entries(sector.bricks);
        let brick = brick_or_insert(&mut sector.bricks, brick_idx, Brick { voxels: [0u8; 64] });
        let ghost old_brick = *brick;
        brick.voxels[v_idx] = material;
        proof {
            assert forall|p: Position| p != pos implies #[trigger] self.voxel_at(p) == before.voxel_at(
                p,
            ) by {
                if sector_of(p) == sector_of(pos) && brick_index(p) == brick_index(pos) {
                    if voxel_index(p) == voxel_index(pos) {
                        lemma_address_injective(p, pos);
                    }
                    lemma_coordinate_parts(p.x, p.y);
                    lemma_coordinate_parts(p.z, p.z);
                }
            }
        }
    }

    /// The 64 materials, by slot, of the brick that holds `pos`; all empty
    /// where the world stores no brick.
    pub open spec fn slots_at(&self, pos: Position) -> Seq<u32> {
        match self.brick_at(pos) {
            Some(brick) => brick.slots(),
            None => blank_slots(),
        }
    }

    /// What a tree builder reads of this world.
    pub open spec fn cells(&self) -> spec_fn(Position) -> Seq<u32> {
        |pos: Position| self.slots_at(pos)
    }

    /// The brick that holds `pos`, if the world stores one there.
    pub open spec fn brick_at(&self, pos: Position) -> Option<Brick> {
        let sectors = sector_entries(self.sectors);
        if sectors.contains_key(sector_of(pos)) {
            let bricks = brick_entries(sectors[sector_of(pos)].bricks);
            if bricks.contains_key(brick_index(pos)) {
                Some(bricks[brick_index(pos)])
            } else {
                None
            }
        } else {
            None
        }
    }

    /// Whether the world has no sector at all.
    pub open spec fn has_no_sector(&self) -> bool {
        forall|k: (i32, i32, i32)| !sector_entries(self.sectors).contains_key(k)
    }

    /// Looks up the brick that holds `pos`.
    pub fn get_brick_at(&self, pos: Position) -> (r: Option<&Brick>)
        ensures
            r.is_some() == self.brick_at(pos).is_some(),
            r.is_some() ==> *r.unwrap() == self.brick_at(pos).unwrap(),
    {
        let sector_pos: (i32, i32, i32) = (pos.x >> 6, pos.y >> 6, pos.z >> 6);
        match sector_get(&self.sectors, sector_pos) {
            Some(sector) => {
                let lx: i32 = (pos.x >> 2) & 15;
                let ly: i32 = (pos.y >> 2) & 15;
                let lz: i32 = (pos.z >> 2) & 15;
                proof {
                    let (px, py, pz) = (pos.x, pos.y, pos.z);
                    assert(0 <= ((px >> 2u32) & 15i32) < 16) by (bit_vector);
                    assert(0 <= ((py >> 2u32) & 15i32) < 16) by (bit_vector);
                    assert(0 <= ((pz >> 2u32) & 15i32) < 16) by (bit_vector);
                }
                let brick_idx: u32 = (lx + ly * 16 + lz * 256) as u32;
                brick_get(&sector.bricks, brick_idx)
            },
            None => None,
        }
    }
}

impl Default for VoxelWorld {
    fn default() -> (w: Self)
        ensures
            w.has_no_sector(),
    {
        VoxelWorld { sectors: sector_map_new() }
    }
}

/// The occupancy of the first `n` slots: bit `i` is set exactly when slot
/// `i` holds a material other than 0.
pub open spec fn occupancy(voxels: Seq<u32>, n: nat) -> u64
    decreases n,
{
    if n == 0 {
        0
    } else if voxels[n - 1] != 0 {
        occupancy(voxels, (n - 1) as nat) | single_bit((n - 1) as nat)
    } else {
        occupancy(voxels, (n - 1) as nat)
    }
}

/// The materials of the non-empty slots among the first `n`, in slot order.
pub open spec fn materials(voxels: Seq<u32>, n: nat) -> Seq<u32>
    decreases n,
{
    if n == 0 {
        Seq::empty()
    } else if voxels[n - 1] != 0 {
        materials(voxels, (n - 1) as nat).push(voxels[n - 1])
    } else {
        materials(voxels, (n - 1) as nat)
    }
}

/// Bit `j` of the occupancy of the first `n` slots is set exactly when
/// `j < n` and slot `j` is not empty.
pub proof fn lemma_occupancy_bits(voxels: Seq<u32>, n: nat)
    requires
        n <= 64,
    ensures
        forall|j: nat|
            j < 64 ==> #[trigger] bit_set(occupancy(voxels, n), j) == (j < n && voxels[j as int]
                != 0),
    decreases n,
{
    if n == 0 {
        lemma_count_bits_zero(0);
    } else {
        lemma_occupancy_bits(voxels, (n - 1) as nat);
        assert forall|j: nat| j < 64 implies #[trigger] bit_set(occupancy(voxels, n), j) == (j < n
            && voxels[j as int] != 0) by {
            assert(bit_set(occupancy(voxels, (n - 1) as nat), j) == (j < n - 1 && voxels[j as int]
                != 0));
            lemma_set_bit(occupancy(voxels, (n - 1) as nat), (n - 1) as nat, j);
        }
    }
}

/// As many materials are listed as the occupancy has bits set.
pub proof fn lemma_materials_len(voxels: Seq<u32>, n: nat)
    requires
        n <= 64,
    ensures
        materials(voxels, n).len() == count_bits(occupancy(voxels, n), n),
        materials(voxels, n).len() == count_bits(occupancy(voxels, n), 64),
        materials(voxels, n).len() <= n,
    decreases n,
{
    if n > 0 {
        let prev = occupancy(voxels, (n - 1) as nat);
        lemma_materials_len(voxels, (n - 1) as nat);
        lemma_occupancy_bits(voxels, (n - 1) as nat);
        lemma_count_bits_set(prev, (n - 1) as nat, n);
        lemma_count_bits_set(prev, (n - 1) as nat, 64);
    } else {
        lemma_count_bits_zero(64);
    }
}

/// The 64 slots of a place without a brick: all empty.
pub open spec fn blank_slots() -> Seq<u32> {
    Seq::new(64, |i: int| 0u32)
}

/// Slots that are all empty have no occupancy and no materials.
pub proof fn lemma_blank_slots(voxels: Seq<u32>, n: nat)
    requires
        forall|i: int| 0 <= i < n ==> voxels[i] == 0,
    ensures
        occupancy(voxels, n) == 0,
        materials(voxels, n) == Seq::<u32>::empty(),
    decreases n,
{
    if n > 0 {
        lemma_blank_slots(voxels, (n - 1) as nat);
    }
}

impl Brick {
    /// The brick's 64 materials by slot.
    pub open spec fn slots(&self) -> Seq<u32> {
        Seq::new(64, |i: int| self.voxels@[i] as u32)
    }

    /// The brick's occupancy mask.
    pub open spec fn mask(&self) -> u64 {
        occupancy(self.slots(), 64)
    }

    /// The brick's non-empty materials in slot order.
    pub open spec fn leaf_materials(&self) -> Seq<u32> {
        materials(self.slots(), 64)
    }

    /// Packs the occupancy of the 64 slots into one mask.
    pub fn pack_bits_64(&self) -> (mask: u64)
        ensures
            mask == self.mask(),
            forall|j: nat| j < 64 ==> #[trigger] bit_set(mask, j) == (self.voxels@[j as int] != 0),
            popcount(mask) == self.leaf_materials().len(),
    {
        let mut mask: u64 = 0;
        let mut i: usize = 0;
        while i < 64
            invariant
                i <= 64,
                mask == occupancy(self.slots(), i as nat),
            decreases 64 - i,
        {
            if self.voxels[i] != 0 {
                mask |= 1u64 << (i as u64);
            }
            i += 1;
        }
        proof {
            lemma_occupancy_bits(self.slots(), 64);
            lemma_materials_len(self.slots(), 64);
        }
        mask
    }
}

} // verus!
