use crate::key::{slot_position, Position};
use std::collections::HashMap;
use vstd::prelude::*;
use vstd::std_specs::hash::group_hash_axioms;

verus! {

broadcast use group_hash_axioms;

/// Edge length of a chunk, in voxels.
pub const CHUNK_SIZE: i32 = 64;

/// Edge length of a brick of this store, in voxels.
pub const BRICK_SIZE: i32 = 8;

/// A material id; 0 is the empty voxel.
#[derive(Clone, Copy, PartialEq, Eq, Debug, Structural)]
pub struct Voxel(pub u32);

impl Voxel {
    /// The empty voxel.
    pub fn empty() -> (v: Voxel)
        ensures
            v == Voxel(0),
    {
        Voxel(0)
    }

    pub fn is_empty(&self) -> (r: bool)
        ensures
            r == (self.0 == 0),
    {
        self.0 == 0
    }
}

impl Default for Voxel {
    fn default() -> (v: Self)
        ensures
            v == Voxel(0),
    {
        Voxel(0)
    }
}

/// An 8x8x8 grid of voxels. The voxel at offset `(x, y, z)` is held at
/// index `x + 8 z + 64 y`.
pub struct Brick {
    pub data: Box<[Voxel; 512]>,
}

/// The index of the voxel whose coordinates have `x`, `y`, `z` as their low
/// three bits.
pub open spec fn brick_slot(x: i32, y: i32, z: i32) -> int {
    (x & 7i32) + (z & 7i32) * 8 + (y & 7i32) * 64
}

/// The low three bits of a coordinate are a number from 0 to 7, and a
/// coordinate is told by them and the bits above.
proof fn lemma_low_bits(a: i32, b: i32)
    ensures
        0 <= (a & 7i32) < 8,
        0 <= (b & 7i32) < 8,
        (a & 7i32) & 7i32 == a & 7i32,
        (b & 7i32) & 7i32 == b & 7i32,
        a >> 3u32 == b >> 3u32 && (a & 7i32) == (b & 7i32) ==> a == b,
{
    assert(0 <= (a & 7i32) < 8 && (a & 7i32) & 7i32 == a & 7i32 && 0 <= (b & 7i32) < 8 && (b & 7i32)
        & 7i32 == b & 7i32 && (a >> 3u32 == b >> 3u32 && (a & 7i32) == (b & 7i32) ==> a == b))
        by (bit_vector);
}

impl Default for Brick {
    fn default() -> (b: Self)
        ensures
            b.is_blank(),
    {
        Brick { data: Box::new([Voxel(0);512]) }
    }
}

impl Brick {
    /// The brick's voxels by index.
    pub open spec fn voxels(&self) -> Seq<Voxel> {
        (*self.data)@
    }

    /// Whether every voxel of the brick is empty.
    pub open spec fn is_blank(&self) -> bool {
        forall|i: int| 0 <= i < 512 ==> #[trigger] self.voxels()[i] == Voxel(0)
    }

    pub fn get(&self, x: i32, y: i32, z: i32) -> (v: Voxel)
        ensures
            v == self.voxels()[brick_slot(x, y, z)],
    {
        let idx: usize = Self::get_index(x, y, z);
        self.data[idx]
    }

    pub fn set(&mut self, x: i32, y: i32, z: i32, val: Voxel)
        ensures
            final(self).voxels() == old(self).voxels().update(brick_slot(x, y, z), val),
    {
        let idx: usize = Self::get_index(x, y, z);
        self.data[idx] = val;
    }

    fn get_index(x: i32, y: i32, z: i32) -> (i: usize)
        ensures
            i == brick_slot(x, y, z),
            i < 512,
    {
        proof {
            lemma_low_bits(x, y);
            lemma_low_bits(z, z);
        }
        ((x & (BRICK_SIZE - 1)) + (z & (BRICK_SIZE - 1)) * BRICK_SIZE + (y & (BRICK_SIZE - 1))
            * BRICK_SIZE * BRICK_SIZE) as usize
    }
}

/// The stored bricks by the key of their brick coordinate, and the chunks
/// marked dirty.
pub struct VoxelMap {
    pub bricks: HashMap<u128, Brick>,
    pub dirty_chunks: HashMap<u128, u64>,
}

/// The map key of a coordinate triple: the three coordinates, each moved
/// into the unsigned range, side by side in 32 bits each.
pub open spec fn brick_key(pos: Position) -> u128 {
    ((pos.x + 0x8000_0000) + (pos.y + 0x8000_0000) * 0x1_0000_0000 + (pos.z + 0x8000_0000)
        * 0x1_0000_0000_0000_0000) as u128
}

/// Different coordinate triples have different keys.
pub proof fn lemma_brick_key_injective(a: Position, b: Position)
    requires
        brick_key(a) == brick_key(b),
    ensures
        a == b,
{
}

/// The coordinate of the brick that holds the voxel at `pos`.
pub open spec fn brick_of(pos: Position) -> Position {
    Position { x: pos.x >> 3u32, y: pos.y >> 3u32, z: pos.z >> 3u32 }
}

/// Computes the map key of a coordinate triple.
pub fn key_of(pos: Position) -> (k: u128)
    ensures
        k == brick_key(pos),
{
    let x: u128 = (pos.x as i64 + 0x8000_0000) as u128;
    let y: u128 = (pos.y as i64 + 0x8000_0000) as u128;
    let z: u128 = (pos.z as i64 + 0x8000_0000) as u128;
    x + y * 0x1_0000_0000 + z * 0x1_0000_0000_0000_0000
}

impl Default for VoxelMap {
    fn default() -> (m: Self)
        ensures
            m.bricks@ == Map::<u128, Brick>::empty(),
            m.dirty_chunks@ == Map::<u128, u64>::empty(),
    {
        VoxelMap { bricks: HashMap::new(), dirty_chunks: HashMap::new() }
    }
}

impl VoxelMap {
    /// The 64 materials, by slot, of the 4x4x4 block at `pos`.
    pub open spec fn slots_at(&self, pos: Position) -> Seq<u32> {
        Seq::new(64, |i: int| self.voxel_at(slot_position(pos, i)).0)
    }

    /// What a tree builder reads of this map.
    pub open spec fn cells(&self) -> spec_fn(Position) -> Seq<u32> {
        |pos: Position| self.slots_at(pos)
    }

    /// The voxel at `pos`: that of the stored brick that holds it, or the
    /// empty voxel where no brick is stored.
    pub open spec fn voxel_at(&self, pos: Position) -> Voxel {
        let k = brick_key(brick_of(pos));
        if self.bricks@.contains_key(k) {
            self.bricks@[k].voxels()[brick_slot(pos.x, pos.y, pos.z)]
        } else {
            Voxel(0)
        }
    }

    /// The brick stored at the brick coordinate `pos`, if any.
    pub fn get_brick(&self, pos: Position) -> (r: Option<&Brick>)
        ensures
            r.is_some() == self.bricks@.contains_key(brick_key(pos)),
            r.is_some() ==> *r.unwrap() == self.bricks@[brick_key(pos)],
    {
        let k: u128 = key_of(pos);
        self.bricks.get(&k)
    }

    /// The brick stored at the brick coordinate `pos`, after a blank brick
    /// was stored there if none was.
    pub fn get_brick_mut(&mut self, pos: Position) -> (r: &mut Brick)
        ensures
            old(self).bricks@.contains_key(brick_key(pos)) ==> *r == old(self).bricks@[brick_key(
                pos,
            )],
            !old(self).bricks@.contains_key(brick_key(pos)) ==> r.is_blank(),
            final(self).bricks@ == old(self).bricks@.insert(brick_key(pos), *final(r)),
            final(self).dirty_chunks == old(self).dirty_chunks,
    {
        let k: u128 = key_of(pos);
        self.bricks.entry(k).or_insert(Brick::default())
    }

    /// Stores `val` at `pos`; no other voxel changes.
    pub fn set_voxel(&mut self, pos: Position, val: Voxel)
        ensures
            final(self).voxel_at(pos) == val,
            forall|p: Position| p != pos ==> #[trigger] final(self).voxel_at(p) == old(self).voxel_at(p),
            final(self).dirty_chunks == old(self).dirty_chunks,
    {
        let brick_pos: Position = Position { x: pos.x >> 3, y: pos.y >> 3, z: pos.z >> 3 };
        let (sx, sy, sz): (i32, i32, i32) = (pos.x & 7, pos.y & 7, pos.z & 7);
        let ghost before = *self;
        let brick = self.get_brick_mut(brick_pos);
        brick.set(sx, sy, sz, val);
        proof {
            lemma_low_bits(pos.x, pos.y);
            lemma_low_bits(pos.z, pos.z);
            assert(brick_slot(sx, sy, sz) == brick_slot(pos.x, pos.y, pos.z));
            assert forall|p: Position| p != pos implies #[trigger] self.voxel_at(p) == before.voxel_at(
                p,
            ) by {
                lemma_low_bits(p.x, pos.x);
                lemma_low_bits(p.y, pos.y);
                lemma_low_bits(p.z, pos.z);
                if brick_key(brick_of(p)) == brick_key(brick_of(pos)) {
                    lemma_brick_key_injective(brick_of(p), brick_of(pos));
                }
            }
        }
    }

    /// Reads the voxel at `pos`.
    pub fn get_voxel(&self, pos: Position) -> (v: Voxel)
        ensures
            v == self.voxel_at(pos),
    {
        let brick_pos: Position = Position { x: pos.x >> 3, y: pos.y >> 3, z: pos.z >> 3 };
        let (sx, sy, sz): (i32, i32, i32) = (pos.x & 7, pos.y & 7, pos.z & 7);
        proof {
            lemma_low_bits(pos.x, pos.y);
            lemma_low_bits(pos.z, pos.z);
        }
        match self.get_brick(brick_pos) {
            Some(brick) => brick.get(sx, sy, sz),
            None => Voxel(0),
        }
    }
}

} // verus!
