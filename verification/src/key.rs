use vstd::prelude::*;

verus! {

/// An integer grid position.
#[derive(Clone, Copy, Debug, PartialEq, Eq, Structural)]
pub struct Position {
    pub x: i32,
    pub y: i32,
    pub z: i32,
}

/// The position of slot `slot` of the 4x4x4 block at `pos`: the slot's low
/// two bits step along x, the next two along z, the upper two along y.
pub open spec fn slot_position(pos: Position, slot: int) -> Position {
    Position {
        x: (pos.x + slot % 4) as i32,
        y: (pos.y + (slot / 16) % 4) as i32,
        z: (pos.z + (slot / 4) % 4) as i32,
    }
}

/// The low 21 bits of a coordinate, the part of it that a key records.
pub open spec fn coord_field(c: i32) -> u64 {
    (c & 0x1F_FFFFi32) as u64
}

/// The first `n` two-bit groups of `v`, group `j` moved from bit `2 j` to bit `6 j`.
pub open spec fn spread_pairs(v: u64, n: nat) -> u64
    decreases n,
{
    if n == 0 {
        0
    } else {
        let j = (n - 1) as u64;
        spread_pairs(v, (n - 1) as nat) | (((v >> (2 * j) as u64) & 3u64) << (6 * j) as u64)
    }
}

/// A 21-bit field with each of its two-bit groups moved to every third
/// two-bit place.
pub open spec fn spread(v: u64) -> u64 {
    spread_pairs(v, 11)
}

/// The key of three 21-bit fields: per level two bits of x, then two of z,
/// then two of y, coarser levels at higher significance. The topmost bit
/// of the y field has no room in 64 bits and is left out.
pub open spec fn key_of_fields(fx: u64, fy: u64, fz: u64) -> u64 {
    spread(fx) | (spread(fz) << 2u64) | (spread(fy) << 4u64)
}

/// The spatial key of a position.
pub open spec fn morton_key(pos: Position) -> u64 {
    key_of_fields(coord_field(pos.x), coord_field(pos.y), coord_field(pos.z))
}

/// The shift-and-mask sequence that moves the groups of a 21-bit field apart.
pub open spec fn spread_steps(v: u64) -> u64 {
    let a = (v | (v << 32u64)) & 0x001F_0000_0000_FFFFu64;
    let b = (a | (a << 16u64)) & 0x001F_0000_FF00_00FFu64;
    let c = (b | (b << 8u64)) & 0x100F_00F0_0F00_F00Fu64;
    (c | (c << 4u64)) & 0x10C3_0C30_C30C_30C3u64
}

/// On a 21-bit field the shift-and-mask sequence computes `spread`.
pub proof fn lemma_spread_steps(v: u64)
    requires
        v <= 0x1F_FFFF,
    ensures
        spread_steps(v) == spread(v),
{
    reveal_with_fuel(spread_pairs, 12);
    assert(v <= 0x1F_FFFFu64 ==> ({
        let a = (v | (v << 32u64)) & 0x001F_0000_0000_FFFFu64;
        let b = (a | (a << 16u64)) & 0x001F_0000_FF00_00FFu64;
        let c = (b | (b << 8u64)) & 0x100F_00F0_0F00_F00Fu64;
        (c | (c << 4u64)) & 0x10C3_0C30_C30C_30C3u64
    }) == (0u64 | (((v >> 0u64) & 3u64) << 0u64) | (((v >> 2u64) & 3u64) << 6u64) | (((v >> 4u64)
        & 3u64) << 12u64) | (((v >> 6u64) & 3u64) << 18u64) | (((v >> 8u64) & 3u64) << 24u64) | (((v
        >> 10u64) & 3u64) << 30u64) | (((v >> 12u64) & 3u64) << 36u64) | (((v >> 14u64) & 3u64)
        << 42u64) | (((v >> 16u64) & 3u64) << 48u64) | (((v >> 18u64) & 3u64) << 54u64) | (((v
        >> 20u64) & 3u64) << 60u64))) by (bit_vector);
}

fn spread_field(v: u64) -> (r: u64)
    requires
        v <= 0x1F_FFFF,
    ensures
        r == spread(v),
{
    proof {
        lemma_spread_steps(v);
    }
    let a: u64 = (v | (v << 32)) & 0x001F_0000_0000_FFFF;
    let b: u64 = (a | (a << 16)) & 0x001F_0000_FF00_00FF;
    let c: u64 = (b | (b << 8)) & 0x100F_00F0_0F00_F00F;
    (c | (c << 4)) & 0x10C3_0C30_C30C_30C3
}

fn field_of(c: i32) -> (r: u64)
    ensures
        r == coord_field(c),
        r <= 0x1F_FFFF,
{
    proof {
        assert(((c as u64) & 0x1F_FFFFu64) == ((c & 0x1F_FFFFi32) as u64) && ((c as u64)
            & 0x1F_FFFFu64) <= 0x1F_FFFFu64) by (bit_vector);
    }
    (c as u64) & 0x1F_FFFF
}

/// Interleaves the low 21 bits of each coordinate into one sortable key.
pub fn get_morton_key(pos: Position) -> (key: u64)
    ensures
        key == morton_key(pos),
{
    let x: u64 = spread_field(field_of(pos.x));
    let y: u64 = spread_field(field_of(pos.y));
    let z: u64 = spread_field(field_of(pos.z));
    x | (z << 2) | (y << 4)
}

/// Fields that agree above bit `2 level` have spreads that agree above bit
/// `6 level`, also after the shift that places the z or the y part.
proof fn lemma_spread_grouping(fa: u64, fb: u64, level: u64)
    requires
        fa <= 0x1F_FFFF,
        fb <= 0x1F_FFFF,
        level <= 10,
        fa >> (2 * level) as u64 == fb >> (2 * level) as u64,
    ensures
        spread(fa) >> (6 * level) as u64 == spread(fb) >> (6 * level) as u64,
        (spread(fa) << 2u64) >> (6 * level) as u64 == (spread(fb) << 2u64) >> (6 * level) as u64,
        (spread(fa) << 4u64) >> (6 * level) as u64 == (spread(fb) << 4u64) >> (6 * level) as u64,
{
    lemma_spread_steps(fa);
    lemma_spread_steps(fb);
    let s2: u64 = (2 * level) as u64;
    let s6: u64 = (6 * level) as u64;
    assert(fa <= 0x1F_FFFFu64 && fb <= 0x1F_FFFFu64 && level <= 10u64 && s2 == 2u64 * level && s6
        == 6u64 * level && fa >> s2 == fb >> s2 ==> ({
        let a = (fa | (fa << 32u64)) & 0x001F_0000_0000_FFFFu64;
        let b = (a | (a << 16u64)) & 0x001F_0000_FF00_00FFu64;
        let c = (b | (b << 8u64)) & 0x100F_00F0_0F00_F00Fu64;
        let d = (c | (c << 4u64)) & 0x10C3_0C30_C30C_30C3u64;
        let a2 = (fb | (fb << 32u64)) & 0x001F_0000_0000_FFFFu64;
        let b2 = (a2 | (a2 << 16u64)) & 0x001F_0000_FF00_00FFu64;
        let c2 = (b2 | (b2 << 8u64)) & 0x100F_00F0_0F00_F00Fu64;
        let d2 = (c2 | (c2 << 4u64)) & 0x10C3_0C30_C30C_30C3u64;
        d >> s6 == d2 >> s6 && (d << 2u64) >> s6 == (d2 << 2u64) >> s6 && (d << 4u64) >> s6 == (d2
            << 4u64) >> s6
    })) by (bit_vector);
}

/// Coordinates that agree above bit `shift` have 21-bit fields that agree
/// above that bit.
proof fn lemma_field_grouping(ca: i32, cb: i32, shift: u32)
    requires
        shift <= 20,
        ca >> shift == cb >> shift,
    ensures
        coord_field(ca) <= 0x1F_FFFF,
        coord_field(cb) <= 0x1F_FFFF,
        coord_field(ca) >> (shift as u64) == coord_field(cb) >> (shift as u64),
{
    assert(shift <= 20u32 && ca >> shift == cb >> shift ==> ((ca & 0x1F_FFFFi32)
        as u64) >> (shift as u64) == ((cb & 0x1F_FFFFi32) as u64) >> (shift as u64) && ((ca
        & 0x1F_FFFFi32) as u64) <= 0x1F_FFFFu64 && ((cb & 0x1F_FFFFi32) as u64) <= 0x1F_FFFFu64)
        by (bit_vector);
}

/// Two positions whose coordinates agree in all bits above bit `2 level`
/// have keys that agree in all bits above bit `6 level`: positions in one
/// cell of a level share that level's key prefix.
pub proof fn lemma_key_grouping(a: Position, b: Position, level: u64)
    requires
        level <= 10,
        a.x >> ((2 * level) as u32) == b.x >> ((2 * level) as u32),
        a.y >> ((2 * level) as u32) == b.y >> ((2 * level) as u32),
        a.z >> ((2 * level) as u32) == b.z >> ((2 * level) as u32),
    ensures
        morton_key(a) >> ((6 * level) as u64) == morton_key(b) >> ((6 * level) as u64),
{
    let s2: u32 = (2 * level) as u32;
    let s6: u64 = (6 * level) as u64;
    assert(s2 as u64 == (2 * level) as u64);
    lemma_field_grouping(a.x, b.x, s2);
    lemma_field_grouping(a.y, b.y, s2);
    lemma_field_grouping(a.z, b.z, s2);
    lemma_spread_grouping(coord_field(a.x), coord_field(b.x), level);
    lemma_spread_grouping(coord_field(a.y), coord_field(b.y), level);
    lemma_spread_grouping(coord_field(a.z), coord_field(b.z), level);
    let (px, pz, py) = (
        spread(coord_field(a.x)),
        spread(coord_field(a.z)) << 2u64,
        spread(coord_field(a.y)) << 4u64,
    );
    let (qx, qz, qy) = (
        spread(coord_field(b.x)),
        spread(coord_field(b.z)) << 2u64,
        spread(coord_field(b.y)) << 4u64,
    );
    assert((px | pz | py) >> s6 == (px >> s6) | (pz >> s6) | (py >> s6) && (qx | qz | qy) >> s6 == (qx
        >> s6) | (qz >> s6) | (qy >> s6)) by (bit_vector);
}

/// The slot that a position takes in the cell of scale 8 around it: bits 6
/// and 7 of x, then of z, then of y.
pub open spec fn block_slot(pos: Position) -> int {
    ((pos.x >> 6u32) & 3i32) + 4 * ((pos.z >> 6u32) & 3i32) + 16 * ((pos.y >> 6u32) & 3i32)
}

/// The six key bits from bit 18 on are the position's slot in its cell of
/// scale 8.
pub proof fn lemma_key_block_slot(pos: Position)
    ensures
        ((morton_key(pos) >> 18u64) & 63u64) == block_slot(pos),
        0 <= block_slot(pos) < 64,
        0 <= ((pos.x >> 6u32) & 3i32) < 4,
        0 <= ((pos.y >> 6u32) & 3i32) < 4,
        0 <= ((pos.z >> 6u32) & 3i32) < 4,
{
    let (fx, fy, fz) = (coord_field(pos.x), coord_field(pos.y), coord_field(pos.z));
    let (cx, cy, cz) = (pos.x, pos.y, pos.z);
    assert(((cx & 0x1F_FFFFi32) as u64) <= 0x1F_FFFFu64 && ((((cx & 0x1F_FFFFi32) as u64) >> 6u64)
        & 3u64) == ((cx >> 6u32) & 3i32) && 0 <= ((cx >> 6u32) & 3i32) < 4 && ((cy & 0x1F_FFFFi32)
        as u64) <= 0x1F_FFFFu64 && ((((cy & 0x1F_FFFFi32) as u64) >> 6u64) & 3u64) == ((cy >> 6u32)
        & 3i32) && 0 <= ((cy >> 6u32) & 3i32) < 4 && ((cz & 0x1F_FFFFi32) as u64) <= 0x1F_FFFFu64
        && ((((cz & 0x1F_FFFFi32) as u64) >> 6u64) & 3u64) == ((cz >> 6u32) & 3i32) && 0 <= ((cz
        >> 6u32) & 3i32) < 4) by (bit_vector);
    lemma_spread_steps(fx);
    lemma_spread_steps(fy);
    lemma_spread_steps(fz);
    assert(fx <= 0x1F_FFFFu64 && fy <= 0x1F_FFFFu64 && fz <= 0x1F_FFFFu64 ==> ({
        let a = (fx | (fx << 32u64)) & 0x001F_0000_0000_FFFFu64;
        let b = (a | (a << 16u64)) & 0x001F_0000_FF00_00FFu64;
        let c = (b | (b << 8u64)) & 0x100F_00F0_0F00_F00Fu64;
        let dx = (c | (c << 4u64)) & 0x10C3_0C30_C30C_30C3u64;
        let a2 = (fy | (fy << 32u64)) & 0x001F_0000_0000_FFFFu64;
        let b2 = (a2 | (a2 << 16u64)) & 0x001F_0000_FF00_00FFu64;
        let c2 = (b2 | (b2 << 8u64)) & 0x100F_00F0_0F00_F00Fu64;
        let dy = (c2 | (c2 << 4u64)) & 0x10C3_0C30_C30C_30C3u64;
        let a3 = (fz | (fz << 32u64)) & 0x001F_0000_0000_FFFFu64;
        let b3 = (a3 | (a3 << 16u64)) & 0x001F_0000_FF00_00FFu64;
        let c3 = (b3 | (b3 << 8u64)) & 0x100F_00F0_0F00_F00Fu64;
        let dz = (c3 | (c3 << 4u64)) & 0x10C3_0C30_C30C_30C3u64;
        (((dx | (dz << 2u64) | (dy << 4u64)) >> 18u64) & 63u64) == ((fx >> 6u64) & 3u64) + 4 * ((fz
            >> 6u64) & 3u64) + 16 * ((fy >> 6u64) & 3u64)
    })) by (bit_vector);
}

/// Two coordinates that are multiples of 64, agree above bit 8 and in bits
/// 6 and 7 are one.
pub proof fn lemma_block_coordinate(a: i32, b: i32)
    requires
        a & 63i32 == 0,
        b & 63i32 == 0,
        a >> 8u32 == b >> 8u32,
        (a >> 6u32) & 3i32 == (b >> 6u32) & 3i32,
    ensures
        a == b,
{
    assert(a & 63i32 == 0 && b & 63i32 == 0 && a >> 8u32 == b >> 8u32 && (a >> 6u32) & 3i32 == (b
        >> 6u32) & 3i32 ==> a == b) by (bit_vector);
}

} // verus!
