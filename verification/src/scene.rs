use crate::key::Position;
use crate::store::{brick_index, sector_entries, sector_of, VoxelWorld};
use vstd::prelude::*;

verus! {

/// Radius of the sphere, in voxels.
pub const SPHERE_RADIUS: i32 = 32;

/// Each coordinate of the sphere's centre.
pub const SPHERE_CENTER: i32 = 32;

/// Whether `p` lies within the solid sphere of radius 32 around (32, 32, 32).
pub open spec fn in_sphere(p: Position) -> bool {
    (p.x - 32) * (p.x - 32) + (p.y - 32) * (p.y - 32) + (p.z - 32) * (p.z - 32) <= 32 * 32
}

/// Whether `p` is a voxel of the sphere that the walk over the offsets,
/// x outermost and z innermost, has passed when it stands at `(x, y, z)`.
pub open spec fn filled(p: Position, x: int, y: int, z: int) -> bool {
    let (dx, dy, dz) = (p.x - 32, p.y - 32, p.z - 32);
    in_sphere(p) && (dx < x || (dx == x && (dy < y || (dy == y && dz < z))))
}

/// Whether the world holds every sector that `before` held, and besides
/// them only sectors with coordinates 0 or 1, those that the sphere reaches.
pub open spec fn grown_by_sphere(before: VoxelWorld, world: VoxelWorld) -> bool {
    &&& forall|k: (i32, i32, i32)| #[trigger]
        sector_entries(before.sectors).contains_key(k) ==> sector_entries(
            world.sectors,
        ).contains_key(k)
    &&& forall|k: (i32, i32, i32)| #[trigger]
        sector_entries(world.sectors).contains_key(k) ==> sector_entries(
            before.sectors,
        ).contains_key(k) || (0 <= k.0 <= 1 && 0 <= k.1 <= 1 && 0 <= k.2 <= 1)
}

/// A coordinate from 0 to 64 lies in sector 0 or 1, and in sector 1 only
/// where it is 64.
proof fn lemma_sphere_sector(a: i32)
    requires
        0 <= a <= 64,
    ensures
        0 <= a >> 6u32 <= 1,
        (a >> 6u32 == 1) == (a == 64),
{
    assert(0 <= a && a <= 64 ==> 0 <= a >> 6u32 && a >> 6u32 <= 1 && ((a >> 6u32 == 1) == (a == 64)))
        by (bit_vector);
}

/// A voxel of the sphere lies within the radius of the centre along each axis.
pub proof fn lemma_sphere_bounds(p: Position)
    requires
        in_sphere(p),
    ensures
        -32 <= p.x - 32 <= 32,
        -32 <= p.y - 32 <= 32,
        -32 <= p.z - 32 <= 32,
{
    let (dx, dy, dz) = (p.x - 32, p.y - 32, p.z - 32);
    assert(-32 <= dx <= 32 && -32 <= dy <= 32 && -32 <= dz <= 32) by (nonlinear_arith)
        requires
            dx * dx + dy * dy + dz * dz <= 32 * 32,
    ;
}

/// Whether `q` and `p` lie in one brick.
pub open spec fn same_brick(q: Position, p: Position) -> bool {
    sector_of(q) == sector_of(p) && brick_index(q) == brick_index(p)
}

/// Whether the brick that holds `p` holds a voxel of the sphere.
pub open spec fn sphere_brick(p: Position) -> bool {
    exists|q: Position| #[trigger] in_sphere(q) && same_brick(q, p)
}

/// Whether the sector `k` holds a voxel of the sphere.
pub open spec fn sphere_sector(k: (i32, i32, i32)) -> bool {
    exists|q: Position| #[trigger] in_sphere(q) && sector_of(q) == k
}

/// Whether the brick that holds `p` holds a voxel that the walk has passed
/// when it stands at `(x, y, z)`.
pub open spec fn brick_reached(p: Position, x: int, y: int, z: int) -> bool {
    exists|q: Position| #[trigger] filled(q, x, y, z) && same_brick(q, p)
}

/// Whether the sector `k` holds a voxel that the walk has passed when it
/// stands at `(x, y, z)`.
pub open spec fn sector_reached(k: (i32, i32, i32), x: int, y: int, z: int) -> bool {
    exists|q: Position| #[trigger] filled(q, x, y, z) && sector_of(q) == k
}

/// Whether `world` is `before` with the sphere filled in as far as the walk
/// has come when it stands at `(x, y, z)`: the voxels passed are 1 and all
/// others as before, and a brick or a sector exists where it did before or
/// where it holds a voxel passed.
pub open spec fn walked(before: VoxelWorld, world: VoxelWorld, x: int, y: int, z: int) -> bool {
    &&& forall|p: Position| #[trigger]
        world.voxel_at(p) == if filled(p, x, y, z) {
            1u8
        } else {
            before.voxel_at(p)
        }
    &&& forall|p: Position| #[trigger]
        world.brick_at(p).is_some() == (before.brick_at(p).is_some() || brick_reached(p, x, y, z))
    &&& forall|k: (i32, i32, i32)| #[trigger]
        sector_entries(world.sectors).contains_key(k) == (sector_entries(
            before.sectors,
        ).contains_key(k) || sector_reached(k, x, y, z))
}

/// Whether `world` is `during` with material 1 stored at `pos`.
pub open spec fn one_stored(during: VoxelWorld, world: VoxelWorld, pos: Position) -> bool {
    &&& world.voxel_at(pos) == 1
    &&& forall|p: Position| p != pos ==> #[trigger] world.voxel_at(p) == during.voxel_at(p)
    &&& forall|p: Position| #[trigger]
        world.brick_at(p).is_some() == (during.brick_at(p).is_some() || same_brick(p, pos))
    &&& forall|k: (i32, i32, i32)| #[trigger]
        sector_entries(world.sectors).contains_key(k) == (sector_entries(
            during.sectors,
        ).contains_key(k) || k == sector_of(pos))
}

/// Before the walk starts nothing is passed.
proof fn lemma_walk_start(before: VoxelWorld)
    ensures
        walked(before, before, -32, -32, -32),
{
    assert forall|q: Position| !#[trigger] filled(q, -32, -32, -32) by {
        if in_sphere(q) {
            lemma_sphere_bounds(q);
        }
    }
}

/// Two stands of the walk that have passed the same voxels describe the
/// same world.
proof fn lemma_walk_same(
    before: VoxelWorld,
    world: VoxelWorld,
    x: int,
    y: int,
    z: int,
    x2: int,
    y2: int,
    z2: int,
)
    requires
        walked(before, world, x, y, z),
        forall|q: Position|
            #![trigger filled(q, x, y, z)]
            #![trigger filled(q, x2, y2, z2)]
            filled(q, x, y, z) == filled(q, x2, y2, z2),
    ensures
        walked(before, world, x2, y2, z2),
{
    assert forall|p: Position| brick_reached(p, x, y, z) == #[trigger] brick_reached(
        p,
        x2,
        y2,
        z2,
    ) by {
        if brick_reached(p, x, y, z) {
            let q = choose|q: Position| #[trigger] filled(q, x, y, z) && same_brick(q, p);
            assert(filled(q, x2, y2, z2) && same_brick(q, p));
        }
        if brick_reached(p, x2, y2, z2) {
            let q = choose|q: Position| #[trigger] filled(q, x2, y2, z2) && same_brick(q, p);
            assert(filled(q, x, y, z) && same_brick(q, p));
        }
    }
    assert forall|k: (i32, i32, i32)| sector_reached(k, x, y, z) == #[trigger] sector_reached(
        k,
        x2,
        y2,
        z2,
    ) by {
        if sector_reached(k, x, y, z) {
            let q = choose|q: Position| #[trigger] filled(q, x, y, z) && sector_of(q) == k;
            assert(filled(q, x2, y2, z2) && sector_of(q) == k);
        }
        if sector_reached(k, x2, y2, z2) {
            let q = choose|q: Position| #[trigger] filled(q, x2, y2, z2) && sector_of(q) == k;
            assert(filled(q, x, y, z) && sector_of(q) == k);
        }
    }
}

/// Storing the voxel at which the walk stands takes the walk one step on.
proof fn lemma_walk_step(
    before: VoxelWorld,
    during: VoxelWorld,
    world: VoxelWorld,
    pos: Position,
    x: int,
    y: int,
    z: int,
)
    requires
        walked(before, during, x, y, z),
        one_stored(during, world, pos),
        in_sphere(pos),
        pos.x - 32 == x,
        pos.y - 32 == y,
        pos.z - 32 == z,
    ensures
        walked(before, world, x, y, z + 1),
{
    assert(filled(pos, x, y, z + 1));
    assert forall|p: Position| #[trigger]
        world.voxel_at(p) == if filled(p, x, y, z + 1) {
            1u8
        } else {
            before.voxel_at(p)
        } by {
        if p != pos {
            assert(world.voxel_at(p) == during.voxel_at(p));
        }
    }
    assert forall|p: Position| #[trigger]
        world.brick_at(p).is_some() == (before.brick_at(p).is_some() || brick_reached(
            p,
            x,
            y,
            z + 1,
        )) by {
        assert(during.brick_at(p).is_some() == (before.brick_at(p).is_some() || brick_reached(
            p,
            x,
            y,
            z,
        )));
        if brick_reached(p, x, y, z) {
            let q = choose|q: Position| #[trigger] filled(q, x, y, z) && same_brick(q, p);
            assert(filled(q, x, y, z + 1) && same_brick(q, p));
        }
        if same_brick(p, pos) {
            assert(filled(pos, x, y, z + 1) && same_brick(pos, p));
        }
        if brick_reached(p, x, y, z + 1) {
            let q = choose|q: Position| #[trigger] filled(q, x, y, z + 1) && same_brick(q, p);
            if q != pos {
                assert(filled(q, x, y, z) && same_brick(q, p));
            }
        }
    }
    assert forall|k: (i32, i32, i32)| #[trigger]
        sector_entries(world.sectors).contains_key(k) == (sector_entries(
            before.sectors,
        ).contains_key(k) || sector_reached(k, x, y, z + 1)) by {
        assert(sector_entries(during.sectors).contains_key(k) == (sector_entries(
            before.sectors,
        ).contains_key(k) || sector_reached(k, x, y, z)));
        if sector_reached(k, x, y, z) {
            let q = choose|q: Position| #[trigger] filled(q, x, y, z) && sector_of(q) == k;
            assert(filled(q, x, y, z + 1) && sector_of(q) == k);
        }
        if k == sector_of(pos) {
            assert(filled(pos, x, y, z + 1) && sector_of(pos) == k);
        }
        if sector_reached(k, x, y, z + 1) {
            let q = choose|q: Position| #[trigger] filled(q, x, y, z + 1) && sector_of(q) == k;
            if q != pos {
                assert(filled(q, x, y, z) && sector_of(q) == k);
            }
        }
    }
}

/// Past an offset outside the sphere the walk has passed what it had passed.
proof fn lemma_walk_skip(before: VoxelWorld, world: VoxelWorld, x: int, y: int, z: int)
    requires
        walked(before, world, x, y, z),
        x * x + y * y + z * z > 32 * 32,
    ensures
        walked(before, world, x, y, z + 1),
{
    assert forall|q: Position|
        #![trigger filled(q, x, y, z)]
        #![trigger filled(q, x, y, z + 1)]
        filled(q, x, y, z) == filled(q, x, y, z + 1) by {}
    lemma_walk_same(before, world, x, y, z, x, y, z + 1);
}

/// The end of a row of the walk is the start of the next.
proof fn lemma_walk_row(before: VoxelWorld, world: VoxelWorld, x: int, y: int)
    requires
        walked(before, world, x, y, 33),
    ensures
        walked(before, world, x, y + 1, -32),
{
    assert forall|q: Position|
        #![trigger filled(q, x, y, 33)]
        #![trigger filled(q, x, y + 1, -32)]
        filled(q, x, y, 33) == filled(q, x, y + 1, -32) by {
        if in_sphere(q) {
            lemma_sphere_bounds(q);
        }
    }
    lemma_walk_same(before, world, x, y, 33, x, y + 1, -32);
}

/// The end of a layer of the walk is the start of the next.
proof fn lemma_walk_layer(before: VoxelWorld, world: VoxelWorld, x: int)
    requires
        walked(before, world, x, 33, -32),
    ensures
        walked(before, world, x + 1, -32, -32),
{
    assert forall|q: Position|
        #![trigger filled(q, x, 33, -32)]
        #![trigger filled(q, x + 1, -32, -32)]
        filled(q, x, 33, -32) == filled(q, x + 1, -32, -32) by {
        if in_sphere(q) {
            lemma_sphere_bounds(q);
        }
    }
    lemma_walk_same(before, world, x, 33, -32, x + 1, -32, -32);
}

/// At its end the walk has passed the whole sphere.
proof fn lemma_walk_end(before: VoxelWorld, world: VoxelWorld)
    requires
        walked(before, world, 33, -32, -32),
    ensures
        forall|p: Position| #[trigger]
            world.voxel_at(p) == if in_sphere(p) {
                1u8
            } else {
                before.voxel_at(p)
            },
        forall|p: Position| #[trigger]
            world.brick_at(p).is_some() == (before.brick_at(p).is_some() || sphere_brick(p)),
        forall|k: (i32, i32, i32)| #[trigger]
            sector_entries(world.sectors).contains_key(k) == (sector_entries(
                before.sectors,
            ).contains_key(k) || sphere_sector(k)),
        grown_by_sphere(before, world),
{
    assert forall|q: Position| #[trigger] filled(q, 33, -32, -32) == in_sphere(q) by {
        if in_sphere(q) {
            lemma_sphere_bounds(q);
        }
    }
    assert forall|p: Position| brick_reached(p, 33, -32, -32) == #[trigger] sphere_brick(p) by {
        if brick_reached(p, 33, -32, -32) {
            let q = choose|q: Position| #[trigger] filled(q, 33, -32, -32) && same_brick(q, p);
            assert(in_sphere(q) && same_brick(q, p));
        }
        if sphere_brick(p) {
            let q = choose|q: Position| #[trigger] in_sphere(q) && same_brick(q, p);
            assert(filled(q, 33, -32, -32) && same_brick(q, p));
        }
    }
    assert forall|k: (i32, i32, i32)| sector_reached(k, 33, -32, -32) == #[trigger] sphere_sector(
        k,
    ) by {
        if sector_reached(k, 33, -32, -32) {
            let q = choose|q: Position| #[trigger] filled(q, 33, -32, -32) && sector_of(q) == k;
            assert(in_sphere(q) && sector_of(q) == k);
        }
        if sphere_sector(k) {
            let q = choose|q: Position| #[trigger] in_sphere(q) && sector_of(q) == k;
            assert(filled(q, 33, -32, -32) && sector_of(q) == k);
        }
    }
    assert forall|k: (i32, i32, i32)| #[trigger]
        sector_entries(world.sectors).contains_key(k) implies sector_entries(
        before.sectors,
    ).contains_key(k) || (0 <= k.0 <= 1 && 0 <= k.1 <= 1 && 0 <= k.2 <= 1) by {
        if sphere_sector(k) {
            let q = choose|q: Position| #[trigger] in_sphere(q) && sector_of(q) == k;
            lemma_sphere_bounds(q);
            lemma_sphere_sector(q.x);
            lemma_sphere_sector(q.y);
            lemma_sphere_sector(q.z);
        }
    }
}

/// The sphere reaches four sectors: the one at the origin, which holds all
/// of it but three voxels, and its neighbour along each axis, which holds
/// the one voxel at the sphere's far end.
pub proof fn lemma_sphere_sectors(k: (i32, i32, i32))
    ensures
        sphere_sector(k) == (k == (0i32, 0i32, 0i32) || k == (1i32, 0i32, 0i32) || k == (
            0i32,
            1i32,
            0i32,
        ) || k == (0i32, 0i32, 1i32)),
{
    if sphere_sector(k) {
        let q = choose|q: Position| #[trigger] in_sphere(q) && sector_of(q) == k;
        lemma_sphere_bounds(q);
        lemma_sphere_sector(q.x);
        lemma_sphere_sector(q.y);
        lemma_sphere_sector(q.z);
        let (dx, dy, dz) = (q.x - 32, q.y - 32, q.z - 32);
        assert((dx == 32 ==> dy == 0 && dz == 0) && (dy == 32 ==> dx == 0 && dz == 0) && (dz == 32
            ==> dx == 0 && dy == 0)) by (nonlinear_arith)
            requires
                dx * dx + dy * dy + dz * dz <= 32 * 32,
        ;
    }
    let centre = Position { x: 32, y: 32, z: 32 };
    let far_x = Position { x: 64, y: 32, z: 32 };
    let far_y = Position { x: 32, y: 64, z: 32 };
    let far_z = Position { x: 32, y: 32, z: 64 };
    lemma_sphere_sector(32);
    lemma_sphere_sector(64);
    let (none, full) = (centre.x - 32, far_x.x - 32);
    assert(none * none == 0 && full * full == 32 * 32) by (nonlinear_arith)
        requires
            none == 0,
            full == 32,
    ;
    assert(in_sphere(centre));
    assert(in_sphere(far_x));
    assert(in_sphere(far_y));
    assert(in_sphere(far_z));
    assert(sector_of(centre) == (0i32, 0i32, 0i32));
    assert(sector_of(far_x) == (1i32, 0i32, 0i32));
    assert(sector_of(far_y) == (0i32, 1i32, 0i32));
    assert(sector_of(far_z) == (0i32, 0i32, 1i32));
}

/// Fills the world with a solid sphere of material 1, radius 32, around
/// (32, 32, 32). Voxels outside the sphere stay as they are. A sector and a
/// brick exist afterwards where they existed before or hold a voxel of the
/// sphere.
pub fn spawn_sphere(world: &mut VoxelWorld)
    ensures
        forall|p: Position| #[trigger]
            final(world).voxel_at(p) == if in_sphere(p) {
                1u8
            } else {
                old(world).voxel_at(p)
            },
        forall|p: Position| #[trigger]
            final(world).brick_at(p).is_some() == (old(world).brick_at(p).is_some() || sphere_brick(
                p,
            )),
        forall|k: (i32, i32, i32)| #[trigger]
            sector_entries(final(world).sectors).contains_key(k) == (sector_entries(
                old(world).sectors,
            ).contains_key(k) || sphere_sector(k)),
        grown_by_sphere(*old(world), *final(world)),
{
    let ghost before = *world;
    let radius: i32 = SPHERE_RADIUS;
    let mut x: i32 = -radius;
    proof {
        lemma_walk_start(before);
    }
    while x <= radius
        invariant
            radius == 32,
            -32 <= x <= 33,
            walked(before, *world, x as int, -32, -32),
        decreases 33 - x,
    {
        let mut y: i32 = -radius;
        while y <= radius
            invariant
                radius == 32,
                -32 <= x <= 32,
                -32 <= y <= 33,
                walked(before, *world, x as int, y as int, -32),
            decreases 33 - y,
        {
            let mut z: i32 = -radius;
            while z <= radius
                invariant
                    radius == 32,
                    -32 <= x <= 32,
                    -32 <= y <= 32,
                    -32 <= z <= 33,
                    walked(before, *world, x as int, y as int, z as int),
                decreases 33 - z,
            {
                proof {
                    assert(0 <= x * x <= 1024 && 0 <= y * y <= 1024 && 0 <= z * z <= 1024)
                        by (nonlinear_arith)
                        requires
                            -32 <= x <= 32,
                            -32 <= y <= 32,
                            -32 <= z <= 32,
                    ;
                }
                let ghost during = *world;
                if x * x + y * y + z * z <= radius * radius {
                    let pos: Position = Position {
                        x: SPHERE_CENTER + x,
                        y: SPHERE_CENTER + y,
                        z: SPHERE_CENTER + z,
                    };
                    world.set_voxel(pos, 1);
                    proof {
                        assert(in_sphere(pos));
                        assert(one_stored(during, *world, pos));
                        lemma_walk_step(before, during, *world, pos, x as int, y as int, z as int);
                    }
                } else {
                    proof {
                        lemma_walk_skip(before, *world, x as int, y as int, z as int);
                    }
                }
                z += 1;
            }
            proof {
                lemma_walk_row(before, *world, x as int, y as int);
            }
            y += 1;
        }
        proof {
            lemma_walk_layer(before, *world, x as int);
        }
        x += 1;
    }
    proof {
        lemma_walk_end(before, *world);
    }
}

} // verus!
