use vstd::prelude::*;

verus! {

/// Largest child pointer that fits the 30 bits left beside the two flag bits.
pub const MAX_CHILD_PTR: u32 = 0x3FFF_FFFF;

/// Window and dispatch geometry of the renderer.
pub struct AppSettings {
    pub width: u32,
    pub height: u32,
    pub workgroup_size: u32,
}

impl Default for AppSettings {
    fn default() -> (s: Self)
        ensures
            s.width == 700,
            s.height == 512,
            s.workgroup_size == 8,
    {
        AppSettings { width: 700, height: 512, workgroup_size: 8 }
    }
}

/// One tree node as four 32-bit words, laid out as the GPU reads them:
/// `x` holds the child pointer above two flag bits, `y` and `z` the low and
/// high halves of the population mask, `w` is reserved.
#[derive(Clone, Copy, Debug, PartialEq, Eq, Structural)]
pub struct Node {
    pub x: u32,
    pub y: u32,
    pub z: u32,
    pub w: u32,
}

impl Default for Node {
    fn default() -> (n: Self)
        ensures
            n == node_of(0, false, 0),
            n == (Node { x: 0, y: 0, z: 0, w: 0 }),
    {
        Node::new_empty()
    }
}

/// The word that carries `child_ptr` above the leaf flag.
pub open spec fn pack_word(child_ptr: u32, is_leaf: bool) -> u32 {
    if is_leaf {
        (child_ptr << 2u32) | 1u32
    } else {
        child_ptr << 2u32
    }
}

/// The node with the given pointer, leaf flag and population mask.
pub open spec fn node_of(child_ptr: u32, is_leaf: bool, pop_mask: u64) -> Node {
    Node {
        x: pack_word(child_ptr, is_leaf),
        y: (pop_mask & 0xFFFF_FFFFu64) as u32,
        z: (pop_mask >> 32u64) as u32,
        w: 0,
    }
}

impl Node {
    /// The child pointer: the upper 30 bits of the first word.
    pub open spec fn child_ptr(&self) -> u32 {
        self.x >> 2u32
    }

    /// The leaf flag: bit 0 of the first word.
    pub open spec fn leaf(&self) -> bool {
        self.x & 1u32 != 0
    }

    /// The absolute-pointer flag: bit 1 of the first word.
    pub open spec fn absolute_ptr(&self) -> bool {
        self.x & 2u32 != 0
    }

    /// The 64-bit population mask held in the second and third words.
    pub open spec fn pop_mask(&self) -> u64 {
        (self.y as u64) | ((self.z as u64) << 32u64)
    }

    pub fn new(child_ptr: u32, is_leaf: bool, pop_mask: u64) -> (n: Self)
        ensures
            n == node_of(child_ptr, is_leaf, pop_mask),
            n.pop_mask() == pop_mask,
            n.leaf() == is_leaf,
            !n.absolute_ptr(),
            n.w == 0,
            child_ptr <= MAX_CHILD_PTR ==> n.child_ptr() == child_ptr,
    {
        let mut p0: u32 = child_ptr << 2;
        if is_leaf {
            p0 |= 1;
        }
        let lo: u32 = (pop_mask & 0xFFFF_FFFF) as u32;
        let hi: u32 = (pop_mask >> 32) as u32;
        proof {
            lemma_mask_halves(pop_mask);
            lemma_pack_word(child_ptr, is_leaf);
        }
        Node { x: p0, y: lo, z: hi, w: 0 }
    }

    pub fn new_empty() -> (n: Self)
        ensures
            n == (Node { x: 0, y: 0, z: 0, w: 0 }),
            n == node_of(0, false, 0),
            n.pop_mask() == 0,
            !n.leaf(),
            !n.absolute_ptr(),
            n.child_ptr() == 0,
    {
        proof {
            lemma_mask_halves(0);
            lemma_pack_word(0, false);
            assert(0u32 << 2u32 == 0u32) by (bit_vector);
            assert(0u64 & 0xFFFF_FFFFu64 == 0u64 && 0u64 >> 32u64 == 0u64
                && (0u64 | (0u64 << 32u64)) == 0u64) by (bit_vector);
        }
        Node { x: 0, y: 0, z: 0, w: 0 }
    }

    pub fn set_leaf(&mut self, is_leaf: bool)
        ensures
            final(self).leaf() == is_leaf,
            final(self).child_ptr() == old(self).child_ptr(),
            final(self).absolute_ptr() == old(self).absolute_ptr(),
            final(self).x == (if is_leaf { old(self).x | 1u32 } else { old(self).x & !1u32 }),
            final(self).y == old(self).y,
            final(self).z == old(self).z,
            final(self).w == old(self).w,
    {
        let x: u32 = self.x;
        if is_leaf {
            self.x = x | 1;
        } else {
            self.x = x & !1;
        }
        proof {
            assert((x | 1u32) & 1u32 != 0 && (x | 1u32) >> 2u32 == x >> 2u32 && ((x | 1u32) & 2u32)
                == (x & 2u32) && (x & !1u32) & 1u32 == 0 && (x & !1u32) >> 2u32 == x >> 2u32 && ((x
                & !1u32) & 2u32) == (x & 2u32)) by (bit_vector);
        }
    }

    pub fn set_absolute_ptr(&mut self, is_abs: bool)
        ensures
            final(self).absolute_ptr() == is_abs,
            final(self).child_ptr() == old(self).child_ptr(),
            final(self).leaf() == old(self).leaf(),
            final(self).x == (if is_abs { old(self).x | 2u32 } else { old(self).x & !2u32 }),
            final(self).y == old(self).y,
            final(self).z == old(self).z,
            final(self).w == old(self).w,
    {
        let x: u32 = self.x;
        if is_abs {
            self.x = x | 2;
        } else {
            self.x = x & !2;
        }
        proof {
            assert((x | 2u32) & 2u32 != 0 && (x | 2u32) >> 2u32 == x >> 2u32 && ((x | 2u32) & 1u32)
                == (x & 1u32) && (x & !2u32) & 2u32 == 0 && (x & !2u32) >> 2u32 == x >> 2u32 && ((x
                & !2u32) & 1u32) == (x & 1u32)) by (bit_vector);
        }
    }

    pub fn set_child_ptr(&mut self, ptr: u32)
        ensures
            final(self).x == (old(self).x & 3u32) | (ptr << 2u32),
            ptr <= MAX_CHILD_PTR ==> final(self).child_ptr() == ptr,
            final(self).leaf() == old(self).leaf(),
            final(self).absolute_ptr() == old(self).absolute_ptr(),
            final(self).y == old(self).y,
            final(self).z == old(self).z,
            final(self).w == old(self).w,
    {
        let x: u32 = self.x;
        self.x = (x & 3) | (ptr << 2);
        proof {
            assert((ptr <= 0x3FFF_FFFFu32 ==> ((x & 3u32) | (ptr << 2u32)) >> 2u32 == ptr) && (((x
                & 3u32) | (ptr << 2u32)) & 1u32) == (x & 1u32) && (((x & 3u32) | (ptr << 2u32))
                & 2u32) == (x & 2u32)) by (bit_vector);
        }
    }

    pub fn get_child_ptr(&self) -> (p: u32)
        ensures
            p == self.child_ptr(),
            p <= MAX_CHILD_PTR,
    {
        let x: u32 = self.x;
        proof {
            assert(x >> 2u32 <= 0x3FFF_FFFFu32) by (bit_vector);
        }
        x >> 2
    }

    pub fn set_pop_mask(&mut self, mask: u64)
        ensures
            final(self).pop_mask() == mask,
            final(self).x == old(self).x,
            final(self).y == (mask & 0xFFFF_FFFFu64) as u32,
            final(self).z == (mask >> 32u64) as u32,
            final(self).w == old(self).w,
    {
        proof {
            lemma_mask_halves(mask);
        }
        self.y = (mask & 0xFFFF_FFFF) as u32;
        self.z = (mask >> 32) as u32;
    }

    pub fn get_pop_mask(&self) -> (m: u64)
        ensures
            m == self.pop_mask(),
    {
        (self.y as u64) | ((self.z as u64) << 32)
    }

    pub fn is_leaf(&self) -> (b: bool)
        ensures
            b == self.leaf(),
    {
        (self.x & 1) != 0
    }
}

/// Splitting a mask into its two 32-bit halves and joining them again gives
/// the mask back.
pub proof fn lemma_mask_halves(mask: u64)
    ensures
        node_of(0, false, mask).pop_mask() == mask,
        (((mask & 0xFFFF_FFFFu64) as u32) as u64) | ((((mask >> 32u64) as u32) as u64) << 32u64)
            == mask,
{
    assert((((mask & 0xFFFF_FFFFu64) as u32) as u64) | ((((mask >> 32u64) as u32) as u64) << 32u64)
        == mask) by (bit_vector);
}

/// The packed first word gives back the leaf flag, a clear absolute flag and,
/// for a pointer of at most 30 bits, the pointer.
pub proof fn lemma_pack_word(child_ptr: u32, is_leaf: bool)
    ensures
        (pack_word(child_ptr, is_leaf) & 1u32 != 0) == is_leaf,
        pack_word(child_ptr, is_leaf) & 2u32 == 0,
        child_ptr <= MAX_CHILD_PTR ==> pack_word(child_ptr, is_leaf) >> 2u32 == child_ptr,
{
    assert(((child_ptr << 2u32) | 1u32) & 1u32 != 0 && ((child_ptr << 2u32) | 1u32) & 2u32 == 0
        && (child_ptr << 2u32) & 1u32 == 0 && (child_ptr << 2u32) & 2u32 == 0 && (child_ptr
        <= 0x3FFF_FFFFu32 ==> ((child_ptr << 2u32) | 1u32) >> 2u32 == child_ptr && (child_ptr
        << 2u32) >> 2u32 == child_ptr)) by (bit_vector);
}

/// A node built from a pointer of at most 30 bits, a leaf flag and a mask
/// reads back exactly those three values.
pub proof fn lemma_node_round_trip(child_ptr: u32, is_leaf: bool, pop_mask: u64)
    requires
        child_ptr <= MAX_CHILD_PTR,
    ensures
        node_of(child_ptr, is_leaf, pop_mask).child_ptr() == child_ptr,
        node_of(child_ptr, is_leaf, pop_mask).leaf() == is_leaf,
        node_of(child_ptr, is_leaf, pop_mask).pop_mask() == pop_mask,
{
    lemma_mask_halves(pop_mask);
    lemma_pack_word(child_ptr, is_leaf);
}

} // verus!
