use vstd::prelude::*;

verus! {

/// Whether bit `i` of `m` is set.
pub open spec fn bit_set(m: u64, i: nat) -> bool {
    (m >> (i as u64)) & 1u64 == 1u64
}

/// The number of set bits among the low `n` bits of `m`.
pub open spec fn count_bits(m: u64, n: nat) -> nat
    decreases n,
{
    if n == 0 {
        0
    } else {
        count_bits(m, (n - 1) as nat) + if bit_set(m, (n - 1) as nat) {
            1nat
        } else {
            0nat
        }
    }
}

/// The number of set bits of a 64-bit mask.
pub open spec fn popcount(m: u64) -> nat {
    count_bits(m, 64)
}

/// The mask with only bit `i` set.
pub open spec fn single_bit(i: nat) -> u64 {
    1u64 << (i as u64)
}

/// Setting bit `i` sets that bit and leaves every other bit as it was.
pub proof fn lemma_set_bit(m: u64, i: nat, j: nat)
    requires
        i < 64,
        j < 64,
    ensures
        bit_set(m | single_bit(i), j) == (j == i || bit_set(m, j)),
{
    let a: u64 = i as u64;
    let b: u64 = j as u64;
    assert(a < 64 && b < 64 ==> (((m | (1u64 << a)) >> b) & 1u64 == 1u64) == (b == a || (m >> b)
        & 1u64 == 1u64)) by (bit_vector);
}

/// Masks that agree on each of their 64 bits are one mask.
pub proof fn lemma_masks_equal(a: u64, b: u64)
    requires
        forall|j: nat| j < 64 ==> bit_set(a, j) == bit_set(b, j),
    ensures
        a == b,
{
    let x = a ^ b;
    if x != 0 {
        lemma_nonzero_has_bit(x);
        let j = choose|j: nat| j < 64 && bit_set(x, j);
        let s: u64 = j as u64;
        assert(s < 64 && ((a ^ b) >> s) & 1u64 == 1u64 ==> (((a >> s) & 1u64 == 1u64) != ((b >> s)
            & 1u64 == 1u64))) by (bit_vector);
        assert(bit_set(a, j) == bit_set(b, j));
    } else {
        assert(a ^ b == 0 ==> a == b) by (bit_vector);
    }
}

/// A mask with no bit set among its low `n` bits counts zero there, and the
/// zero mask has no bit set.
pub proof fn lemma_count_bits_zero(n: nat)
    requires
        n <= 64,
    ensures
        count_bits(0, n) == 0,
        forall|j: nat| j < 64 ==> !bit_set(0, j),
    decreases n,
{
    assert forall|j: nat| j < 64 implies !bit_set(0, j) by {
        let b: u64 = j as u64;
        assert(b < 64 ==> (0u64 >> b) & 1u64 == 0u64) by (bit_vector);
    }
    if n > 0 {
        lemma_count_bits_zero((n - 1) as nat);
    }
}

/// Setting a bit that was clear raises the count over a range that holds
/// it by one, and leaves the count over a range below it unchanged.
pub proof fn lemma_count_bits_set(m: u64, i: nat, n: nat)
    requires
        i < 64,
        n <= 64,
    ensures
        count_bits(m | single_bit(i), n) == count_bits(m, n) + if i < n && !bit_set(m, i) {
            1nat
        } else {
            0nat
        },
    decreases n,
{
    if n > 0 {
        lemma_count_bits_set(m, i, (n - 1) as nat);
        lemma_set_bit(m, i, (n - 1) as nat);
    }
}

/// A mask whose bits from `n` on are clear has all its set bits below `n`.
pub proof fn lemma_count_bits_below(m: u64, n: nat, upto: nat)
    requires
        n <= upto <= 64,
        forall|j: nat| n <= j < 64 ==> !bit_set(m, j),
    ensures
        count_bits(m, upto) == count_bits(m, n),
    decreases upto - n,
{
    if n < upto {
        lemma_count_bits_below(m, n, (upto - 1) as nat);
    }
}

/// A set bit has fewer set bits below it than the mask has in all.
pub proof fn lemma_rank_in_range(m: u64, k: nat, upto: nat)
    requires
        k < upto <= 64,
        bit_set(m, k),
    ensures
        count_bits(m, k) < count_bits(m, upto),
    decreases upto - k,
{
    if k + 1 < upto {
        lemma_rank_in_range(m, k, (upto - 1) as nat);
    }
}

/// A mask is zero exactly when none of its 64 bits is set.
pub proof fn lemma_zero_mask(m: u64)
    ensures
        (m == 0) == (forall|j: nat| j < 64 ==> !bit_set(m, j)),
        (m == 0) == (popcount(m) == 0),
{
    lemma_count_bits_zero(64);
    if m != 0 {
        lemma_nonzero_has_bit(m);
        let j = choose|j: nat| j < 64 && bit_set(m, j);
        lemma_count_bits_positive(m, j, 64);
    }
}

/// A non-zero mask has a set bit.
proof fn lemma_nonzero_has_bit(m: u64)
    requires
        m != 0,
    ensures
        exists|j: nat| j < 64 && bit_set(m, j),
{
    if forall|j: nat| j < 64 ==> !bit_set(m, j) {
        lemma_bits_clear_below(m, 64);
        assert(m & (!0u64 >> 0u64) == m) by (bit_vector);
    }
}

/// The mask with exactly the low `n` bits set.
pub open spec fn low_mask(n: nat) -> u64 {
    if n == 0 {
        0
    } else {
        !0u64 >> ((64 - n) as u64)
    }
}

/// A mask whose low `n` bits are clear has nothing in common with the mask
/// of those bits.
proof fn lemma_bits_clear_below(m: u64, n: nat)
    requires
        n <= 64,
        forall|j: nat| j < n ==> !bit_set(m, j),
    ensures
        m & low_mask(n) == 0,
    decreases n,
{
    if n > 0 {
        lemma_bits_clear_below(m, (n - 1) as nat);
        let k: u64 = (n - 1) as u64;
        let l: u64 = low_mask((n - 1) as nat);
        assert(!bit_set(m, (n - 1) as nat));
        assert(k < 64 && l == (if k == 0 { 0u64 } else { !0u64 >> ((64 - k) as u64) }) && m & l == 0 && !((m
            >> k) & 1u64 == 1u64) ==> m & (!0u64 >> ((63 - k) as u64)) == 0) by (bit_vector);
    } else {
        assert(m & 0u64 == 0) by (bit_vector);
    }
}

/// A mask with bit `i` set counts at least one over any range that holds `i`.
pub proof fn lemma_count_bits_positive(m: u64, i: nat, n: nat)
    requires
        i < n,
        n <= 64,
        bit_set(m, i),
    ensures
        count_bits(m, n) > 0,
    decreases n,
{
    if n - 1 > i {
        lemma_count_bits_positive(m, i, (n - 1) as nat);
    }
}

} // verus!
