//! 128-bit slot masks: what a mask holds, bit by bit, and the mask
//! operations that the block hierarchy is built from.

use vstd::prelude::*;

verus! {

/// The mask with every bit set.
pub const FULL: u128 = 0xFFFF_FFFF_FFFF_FFFF_FFFF_FFFF_FFFF_FFFF;

/// Whether bit `i` of `m` is set. Bits at or beyond 128 are never set.
pub open spec fn bit(m: u128, i: u32) -> bool {
    i < 128 && (m >> i) & 1 == 1
}

/// `a` has no bit that `b` lacks.
pub open spec fn subset(a: u128, b: u128) -> bool {
    forall|j: u32| bit(a, j) ==> bit(b, j)
}

/// The number of set bits of `m` among the bits below `k`.
pub open spec fn count_below(m: u128, k: u32) -> nat
    decreases k,
{
    if k == 0 {
        0
    } else {
        count_below(m, (k - 1) as u32) + if bit(m, (k - 1) as u32) {
            1nat
        } else {
            0nat
        }
    }
}

/// The number of set bits of `m`.
pub open spec fn count(m: u128) -> nat {
    count_below(m, 128)
}

/// The mask whose set bits are exactly `start .. start + run`.
pub open spec fn is_range_mask(r: u128, start: u32, run: u32) -> bool {
    forall|j: u32| bit(r, j) == (start <= j && j < start + run && j < 128)
}

/// How `|`, `&`, `& !` and `!` act on single bits.
pub proof fn lemma_bit_ops(a: u128, b: u128)
    by (bit_vector)
    ensures
        forall|j: u32| #[trigger] bit(a | b, j) == (bit(a, j) || bit(b, j)),
        forall|j: u32| #[trigger] bit(a & b, j) == (bit(a, j) && bit(b, j)),
        forall|j: u32| #[trigger] bit(a & !b, j) == (bit(a, j) && !bit(b, j)),
        forall|j: u32| j < 128 ==> #[trigger] bit(!a, j) == !bit(a, j),
{
}

/// The bits of the one-bit mask `1 << i`, of the empty mask and of the full mask.
pub proof fn lemma_bit_single(i: u32)
    by (bit_vector)
    requires
        i < 128,
    ensures
        forall|j: u32| #[trigger] bit(1u128 << i, j) == (j == i),
        forall|j: u32| !#[trigger] bit(0u128, j),
        forall|j: u32|
            j < 128 ==> #[trigger] bit(0xFFFF_FFFF_FFFF_FFFF_FFFF_FFFF_FFFF_FFFFu128, j),
{
}

/// The bits of a mask shifted right by `s`.
pub proof fn lemma_bit_shifted(m: u128, s: u32)
    by (bit_vector)
    requires
        s < 128,
    ensures
        forall|j: u32| j < 128 - s ==> #[trigger] bit(m >> s, j) == bit(m, (j + s) as u32),
        forall|j: u32| j >= 128 - s ==> !#[trigger] bit(m >> s, j),
{
}

/// The bits of a mask shifted left by `s`.
pub proof fn lemma_bit_shifted_left(m: u128, s: u32)
    by (bit_vector)
    requires
        s < 128,
    ensures
        forall|j: u32| s <= j < 128 ==> #[trigger] bit(m << s, j) == bit(m, (j - s) as u32),
        forall|j: u32| j < s ==> !#[trigger] bit(m << s, j),
{
}

/// Two masks that agree on the top bit agree when shifted down to it.
proof fn lemma_shift_top(a: u128, b: u128)
    by (bit_vector)
    requires
        ((a >> 127u32) & 1 == 1) == ((b >> 127u32) & 1 == 1),
    ensures
        a >> 127u32 == b >> 127u32,
{
}

/// Two masks that agree above bit `k` and on bit `k` agree from bit `k` on.
proof fn lemma_shift_step(a: u128, b: u128, k: u32, k1: u32)
    by (bit_vector)
    requires
        k < 127,
        k1 == k + 1,
        a >> k1 == b >> k1,
        ((a >> k) & 1 == 1) == ((b >> k) & 1 == 1),
    ensures
        a >> k == b >> k,
{
}

/// A shift by zero changes nothing.
proof fn lemma_shift_none(a: u128)
    by (bit_vector)
    ensures
        a >> 0u32 == a,
{
}

/// Two masks with the same bits agree when both are shifted right by `k`.
proof fn lemma_same_bits_from(a: u128, b: u128, k: u32)
    requires
        k < 128,
        forall|j: u32| j < 128 ==> bit(a, j) == bit(b, j),
    ensures
        a >> k == b >> k,
    decreases 128 - k,
{
    assert(bit(a, k) == bit(b, k));
    if k == 127 {
        lemma_shift_top(a, b);
    } else {
        lemma_same_bits_from(a, b, (k + 1) as u32);
        lemma_shift_step(a, b, k, (k + 1) as u32);
    }
}

/// Two masks with the same bits are the same mask.
pub proof fn lemma_bit_extensional(a: u128, b: u128)
    requires
        forall|j: u32| j < 128 ==> bit(a, j) == bit(b, j),
    ensures
        a == b,
{
    lemma_same_bits_from(a, b, 0);
    lemma_shift_none(a);
    lemma_shift_none(b);
}

/// Setting a bit of the full mask leaves it full; clearing a bit leaves no mask full.
pub proof fn lemma_full_absorbs(m: u128, i: u32)
    by (bit_vector)
    requires
        i < 128,
    ensures
        m == 0xFFFF_FFFF_FFFF_FFFF_FFFF_FFFF_FFFF_FFFFu128 ==> m | (1u128 << i)
            == 0xFFFF_FFFF_FFFF_FFFF_FFFF_FFFF_FFFF_FFFFu128,
        m & !(1u128 << i) != 0xFFFF_FFFF_FFFF_FFFF_FFFF_FFFF_FFFF_FFFFu128,
        m | (1u128 << i) != 0,
{
}

/// A mask is empty exactly when none of its bits is set.
pub proof fn lemma_empty_iff(m: u128)
    ensures
        m == 0 <==> forall|j: u32| j < 128 ==> !bit(m, j),
{
    lemma_bit_single(0);
    if forall|j: u32| j < 128 ==> !bit(m, j) {
        lemma_bit_extensional(m, 0);
    }
}

/// A mask is full exactly when all of its bits are set.
pub proof fn lemma_full_iff(m: u128)
    ensures
        m == FULL <==> forall|j: u32| j < 128 ==> bit(m, j),
{
    lemma_bit_single(0);
    if forall|j: u32| j < 128 ==> bit(m, j) {
        lemma_bit_extensional(m, FULL);
    }
}

/// A count never exceeds the number of bits counted, and reaches it
/// exactly when every counted bit is set.
pub proof fn lemma_count_bounds(m: u128, k: u32)
    requires
        k <= 128,
    ensures
        count_below(m, k) <= k,
        count_below(m, k) == k <==> forall|j: u32| j < k ==> bit(m, j),
        count_below(m, k) == 0 <==> forall|j: u32| j < k ==> !bit(m, j),
    decreases k,
{
    if k > 0 {
        lemma_count_bounds(m, (k - 1) as u32);
        if forall|j: u32| j < k ==> bit(m, j) {
            assert(bit(m, (k - 1) as u32));
        }
        if forall|j: u32| j < k ==> !bit(m, j) {
            assert(!bit(m, (k - 1) as u32));
        }
    }
}

/// `u128::trailing_zeros` returns the position of the lowest set bit, and
/// 128 for the empty mask.
pub assume_specification[ u128::trailing_zeros ](m: u128) -> (r: u32)
    ensures
        m == 0 ==> r == 128,
        m != 0 ==> r < 128 && bit(m, r) && forall|j: u32| j < r ==> !bit(m, j),
;

/// `u128::trailing_ones` returns the length of the run of set bits that
/// starts at bit 0, and 128 for the full mask.
pub assume_specification[ u128::trailing_ones ](m: u128) -> (r: u32)
    ensures
        r <= 128,
        forall|j: u32| j < r ==> bit(m, j),
        r < 128 ==> !bit(m, r),
;

/// `u128::count_ones` returns the number of set bits.
pub assume_specification[ u128::count_ones ](m: u128) -> (r: u32)
    ensures
        r == count(m),
;

/// Whether bit `i` of `m` is set.
#[inline(always)]
pub fn has_bit(m: u128, i: u32) -> (r: bool)
    requires
        i < 128,
    ensures
        r == bit(m, i),
{
    assert(((m >> i) & 1 != 0) == ((m >> i) & 1 == 1)) by (bit_vector);
    (m >> i) & 1 != 0
}

/// `m` with bit `i` set.
#[inline(always)]
pub fn with_bit(m: u128, i: u32) -> (r: u128)
    requires
        i < 128,
    ensures
        r == m | (1u128 << i),
        forall|j: u32| #[trigger] bit(r, j) == (bit(m, j) || j == i),
{
    proof {
        lemma_bit_ops(m, 1u128 << i);
        lemma_bit_single(i);
    }
    m | (1u128 << i)
}

/// `m` with bit `i` cleared.
#[inline(always)]
pub fn without_bit(m: u128, i: u32) -> (r: u128)
    requires
        i < 128,
    ensures
        r == m & !(1u128 << i),
        forall|j: u32| #[trigger] bit(r, j) == (bit(m, j) && j != i),
{
    proof {
        lemma_bit_ops(m, 1u128 << i);
        lemma_bit_single(i);
    }
    m & !(1u128 << i)
}

/// The mask of the `run` bits that start at `start`.
#[inline(always)]
pub fn range_mask(start: u32, run: u32) -> (r: u128)
    requires
        start < 128,
        1 <= run,
        start + run <= 128,
    ensures
        is_range_mask(r, start, run),
{
    let low = FULL >> (128 - run);
    let r = low << start;
    proof {
        lemma_bit_single(0);
        lemma_bit_shifted(FULL, (128 - run) as u32);
        lemma_bit_shifted_left(low, start);
        assert forall|j: u32| bit(r, j) == (start <= j && j < start + run && j < 128) by {
            if start <= j && j < 128 {
                assert(bit(r, j) == bit(low, (j - start) as u32));
                if j - start < run {
                    assert(bit(FULL, ((j - start) as u32 + (128 - run) as u32) as u32));
                }
            }
        }
    }
    r
}

/// The lowest run of set bits of a mask that is not empty: where it
/// starts and how long it is.
#[inline(always)]
pub fn lowest_run(m: u128) -> (r: (u32, u32))
    requires
        m != 0,
    ensures
        r.0 < 128,
        1 <= r.1,
        r.0 + r.1 <= 128,
        bit(m, r.0),
        forall|j: u32| j < r.0 ==> !bit(m, j),
        forall|j: u32| r.0 <= j && j < r.0 + r.1 ==> bit(m, j),
        r.0 + r.1 < 128 ==> !bit(m, (r.0 + r.1) as u32),
{
    let start = m.trailing_zeros();
    proof {
        lemma_bit_shifted(m, start);
    }
    let run = (m >> start).trailing_ones();
    proof {
        assert(bit(m >> start, 0));
        if start + run > 128 {
            assert(bit(m >> start, (128 - start) as u32));
        }
        assert forall|j: u32| start <= j && j < start + run implies bit(m, j) by {
            assert(bit(m >> start, (j - start) as u32));
        }
        if start + run < 128 {
            assert(!bit(m >> start, run));
        }
    }
    (start, run)
}

/// `m` without the `run` bits that start at `start`.
#[inline(always)]
pub fn without_range(m: u128, start: u32, run: u32) -> (r: u128)
    requires
        start < 128,
        1 <= run,
        start + run <= 128,
    ensures
        forall|j: u32| #[trigger] bit(r, j) == (bit(m, j) && !(start <= j && j < start + run)),
{
    let range = range_mask(start, run);
    proof {
        lemma_bit_ops(m, range);
    }
    m & !range
}

} // verus!
