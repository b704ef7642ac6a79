//! The levels of a merge tree as the bits of its flush count: which levels
//! hold a run, which flush put it there, and what one more flush changes.

use vstd::prelude::*;

verus! {

/// Whether level `level` holds a run after `tree_size` flushes.
pub open spec fn level_present(tree_size: u32, level: nat) -> bool {
    1 <= level <= 32 && (tree_size >> ((level - 1) as u32)) & 1 == 1
}

/// Whether some level from `level` on holds a run after `tree_size` flushes.
pub open spec fn level_in_reach(tree_size: u32, level: nat) -> bool {
    1 <= level <= 32 && (tree_size >> ((level - 1) as u32)) != 0
}

/// The number of the run that level `level` holds after `tree_size`
/// flushes: the number of the flush that put it there.
pub open spec fn level_run(tree_size: u32, level: nat) -> u32 {
    (tree_size >> ((level - 1) as u32)) << ((level - 1) as u32)
}

/// The lowest `bits` bits of `tree_size` are 0: no level up to `bits` holds
/// a run.
pub open spec fn low_zero(tree_size: u32, bits: nat) -> bool {
    bits <= 32 && (tree_size as u64) & (((1u64 << (bits as u64)) - 1) as u64) == 0
}

/// No bit is below bit 0.
pub proof fn lemma_low_zero_start(tree_size: u32)
    ensures
        low_zero(tree_size, 0),
{
    let t = tree_size as u64;
    assert(t & (((1u64 << 0u64) - 1) as u64) == 0) by (bit_vector);
}

/// Where the levels up to `level - 1` hold no run after the flush and level
/// `level` holds none either, the level held a run before the flush, put
/// there by flush number `tree_size - 2^(level - 1)`, and the flush has
/// emptied the levels up to `level`.
pub proof fn lemma_carry(before: u32, tree_size: u32, level: nat)
    requires
        1 <= level <= 32,
        before < u32::MAX,
        tree_size == before + 1,
        low_zero(tree_size, (level - 1) as nat),
        !level_present(tree_size, level),
    ensures
        level < 32,
        low_zero(tree_size, level),
        level_present(before, level),
        tree_size >= (1u32 << ((level - 1) as u32)),
        level_run(before, level) == tree_size - (1u32 << ((level - 1) as u32)),
        level_run(tree_size, level) == tree_size,
{
    let j = (level - 1) as u32;
    let t = tree_size;
    let b = before;
    assert(j < 31 && ((t as u64) & (((1u64 << ((j + 1) as u64)) - 1) as u64) == 0) && (b >> j) & 1
        == 1 && t >= (1u32 << j) && ((b >> j) << j) == (t - (1u32 << j)) as u32 && ((t >> j) << j)
        == t) by (bit_vector)
        requires
            j <= 31,
            b < 0xffff_ffffu32,
            t == (b + 1) as u32,
            (t as u64) & (((1u64 << (j as u64)) - 1) as u64) == 0,
            (t >> j) & 1 != 1,
    ;
}

/// Where the levels up to `level - 1` hold no run after the flush and level
/// `level` holds one, the level held none before the flush, and its run is
/// the one that the flush put there.
pub proof fn lemma_settle(before: u32, tree_size: u32, level: nat)
    requires
        1 <= level <= 32,
        before < u32::MAX,
        tree_size == before + 1,
        low_zero(tree_size, (level - 1) as nat),
        level_present(tree_size, level),
    ensures
        !level_present(before, level),
        level_run(tree_size, level) == tree_size,
{
    let j = (level - 1) as u32;
    let t = tree_size;
    let b = before;
    assert((b >> j) & 1 != 1 && ((t >> j) << j) == t) by (bit_vector)
        requires
            j <= 31,
            b < 0xffff_ffffu32,
            t == (b + 1) as u32,
            (t as u64) & (((1u64 << (j as u64)) - 1) as u64) == 0,
            (t >> j) & 1 == 1,
    ;
}

/// Where the flush settles at level `level`, the levels above hold after
/// the flush what they held before it.
pub proof fn lemma_above(before: u32, tree_size: u32, level: nat, above: nat)
    requires
        1 <= level < above <= 32,
        before < u32::MAX,
        tree_size == before + 1,
        low_zero(tree_size, (level - 1) as nat),
        level_present(tree_size, level),
    ensures
        level_present(tree_size, above) == level_present(before, above),
        level_run(tree_size, above) == level_run(before, above),
        level_in_reach(tree_size, above) == level_in_reach(before, above),
{
    let j = (level - 1) as u32;
    let l = (above - 1) as u32;
    let t = tree_size;
    let b = before;
    assert((t >> l) == (b >> l)) by (bit_vector)
        requires
            j < l <= 31,
            b < 0xffff_ffffu32,
            t == (b + 1) as u32,
            (t as u64) & (((1u64 << (j as u64)) - 1) as u64) == 0,
            (t >> j) & 1 == 1,
    ;
}

/// A level below the lowest bits that are 0 holds no run.
pub proof fn lemma_below(tree_size: u32, bits: nat, level: nat)
    requires
        1 <= level <= bits <= 32,
        low_zero(tree_size, bits),
    ensures
        !level_present(tree_size, level),
{
    let j = (level - 1) as u32;
    let n = bits as u64;
    let t = tree_size;
    assert((t >> j) & 1 != 1) by (bit_vector)
        requires
            j < n <= 32,
            (t as u64) & (((1u64 << n) - 1) as u64) == 0,
    ;
}

/// A level that holds a run is in reach, and so is every level below it;
/// the number of its run is at most the flush count and not 0.
pub proof fn lemma_present(tree_size: u32, level: nat, below: nat)
    requires
        1 <= below <= level,
        level_present(tree_size, level),
    ensures
        level_in_reach(tree_size, below),
        1 <= level_run(tree_size, level) <= tree_size,
{
    let j = (level - 1) as u32;
    let i = (below - 1) as u32;
    let t = tree_size;
    assert((t >> i) != 0 && 1 <= ((t >> j) << j) && ((t >> j) << j) <= t) by (bit_vector)
        requires
            i <= j <= 31,
            (t >> j) & 1 == 1,
    ;
}

} // verus!
