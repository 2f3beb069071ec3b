//! Integer cell coordinates and the fixed-seed cell hash.
//!
//! A position is assigned to the square grid cell whose integer coordinates
//! are the floors of `position / cell_size`; that (float) conversion happens
//! outside the library, which works on the integer coordinates alone. The
//! hash combines the two coordinates with a fixed seed, so within one process
//! identical coordinates always receive the identical bucket key.

use vstd::prelude::*;

verus! {

/// Integer coordinates of one true (unhashed) grid cell.
#[derive(Clone, Copy, PartialEq, Eq, Structural, Debug)]
pub struct GridCell {
    pub x: i32,
    pub y: i32,
}

/// Fixed seed of the cell hash; constant for the lifetime of the process, so
/// results are reproducible within a run.
pub const HASH_SEED: u64 = 42;

/// Odd 64-bit multiplier mixing the x coordinate.
pub const HASH_MULT_X: u64 = 0x9E37_79B9_7F4A_7C15;

/// Odd 64-bit multiplier mixing the y coordinate.
pub const HASH_MULT_Y: u64 = 0xC2B2_AE3D_27D4_EB4F;

/// The two's-complement image of a cell coordinate, as an unsigned value
/// below 2^32.
spec fn spec_coord_bits(c: i32) -> u64 {
    if c >= 0 {
        c as u64
    } else {
        (c + 0x1_0000_0000) as u64
    }
}

/// The 64-bit hash of a cell: both coordinates are multiplied into a wide
/// accumulator together with the seed, the high bits are folded down, and
/// the result is reduced to 64 bits.
pub closed spec fn spec_cell_hash(c: GridCell) -> u64 {
    let m = (spec_coord_bits(c.x) * HASH_MULT_X + spec_coord_bits(c.y) * HASH_MULT_Y
        + HASH_SEED) as u128;
    ((((m ^ (m >> 32)) as int) % 0x1_0000_0000_0000_0000) as u64)
}

/// The bucket key of a cell: the hash reduced modulo the table size.
/// Meaningful only for a positive table size; an empty grid never hashes.
pub open spec fn spec_cell_key(c: GridCell, table_size: int) -> u32 {
    ((spec_cell_hash(c) as int % table_size) as u32)
}

fn coord_bits(c: i32) -> (r: u64)
    ensures
        r == spec_coord_bits(c),
        r < 0x1_0000_0000,
{
    if c >= 0 {
        c as u64
    } else {
        ((c as i64) + 0x1_0000_0000i64) as u64
    }
}

/// The 64-bit hash of a cell.
pub fn cell_hash(c: GridCell) -> (h: u64)
    ensures
        h == spec_cell_hash(c),
{
    let bx = coord_bits(c.x);
    let by = coord_bits(c.y);
    proof {
        assert((bx as u128) * (HASH_MULT_X as u128) <= 0xFFFF_FFFF * 0xFFFF_FFFF_FFFF_FFFF)
            by (nonlinear_arith)
            requires
                bx < 0x1_0000_0000,
        ;
        assert((by as u128) * (HASH_MULT_Y as u128) <= 0xFFFF_FFFF * 0xFFFF_FFFF_FFFF_FFFF)
            by (nonlinear_arith)
            requires
                by < 0x1_0000_0000,
        ;
    }
    let m: u128 = (bx as u128) * (HASH_MULT_X as u128) + (by as u128) * (HASH_MULT_Y as u128)
        + (HASH_SEED as u128);
    let folded: u128 = (m ^ (m >> 32)) % 0x1_0000_0000_0000_0000u128;
    folded as u64
}

/// The bucket key of a cell in a table of `table_size` buckets.
pub fn cell_key(c: GridCell, table_size: usize) -> (k: u32)
    requires
        0 < table_size <= u32::MAX as usize,
    ensures
        k == spec_cell_key(c, table_size as int),
        (k as usize) < table_size,
{
    let h = cell_hash(c);
    let t = table_size as u64;
    ((h % t) as u32)
}

/// Law: the cell hash is a pure function of the cell coordinates and the
/// table size — repeated hashing of identical inputs returns the identical
/// bucket key.
pub proof fn lemma_cell_key_deterministic(c1: GridCell, c2: GridCell, t1: int, t2: int)
    requires
        c1 == c2,
        t1 == t2,
    ensures
        spec_cell_key(c1, t1) == spec_cell_key(c2, t2),
{
}

} // verus!
