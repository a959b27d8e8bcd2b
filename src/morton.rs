//! Z-order (Morton) indexing of the tiles of one zoom level.
//!
//! An index interleaves the bits of a tile's coordinates: bit `k` of `x`
//! becomes bit `2k` of the index and bit `k` of `y` becomes bit `2k + 1`.
use vstd::arithmetic::power2::{lemma2_to64, lemma_pow2_unfold, pow2};
use vstd::prelude::*;

verus! {

/// The column encoded by a Morton index: its bits at even positions.
pub open spec fn morton_x(i: nat) -> nat
    decreases i,
{
    if i == 0 {
        0
    } else {
        i % 2 + 2 * morton_x(i / 4)
    }
}

/// The row encoded by a Morton index: its bits at odd positions.
pub open spec fn morton_y(i: nat) -> nat
    decreases i,
{
    if i == 0 {
        0
    } else {
        (i / 2) % 2 + 2 * morton_y(i / 4)
    }
}

/// The Morton index of the tile at column `x` and row `y`.
pub open spec fn morton_index(x: nat, y: nat) -> nat
    decreases x, y,
{
    if x == 0 && y == 0 {
        0
    } else {
        x % 2 + 2 * (y % 2) + 4 * morton_index(x / 2, y / 2)
    }
}

/// Relies on zorder::coord_of: the first coordinate gathers the bits of the
/// index at even positions, the second those at odd positions.
pub assume_specification[ zorder::coord_of ](idx: u32) -> (r: (u16, u16))
    ensures
        r.0 == morton_x(idx as nat),
        r.1 == morton_y(idx as nat),
;

/// Relies on zorder::index_of: the bits of the first coordinate go to even
/// positions of the index, those of the second to odd positions.
pub assume_specification[ zorder::index_of ](c: (u16, u16)) -> (r: u32)
    ensures
        r == morton_index(c.0 as nat, c.1 as nat),
;

/// The coordinates `(x, y)` of the tile with Morton index `index`.
pub fn decode(index: u32) -> (r: (u16, u16))
    ensures
        r.0 == morton_x(index as nat),
        r.1 == morton_y(index as nat),
        morton_index(r.0 as nat, r.1 as nat) == index,
{
    proof {
        lemma_index_of_coords(index as nat);
    }
    zorder::coord_of(index)
}

/// The Morton index of the tile at column `x` and row `y`.
pub fn encode(x: u16, y: u16) -> (r: u32)
    ensures
        r == morton_index(x as nat, y as nat),
        morton_x(r as nat) == x,
        morton_y(r as nat) == y,
{
    proof {
        lemma_coords_of_index(x as nat, y as nat);
    }
    zorder::index_of((x, y))
}

/// Interleaving the coordinates that an index encodes gives the index back.
pub proof fn lemma_index_of_coords(i: nat)
    ensures
        morton_index(morton_x(i), morton_y(i)) == i,
    decreases i,
{
    if i > 0 {
        lemma_index_of_coords(i / 4);
        let a = morton_x(i);
        let b = morton_y(i);
        assert(a % 2 == i % 2 && a / 2 == morton_x(i / 4));
        assert(b % 2 == (i / 2) % 2 && b / 2 == morton_y(i / 4));
        if a == 0 && b == 0 {
            assert(morton_x(i / 4) == 0 && morton_y(i / 4) == 0);
            assert(i / 4 == 0);
        }
    }
}

/// De-interleaving the index of a tile gives the tile's coordinates back.
pub proof fn lemma_coords_of_index(x: nat, y: nat)
    ensures
        morton_x(morton_index(x, y)) == x,
        morton_y(morton_index(x, y)) == y,
    decreases x, y,
{
    if x != 0 || y != 0 {
        lemma_coords_of_index(x / 2, y / 2);
        let m = morton_index(x / 2, y / 2);
        let i = morton_index(x, y);
        assert(i == x % 2 + 2 * (y % 2) + 4 * m);
        assert(i % 2 == x % 2 && (i / 2) % 2 == y % 2 && i / 4 == m);
        if i == 0 {
            assert(x % 2 == 0 && y % 2 == 0 && m == 0);
            assert(x / 2 == 0 && y / 2 == 0);
        }
    }
}

/// Every index of a level of `4^z` tiles encodes a tile of its `2^z x 2^z`
/// grid.
pub proof fn lemma_coords_in_level(z: nat, i: nat)
    requires
        i < pow2(2 * z),
    ensures
        morton_x(i) < pow2(z),
        morton_y(i) < pow2(z),
    decreases z,
{
    if z == 0 {
        lemma2_to64();
    } else {
        lemma_pow2_unfold(z);
        lemma_pow2_unfold((2 * z - 1) as nat);
        lemma_pow2_unfold((2 * z) as nat);
        assert(((2 * z - 1) - 1) as nat == 2 * (z - 1) as nat);
        lemma_coords_in_level((z - 1) as nat, i / 4);
    }
}

/// Every tile of a `2^z x 2^z` grid has an index below `4^z`.
pub proof fn lemma_index_in_level(z: nat, x: nat, y: nat)
    requires
        x < pow2(z),
        y < pow2(z),
    ensures
        morton_index(x, y) < pow2(2 * z),
    decreases z,
{
    if z == 0 {
        lemma2_to64();
    } else {
        lemma_pow2_unfold(z);
        lemma_pow2_unfold((2 * z - 1) as nat);
        lemma_pow2_unfold((2 * z) as nat);
        assert(((2 * z - 1) - 1) as nat == 2 * (z - 1) as nat);
        lemma_index_in_level((z - 1) as nat, x / 2, y / 2);
    }
}

/// Within one zoom level, decoding then encoding an index gives it back, and
/// the decoded tile lies in the level's grid.
pub proof fn lemma_level_bijection(z: nat, i: nat)
    requires
        i < pow2(2 * z),
    ensures
        morton_x(i) < pow2(z),
        morton_y(i) < pow2(z),
        morton_index(morton_x(i), morton_y(i)) == i,
{
    lemma_coords_in_level(z, i);
    lemma_index_of_coords(i);
}

/// Within one zoom level, encoding then decoding a tile of the level's grid
/// gives it back, and its index lies below the level's tile count.
pub proof fn lemma_grid_bijection(z: nat, x: nat, y: nat)
    requires
        x < pow2(z),
        y < pow2(z),
    ensures
        morton_index(x, y) < pow2(2 * z),
        morton_x(morton_index(x, y)) == x,
        morton_y(morton_index(x, y)) == y,
{
    lemma_index_in_level(z, x, y);
    lemma_coords_of_index(x, y);
}

} // verus!
