//! The hash of a position: the XOR, over all intersections, of the key that
//! belongs to the intersection and its state.

use vstd::prelude::*;
use crate::cells::{cell_at, within, CELLS, COLS, ROWS};
use crate::go::{at, Grid};

verus! {

/// What the coordinate with row-major index `k` in the frame adds to the
/// hash of a grid: the key of the intersection in the state that the grid
/// gives it, and nothing where the coordinate lies off the board.
pub open spec fn key_of(keys: [[[u64; 3]; COLS]; ROWS], g: Grid, k: int) -> u64 {
    if within(g.len(), cell_at(k)) {
        keys[cell_at(k).0 as int][cell_at(k).1 as int][at(g, cell_at(k)).state() as int]
    } else {
        0
    }
}

/// The XOR of what the first `n` coordinates of the frame add.
pub open spec fn hash_upto(keys: [[[u64; 3]; COLS]; ROWS], g: Grid, n: nat) -> u64
    decreases n,
{
    if n == 0 {
        0
    } else {
        hash_upto(keys, g, (n - 1) as nat) ^ key_of(keys, g, n - 1)
    }
}

/// The hash of a position. It depends on which stone stands where, and on
/// nothing else: not on the order of the moves, nor on what the stones record.
pub open spec fn position_hash(keys: [[[u64; 3]; COLS]; ROWS], g: Grid) -> u64 {
    hash_upto(keys, g, CELLS as nat)
}

/// Whether two grids of one size show the same stones.
pub open spec fn same_stones(a: Grid, b: Grid) -> bool {
    &&& a.len() == b.len()
    &&& forall|k: int|
        0 <= k < CELLS && within(a.len(), cell_at(k)) ==> (#[trigger] at(a, cell_at(k))).state() == at(
            b,
            cell_at(k),
        ).state()
}

/// Two grids that show the same stones have the same hash.
pub proof fn lemma_hash_of_stones(keys: [[[u64; 3]; COLS]; ROWS], a: Grid, b: Grid, n: nat)
    requires
        same_stones(a, b),
        n <= CELLS,
    ensures
        hash_upto(keys, a, n) == hash_upto(keys, b, n),
    decreases n,
{
    if n > 0 {
        lemma_hash_of_stones(keys, a, b, (n - 1) as nat);
        if within(a.len(), cell_at(n - 1)) {
            assert(at(a, cell_at(n - 1)).state() == at(b, cell_at(n - 1)).state());
        }
    }
}

/// Taking one key out of a running hash and putting another in changes the
/// two prefixes that the running hash stands between by those keys.
pub proof fn lemma_xor_swap(h: u64, a: u64, b: u64, out: u64, into: u64)
    ensures
        ((h ^ a) ^ b) ^ (out ^ into) == (h ^ (a ^ out)) ^ (b ^ into),
        (h ^ a) ^ b == (h ^ (a ^ out)) ^ (b ^ out),
        (h ^ 0) ^ 0 == h,
        (a ^ a) ^ b == b,
{
    assert(((h ^ a) ^ b) ^ (out ^ into) == (h ^ (a ^ out)) ^ (b ^ into)) by (bit_vector);
    assert((h ^ a) ^ b == (h ^ (a ^ out)) ^ (b ^ out)) by (bit_vector);
    assert((h ^ 0) ^ 0 == h) by (bit_vector);
    assert((a ^ a) ^ b == b) by (bit_vector);
}

} // verus!
