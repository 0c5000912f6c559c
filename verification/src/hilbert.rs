//! Numbering the cells of a square along the Hilbert curve.

use vstd::prelude::*;

use vstd::arithmetic::power2::pow2;

verus! {

/// The number that `fast_hilbert` gives a cell on the curve of an order.
pub uninterp spec fn hilbert_number(x: u32, y: u32, order: u8) -> u64;

/// Numbers a cell with `fast_hilbert::xy2h`. The number depends on the cell and the
/// order alone, stays below the number of cells, and is that of no other cell:
/// the curve passes through every cell once. The curve itself is not stated.
#[verifier::external_body]
pub(crate) fn hilbert(x: u32, y: u32, order: u8) -> (number: u64)
    requires
        order <= 31,
        x < pow2(order as nat),
        y < pow2(order as nat),
    ensures
        number == hilbert_number(x, y, order),
        number < pow2(2 * order as nat),
        forall|x2: u32, y2: u32|
            x2 < pow2(order as nat) && y2 < pow2(order as nat) && #[trigger] hilbert_number(
                x2,
                y2,
                order,
            ) == number ==> x2 == x && y2 == y,
{
    fast_hilbert::xy2h(x, y, order)
}

} // verus!
