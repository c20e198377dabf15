//! Facts about the piece bits.

use crate::checkers::{BLACK, EMPTY, KING, WHITE};
use vstd::prelude::*;

verus! {

/// An empty square holds no bit of any mask.
pub proof fn lemma_empty_has_no_bit(mask: u8)
    ensures
        EMPTY & mask == 0,
{
    assert(0u8 & mask == 0) by (bit_vector);
}

/// Crowning sets the king bit and leaves the colour bits alone; uncrowning a
/// crowned man gives the man back.
pub proof fn lemma_crown(piece: u8)
    ensures
        (piece | KING) & KING != 0,
        (piece | KING) & WHITE == piece & WHITE,
        (piece | KING) & BLACK == piece & BLACK,
        (piece | KING) != EMPTY,
        piece & KING == 0 ==> (piece | KING) & !KING == piece,
{
    assert((piece | 4u8) & 4u8 != 0) by (bit_vector);
    assert((piece | 4u8) & 1u8 == piece & 1u8) by (bit_vector);
    assert((piece | 4u8) & 2u8 == piece & 2u8) by (bit_vector);
    assert((piece | 4u8) != 0) by (bit_vector);
    assert(piece & 4u8 == 0 ==> (piece | 4u8) & !4u8 == piece) by (bit_vector);
}

} // verus!
