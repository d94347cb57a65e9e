//! The 4-bit wrapping sequence counter carried in the high nibble of byte 1.
use vstd::prelude::*;

use crate::proto::client::spec_seq_is_newer;

verus! {

/// Number of distinct sequence values.
pub const SEQ_SPACE: u8 = 16;

/// Mask for extracting a sequence value.
pub const SEQ_MASK: u8 = 0x0F;

/// Is `seq` newer than `previous` in wrapping 4-bit space?
///
/// Half the space counts as "ahead". Anything more than 8 ticks stale is
/// indistinguishable from fresh, which is harmless: the server only cares about
/// the newest packet inside the current tick's window.
pub fn seq_is_newer(seq: u8, previous: u8) -> (b: bool)
    ensures
        b == spec_seq_is_newer(seq, previous),
{
    let wrapped = seq.wrapping_sub(previous);
    let diff = wrapped & SEQ_MASK;
    assert(diff == wrapped % 16) by (bit_vector)
        requires
            diff == wrapped & 0x0Fu8,
    ;
    assert(wrapped as int == seq as int - previous as int || wrapped as int == seq as int
        - previous as int + 256);
    diff != 0 && diff < SEQ_SPACE / 2
}

} // verus!
