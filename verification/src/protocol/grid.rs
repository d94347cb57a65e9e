//! Packing the board into bytes: two bits per cell, row-major, low bits first.
//!
//! A 15x13 board is 49 bytes and a 31x31 board 241, which is what lets a
//! keyframe carry the whole grid instead of a patch list.
use vstd::prelude::*;

use crate::proto::codec::{ProtoError, Reader, Writer};
use crate::proto::types::{lemma_mul_u8, packed_cells, spec_grid, spec_packed_len, TileGrid};

verus! {

/// Bytes needed for a packed `width` x `height` board.
pub fn packed_len(width: u8, height: u8) -> (n: usize)
    ensures
        n == spec_packed_len(width, height),
{
    proof {
        lemma_mul_u8(width, height);
    }
    (width as usize * height as usize + 3) / 4
}

/// Append the packed board.
pub fn encode(grid: &TileGrid, w: &mut Writer)
    requires
        grid.cells@.len() <= 4 * spec_packed_len(grid.width, grid.height),
    ensures
        final(w)@ == old(w)@ + packed_cells(grid.cells@, spec_packed_len(grid.width, grid.height)),
{
    grid.encode_packed(w);
}

/// Read a packed `width` x `height` board.
pub fn decode(r: &mut Reader, width: u8, height: u8) -> (res: Result<TileGrid, ProtoError>)
    ensures
        final(r)@.0 == old(r)@.0,
        match spec_grid(old(r)@.0, old(r)@.1, width, height) {
            Ok((g, p)) => res matches Ok(grid) && grid@ == g && final(r)@.1 == p,
            Err(e) => res == Err::<TileGrid, ProtoError>(e),
        },
{
    TileGrid::decode_packed(r, width, height)
}

} // verus!
