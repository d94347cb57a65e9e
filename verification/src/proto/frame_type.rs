//! Frame tags. Stable: adding a frame means adding a tag, never renumbering.
use vstd::prelude::*;

verus! {

pub const ASSIGNED: u8 = 0x00;
pub const LOBBY_STATUS: u8 = 0x01;
pub const MATCH_INIT: u8 = 0x02;
pub const KEYFRAME: u8 = 0x03;
pub const DELTA: u8 = 0x04;
pub const MATCH_END: u8 = 0x05;

} // verus!
