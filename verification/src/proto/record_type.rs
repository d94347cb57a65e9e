//! Delta record tags. Stable: adding a record means adding a tag, never renumbering.
use vstd::prelude::*;

verus! {

pub const PLAYER_STATE: u8 = 0x01;
pub const PLAYER_STATS: u8 = 0x02;
pub const BOMB_ADD: u8 = 0x03;
pub const BOMB_REMOVE: u8 = 0x04;
pub const EXPLOSION: u8 = 0x05;
pub const TILE_SET: u8 = 0x06;
pub const POWERUP_ADD: u8 = 0x07;
pub const POWERUP_REMOVE: u8 = 0x08;
pub const PLAYER_DEATH: u8 = 0x09;
pub const FLAME_ADD: u8 = 0x0A;
pub const FLAME_REMOVE: u8 = 0x0B;
pub const TIMER: u8 = 0x0C;

} // verus!
