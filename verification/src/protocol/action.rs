//! What a bot asks for on a tick.
use vstd::prelude::*;

use crate::proto::codec::ProtoError;
use crate::proto::types::Direction;

verus! {

/// What a player wants to do on a tick.
#[derive(Debug, Clone, Copy, PartialEq, Eq, Hash, Structural)]
pub enum Action {
    /// "I am alive and doing nothing." Identical in effect to sending no
    /// packet at all; it lets an idle bot be told apart from a crashed one.
    Idle,
    Up,
    Down,
    Left,
    Right,
    Bomb,
    UpBomb,
    DownBomb,
    LeftBomb,
    RightBomb,
    /// Request a slot, or ask for `MATCH_INIT` to be re-sent.
    Hello,
}

pub open spec fn action_code(a: Action) -> u8 {
    match a {
        Action::Idle => 0,
        Action::Up => 1,
        Action::Down => 2,
        Action::Left => 3,
        Action::Right => 4,
        Action::Bomb => 5,
        Action::UpBomb => 6,
        Action::DownBomb => 7,
        Action::LeftBomb => 8,
        Action::RightBomb => 9,
        Action::Hello => 15,
    }
}

/// The action a code names, if any. Codes 10..=14 are reserved.
pub open spec fn action_of(code: u8) -> Option<Action> {
    if code == 0 {
        Some(Action::Idle)
    } else if code == 1 {
        Some(Action::Up)
    } else if code == 2 {
        Some(Action::Down)
    } else if code == 3 {
        Some(Action::Left)
    } else if code == 4 {
        Some(Action::Right)
    } else if code == 5 {
        Some(Action::Bomb)
    } else if code == 6 {
        Some(Action::UpBomb)
    } else if code == 7 {
        Some(Action::DownBomb)
    } else if code == 8 {
        Some(Action::LeftBomb)
    } else if code == 9 {
        Some(Action::RightBomb)
    } else if code == 15 {
        Some(Action::Hello)
    } else {
        None
    }
}

pub open spec fn spec_action_from_code(code: u8) -> Result<Action, ProtoError> {
    match action_of(code) {
        Some(a) => Ok(a),
        None => Err(ProtoError::InvalidValue { field: "action", value: code as u32 }),
    }
}

pub open spec fn spec_movement(a: Action) -> Option<Direction> {
    match a {
        Action::Up | Action::UpBomb => Some(Direction::Up),
        Action::Down | Action::DownBomb => Some(Direction::Down),
        Action::Left | Action::LeftBomb => Some(Direction::Left),
        Action::Right | Action::RightBomb => Some(Direction::Right),
        _ => None,
    }
}

pub open spec fn spec_places_bomb(a: Action) -> bool {
    match a {
        Action::Bomb | Action::UpBomb | Action::DownBomb | Action::LeftBomb | Action::RightBomb => true,
        _ => false,
    }
}

/// Every code names at most one action, and every action's code names it.
pub proof fn lemma_action_code_roundtrip(a: Action)
    ensures
        action_of(action_code(a)) == Some(a),
        action_code(a) < 16,
{
}

impl Action {
    pub fn from_code(code: u8) -> (res: Result<Action, ProtoError>)
        ensures
            res == spec_action_from_code(code),
    {
        match code {
            0 => Ok(Action::Idle),
            1 => Ok(Action::Up),
            2 => Ok(Action::Down),
            3 => Ok(Action::Left),
            4 => Ok(Action::Right),
            5 => Ok(Action::Bomb),
            6 => Ok(Action::UpBomb),
            7 => Ok(Action::DownBomb),
            8 => Ok(Action::LeftBomb),
            9 => Ok(Action::RightBomb),
            15 => Ok(Action::Hello),
            other => Err(ProtoError::InvalidValue { field: "action", value: other as u32 }),
        }
    }

    pub fn code(self) -> (c: u8)
        ensures
            c == action_code(self),
    {
        match self {
            Action::Idle => 0,
            Action::Up => 1,
            Action::Down => 2,
            Action::Left => 3,
            Action::Right => 4,
            Action::Bomb => 5,
            Action::UpBomb => 6,
            Action::DownBomb => 7,
            Action::LeftBomb => 8,
            Action::RightBomb => 9,
            Action::Hello => 15,
        }
    }

    /// The movement component, if any.
    pub fn movement(self) -> (d: Option<Direction>)
        ensures
            d == spec_movement(self),
    {
        match self {
            Action::Up | Action::UpBomb => Some(Direction::Up),
            Action::Down | Action::DownBomb => Some(Direction::Down),
            Action::Left | Action::LeftBomb => Some(Direction::Left),
            Action::Right | Action::RightBomb => Some(Direction::Right),
            _ => None,
        }
    }

    /// Whether this action also drops a bomb on the player's current cell.
    pub fn places_bomb(self) -> (b: bool)
        ensures
            b == spec_places_bomb(self),
    {
        match self {
            Action::Bomb | Action::UpBomb | Action::DownBomb | Action::LeftBomb
            | Action::RightBomb => true,
            _ => false,
        }
    }

    /// Combine a direction with an optional bomb drop into a single action.
    pub fn moving(dir: Direction, bomb: bool) -> (a: Action)
        ensures
            spec_movement(a) == Some(dir),
            spec_places_bomb(a) == bomb,
    {
        match (dir, bomb) {
            (Direction::Up, false) => Action::Up,
            (Direction::Down, false) => Action::Down,
            (Direction::Left, false) => Action::Left,
            (Direction::Right, false) => Action::Right,
            (Direction::Up, true) => Action::UpBomb,
            (Direction::Down, true) => Action::DownBomb,
            (Direction::Left, true) => Action::LeftBomb,
            (Direction::Right, true) => Action::RightBomb,
        }
    }
}

} // verus!
