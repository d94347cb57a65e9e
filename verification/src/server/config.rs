//! The shape of `server.toml`, its defaults, and the rules it yields.
//!
//! Every field has a default, so a missing or partial file is a valid one.
//! Reading and parsing the file is the application's job; what the numbers
//! mean is decided here.
use vstd::prelude::*;

use crate::proto::types::{default_rules, Rules};
use crate::proto::{DEFAULT_UDP_PORT, DEFAULT_WEB_PORT, TICK_RATE};

verus! {

/// The decimal digits of `n`.
pub open spec fn decimal(n: nat) -> Seq<char>
    decreases n,
{
    if n < 10 {
        seq![(48 + n) as char]
    } else {
        decimal(n / 10).push((48 + n % 10) as char)
    }
}

/// `host:port`, spelled by `format!` from a string and an integer: the
/// string as it is, a colon, and the integer's decimal digits.
#[verifier::external_body]
fn socket_address(host: &str, port: u16) -> (s: String)
    ensures
        s@ == host@ + seq![':'] + decimal(port as nat),
{
    format!("{}:{}", host, port)
}

#[derive(Debug, Clone)]
pub struct ServerSection {
    /// Where bots send their two bytes.
    pub bind: String,
    /// Where the visualizer and moderation UI connect.
    pub web_bind: String,
    /// How often a full keyframe goes out: the ceiling on how long a bot
    /// stays desynced after losing a datagram.
    pub keyframe_interval_ticks: u32,
    /// Consecutive ticks `MATCH_INIT` is repeated on.
    pub match_init_repeats: u32,
    /// Directory holding the built visualizer, served at `/`.
    pub static_dir: String,
}

impl Default for ServerSection {
    /// Bots on every interface at the default UDP port; the web side on
    /// loopback only, since moderation has no authentication.
    fn default() -> (s: Self)
        ensures
            s.bind@ == "0.0.0.0"@ + seq![':'] + decimal(DEFAULT_UDP_PORT as nat),
            s.web_bind@ == "127.0.0.1"@ + seq![':'] + decimal(DEFAULT_WEB_PORT as nat),
            s.keyframe_interval_ticks == 30,
            s.match_init_repeats == 5,
            s.static_dir@ == "visualizer/dist"@,
    {
        ServerSection {
            bind: socket_address("0.0.0.0", DEFAULT_UDP_PORT),
            web_bind: socket_address("127.0.0.1", DEFAULT_WEB_PORT),
            keyframe_interval_ticks: 30,
            match_init_repeats: 5,
            static_dir: "visualizer/dist".to_owned(),
        }
    }
}

#[derive(Debug, Clone, Copy, PartialEq, Eq)]
pub struct LobbySection {
    pub min_players: u8,
    pub max_players: u8,
    pub countdown_ticks: u16,
    /// A seat silent for this long is shown as stale in the moderation UI.
    pub stale_after_ticks: u32,
    pub lobby_status_interval_ticks: u32,
}

impl Default for LobbySection {
    fn default() -> (s: Self)
        ensures
            s == (LobbySection {
                min_players: 2,
                max_players: 4,
                countdown_ticks: 180,
                stale_after_ticks: 120,
                lobby_status_interval_ticks: 30,
            }),
    {
        LobbySection {
            min_players: 2,
            max_players: 4,
            countdown_ticks: 180,
            stale_after_ticks: 120,
            lobby_status_interval_ticks: 30,
        }
    }
}

#[derive(Debug, Clone, Copy, PartialEq, Eq)]
pub struct RulesSection {
    pub bomb_fuse_ticks: u16,
    pub flame_duration_ticks: u16,
    pub ticks_per_cell: u8,
    pub speed_step_ticks: u8,
    pub start_bombs: u8,
    pub start_flame: u8,
    pub max_flame: u8,
    pub max_speed: u8,
    pub powerup_chance_pct: u8,
    pub round_time_secs: u32,
    pub sudden_death_secs: u32,
}

impl Default for RulesSection {
    /// The default rules, with a three-minute round and sudden death from
    /// the second minute.
    fn default() -> (s: Self)
        ensures
            s == (RulesSection {
                bomb_fuse_ticks: default_rules().bomb_fuse_ticks,
                flame_duration_ticks: default_rules().flame_duration_ticks,
                ticks_per_cell: default_rules().ticks_per_cell,
                speed_step_ticks: default_rules().speed_step_ticks,
                start_bombs: default_rules().start_bombs,
                start_flame: default_rules().start_flame,
                max_flame: default_rules().max_flame,
                max_speed: default_rules().max_speed,
                powerup_chance_pct: default_rules().powerup_chance_pct,
                round_time_secs: 180,
                sudden_death_secs: 120,
            }),
    {
        let rules = Rules::default();
        RulesSection {
            bomb_fuse_ticks: rules.bomb_fuse_ticks,
            flame_duration_ticks: rules.flame_duration_ticks,
            ticks_per_cell: rules.ticks_per_cell,
            speed_step_ticks: rules.speed_step_ticks,
            start_bombs: rules.start_bombs,
            start_flame: rules.start_flame,
            max_flame: rules.max_flame,
            max_speed: rules.max_speed,
            powerup_chance_pct: rules.powerup_chance_pct,
            round_time_secs: 180,
            sudden_death_secs: 120,
        }
    }
}

/// Seconds as ticks at the fixed tick rate, saturating.
pub open spec fn secs_to_ticks(secs: u32) -> u32 {
    if secs * TICK_RATE > u32::MAX {
        u32::MAX
    } else {
        (secs * TICK_RATE) as u32
    }
}

/// The rules a configured section yields: at least one tick per cell, one
/// starting bomb and one starting flame, a drop chance of at most 100
/// percent, and both timers in ticks counted from the start of the match.
pub open spec fn spec_section_rules(s: RulesSection) -> Rules {
    Rules {
        bomb_fuse_ticks: s.bomb_fuse_ticks,
        flame_duration_ticks: s.flame_duration_ticks,
        ticks_per_cell: if s.ticks_per_cell < 1 {
            1
        } else {
            s.ticks_per_cell
        },
        speed_step_ticks: s.speed_step_ticks,
        start_bombs: if s.start_bombs < 1 {
            1
        } else {
            s.start_bombs
        },
        start_flame: if s.start_flame < 1 {
            1
        } else {
            s.start_flame
        },
        max_flame: s.max_flame,
        max_speed: s.max_speed,
        powerup_chance_pct: if s.powerup_chance_pct > 100 {
            100
        } else {
            s.powerup_chance_pct
        },
        round_time_ticks: secs_to_ticks(s.round_time_secs),
        sudden_death_tick: secs_to_ticks(s.sudden_death_secs),
    }
}

fn ticks(secs: u32) -> (t: u32)
    ensures
        t == secs_to_ticks(secs),
{
    assert(secs * TICK_RATE <= 0xffff_ffff * 60) by (nonlinear_arith)
        requires
            secs <= 0xffff_ffff,
            TICK_RATE == 60,
    ;
    let t: u64 = secs as u64 * TICK_RATE as u64;
    if t > u32::MAX as u64 {
        u32::MAX
    } else {
        t as u32
    }
}

/// The rules a configured section yields.
pub fn section_rules(s: &RulesSection) -> (r: Rules)
    ensures
        r == spec_section_rules(*s),
{
    Rules {
        bomb_fuse_ticks: s.bomb_fuse_ticks,
        flame_duration_ticks: s.flame_duration_ticks,
        ticks_per_cell: if s.ticks_per_cell < 1 {
            1
        } else {
            s.ticks_per_cell
        },
        speed_step_ticks: s.speed_step_ticks,
        start_bombs: if s.start_bombs < 1 {
            1
        } else {
            s.start_bombs
        },
        start_flame: if s.start_flame < 1 {
            1
        } else {
            s.start_flame
        },
        max_flame: s.max_flame,
        max_speed: s.max_speed,
        powerup_chance_pct: if s.powerup_chance_pct > 100 {
            100
        } else {
            s.powerup_chance_pct
        },
        round_time_ticks: ticks(s.round_time_secs),
        sudden_death_tick: ticks(s.sudden_death_secs),
    }
}

/// The default section yields the default rules.
pub proof fn lemma_default_section_rules()
    ensures
        spec_section_rules(
            RulesSection {
                bomb_fuse_ticks: default_rules().bomb_fuse_ticks,
                flame_duration_ticks: default_rules().flame_duration_ticks,
                ticks_per_cell: default_rules().ticks_per_cell,
                speed_step_ticks: default_rules().speed_step_ticks,
                start_bombs: default_rules().start_bombs,
                start_flame: default_rules().start_flame,
                max_flame: default_rules().max_flame,
                max_speed: default_rules().max_speed,
                powerup_chance_pct: default_rules().powerup_chance_pct,
                round_time_secs: 180,
                sudden_death_secs: 120,
            },
        ) == default_rules(),
{
}

/// The lobby and delivery numbers a session runs with.
#[derive(Debug, Clone, Copy, PartialEq, Eq)]
pub struct SessionSettings {
    pub min_players: u8,
    pub max_players: u8,
    pub keyframe_interval_ticks: u32,
    pub countdown_ticks: u16,
    pub match_init_repeats: u32,
    pub lobby_status_interval_ticks: u32,
    pub stale_after_ticks: u32,
}

/// At least one.
pub open spec fn at_least_one(v: int) -> int {
    if v < 1 {
        1
    } else {
        v
    }
}

/// The session numbers the configured sections yield: player limits, the
/// keyframe interval, the `MATCH_INIT` repeats and the lobby status
/// interval are each at least one; the countdown and staleness are taken as
/// they are.
pub fn session_settings(lobby: &LobbySection, server: &ServerSection) -> (s: SessionSettings)
    ensures
        s.min_players == at_least_one(lobby.min_players as int),
        s.max_players == at_least_one(lobby.max_players as int),
        s.keyframe_interval_ticks == at_least_one(server.keyframe_interval_ticks as int),
        s.countdown_ticks == lobby.countdown_ticks,
        s.match_init_repeats == at_least_one(server.match_init_repeats as int),
        s.lobby_status_interval_ticks == at_least_one(lobby.lobby_status_interval_ticks as int),
        s.stale_after_ticks == lobby.stale_after_ticks,
{
    SessionSettings {
        min_players: if lobby.min_players < 1 {
            1
        } else {
            lobby.min_players
        },
        max_players: if lobby.max_players < 1 {
            1
        } else {
            lobby.max_players
        },
        keyframe_interval_ticks: if server.keyframe_interval_ticks < 1 {
            1
        } else {
            server.keyframe_interval_ticks
        },
        countdown_ticks: lobby.countdown_ticks,
        match_init_repeats: if server.match_init_repeats < 1 {
            1
        } else {
            server.match_init_repeats
        },
        lobby_status_interval_ticks: if lobby.lobby_status_interval_ticks < 1 {
            1
        } else {
            lobby.lobby_status_interval_ticks
        },
        stale_after_ticks: lobby.stale_after_ticks,
    }
}

} // verus!
