use bomber::proto::types::Rules;
use bomber::server::config::{section_rules, LobbySection, RulesSection, ServerSection};
use bomber::server::metrics::TickMetrics;
use std::time::Duration;

#[test]
fn the_default_sections_describe_a_playable_server() {
    let server = ServerSection::default();
    assert_eq!(server.bind, "0.0.0.0:47800");
    assert_eq!(server.web_bind, "127.0.0.1:8080");
    assert_eq!(server.keyframe_interval_ticks, 30);
    assert_eq!(server.match_init_repeats, 5);
    assert_eq!(server.static_dir, "visualizer/dist");
    let lobby = LobbySection::default();
    assert_eq!((lobby.min_players, lobby.max_players), (2, 4));
    assert_eq!(lobby.countdown_ticks, 180);
}

#[test]
fn the_default_rules_section_yields_the_default_rules() {
    assert_eq!(section_rules(&RulesSection::default()), Rules::default());
}

#[test]
fn a_rules_section_is_clamped_into_a_playable_game() {
    let section = RulesSection {
        ticks_per_cell: 0,
        start_bombs: 0,
        start_flame: 0,
        powerup_chance_pct: 250,
        round_time_secs: u32::MAX,
        sudden_death_secs: 2,
        ..RulesSection::default()
    };
    let rules = section_rules(&section);
    assert_eq!(rules.ticks_per_cell, 1);
    assert_eq!(rules.start_bombs, 1);
    assert_eq!(rules.start_flame, 1);
    assert_eq!(rules.powerup_chance_pct, 100);
    assert_eq!(rules.round_time_ticks, u32::MAX);
    assert_eq!(rules.sudden_death_tick, 120);
}

#[test]
fn no_report_before_the_window_is_full() {
    let mut m = TickMetrics::reporting_every(3);
    m.record(Duration::from_micros(5));
    m.record(Duration::from_micros(7));
    assert_eq!(m.take_report(), None);
    m.record(Duration::from_micros(1));
    assert_eq!(m.take_report(), Some((5, 5, 7)));
    assert_eq!(m.take_report(), None, "the window starts over");
}

#[test]
fn percentiles_come_from_the_sorted_window() {
    let mut m = TickMetrics::reporting_every(100);
    for us in (1..=100u128).rev() {
        m.record_micros(us);
    }
    // Index (99 * 50) / 100 = 49 and (99 * 99) / 100 = 98 of 1..=100.
    assert_eq!(m.take_report(), Some((50, 99, 100)));
}

#[test]
fn a_huge_duration_saturates() {
    let mut m = TickMetrics::default();
    m.record(Duration::from_secs(10_000_000));
    assert_eq!(m.take_report(), Some((u32::MAX, u32::MAX, u32::MAX)));
}

#[test]
fn session_numbers_are_at_least_one() {
    let lobby = LobbySection { min_players: 0, max_players: 0, lobby_status_interval_ticks: 0, ..LobbySection::default() };
    let server = ServerSection { keyframe_interval_ticks: 0, match_init_repeats: 0, ..ServerSection::default() };
    let s = bomber::server::config::session_settings(&lobby, &server);
    assert_eq!((s.min_players, s.max_players), (1, 1));
    assert_eq!(s.keyframe_interval_ticks, 1);
    assert_eq!(s.match_init_repeats, 1);
    assert_eq!(s.lobby_status_interval_ticks, 1);
    assert_eq!(s.countdown_ticks, 180);
    assert_eq!(s.stale_after_ticks, 120);
}
