use bomber::proto::codec::{ProtoError, Reader, Writer};
use bomber::proto::server::DeltaRecord;
use bomber::proto::types::{Direction, Tile, TileGrid};
use bomber::protocol::action::Action;
use bomber::protocol::grid;
use bomber::protocol::hello::Hello;
use bomber::protocol::packet::{ClientPacket, HELLO_PACKET};
use bomber::protocol::record::{DeltaRecord as Newer, WALL_CLOSED};
use bomber::protocol::sequence::seq_is_newer;
use bomber::protocol::{decode_optional_player, encode_optional_player, NO_PLAYER};

#[test]
fn a_bare_hello_still_works() {
    assert_eq!(Hello::decode(&[0xFF, 0xFF]), Ok(Hello::anonymous()));
    assert_eq!(Hello::anonymous().encode(), vec![0xFF, 0xFF]);
}

#[test]
fn a_named_hello_round_trips() {
    let hello = Hello::named("team-rocket");
    assert_eq!(Hello::decode(&hello.encode()), Ok(hello));
}

#[test]
fn a_zero_length_name_is_the_same_as_none() {
    assert_eq!(Hello::decode(&[0xFF, 0xFF, 0]), Ok(Hello::anonymous()));
}

#[test]
fn an_over_long_name_is_truncated_not_refused() {
    let long = "x".repeat(200);
    let decoded = Hello::decode(&Hello::named(&long).encode()).unwrap();
    assert_eq!(decoded.name.unwrap().len(), Hello::MAX_NAME_BYTES);
}

/// Truncation must not leave half a character behind.
#[test]
fn truncation_respects_character_boundaries() {
    let emoji = "🙂".repeat(20);
    let decoded = Hello::decode(&Hello::named(&emoji).encode()).unwrap();
    let name = decoded.name.unwrap();
    assert!(name.len() <= Hello::MAX_NAME_BYTES);
    assert_eq!(name.chars().count(), Hello::MAX_NAME_BYTES / 4);
}

#[test]
fn a_name_that_is_not_utf8_is_reported() {
    let packet = [0xFF, 0xFF, 2, 0xC3, 0x28];
    assert!(Hello::decode(&packet).is_err());
}

#[test]
fn a_name_shorter_than_it_claims_is_truncation() {
    assert!(matches!(
        Hello::decode(&[0xFF, 0xFF, 10, b'a', b'b']),
        Err(ProtoError::Truncated { .. })
    ));
}

/// Anything can arrive on a UDP port; none of it may panic.
#[test]
fn arbitrary_bytes_never_panic() {
    for len in 0..40usize {
        let bytes: Vec<u8> = (0..len).map(|i| (i * 37) as u8).collect();
        let _ = Hello::decode(&bytes);
    }
}

#[test]
fn newer_wraps_around_the_end_of_the_space() {
    assert!(seq_is_newer(1, 0));
    assert!(seq_is_newer(0, 15), "wrapped");
    assert!(!seq_is_newer(0, 0), "duplicate");
    assert!(!seq_is_newer(15, 0), "stale or reordered");
}

const EVERY_CODE: [u8; 11] = [0, 1, 2, 3, 4, 5, 6, 7, 8, 9, 15];

#[test]
fn a_packet_round_trips_for_every_action_and_sequence() {
    for code in EVERY_CODE {
        let action = Action::from_code(code).unwrap();
        for seq in 0..16u8 {
            let packet = ClientPacket::new(2, seq, action);
            assert_eq!(ClientPacket::decode(&packet.encode()), Ok(packet), "action {action:?} seq {seq}");
        }
    }
}

#[test]
fn the_hello_packet_matches_the_documented_constant() {
    let decoded = ClientPacket::decode(&HELLO_PACKET).unwrap();
    assert!(decoded.is_hello());
    assert_eq!(decoded.action, Action::Hello);
    assert_eq!(decoded.claimed_player(), None);
    assert_eq!(ClientPacket::hello().encode(), HELLO_PACKET);
}

#[test]
fn uplink_reserved_action_codes_are_rejected() {
    for code in 10..15u8 {
        assert!(Action::from_code(code).is_err(), "code {code}");
    }
}

#[test]
fn a_short_packet_errors_instead_of_panicking() {
    assert!(ClientPacket::decode(&[]).is_err());
    assert!(ClientPacket::decode(&[0x00]).is_err());
}

#[test]
fn a_no_player_sentinel_round_trips_as_none() {
    let record = DeltaRecord::PowerupRemove { id: 1, taken_by: encode_optional_player(None) };
    let mut w = Writer::new();
    record.encode(&mut w);
    let bytes = w.finish();
    assert_eq!(bytes.last(), Some(&NO_PLAYER));
    assert_eq!(DeltaRecord::decode(&mut Reader::new(&bytes)), Ok(record));
    assert_eq!(decode_optional_player(*bytes.last().unwrap()), None);
}

fn sample_grid() -> TileGrid {
    let (w, h) = (15u8, 13u8);
    let mut g = TileGrid::new(w, h);
    for y in 0..h {
        for x in 0..w {
            let structural = x == 0 || y == 0 || x == w - 1 || y == h - 1 || (x % 2 == 0 && y % 2 == 0);
            let tile = if structural {
                Tile::Solid
            } else if (x + y) % 3 == 0 {
                Tile::Soft
            } else {
                Tile::Empty
            };
            g.set(x, y, tile);
        }
    }
    g
}

#[test]
fn the_packed_grid_is_two_bits_per_cell() {
    let grid = sample_grid();
    let mut w = Writer::new();
    grid::encode(&grid, &mut w);
    let bytes = w.finish();
    assert_eq!(bytes.len(), grid::packed_len(15, 13));
    assert_eq!(bytes.len(), (15 * 13usize).div_ceil(4));
    assert_eq!(grid::decode(&mut Reader::new(&bytes), 15, 13), Ok(grid));
}

// ---------------------------------------------------------------------------
// Edge cases and exact values
// ---------------------------------------------------------------------------

#[test]
fn idle_is_a_heartbeat_that_does_nothing() {
    assert_eq!(Action::from_code(0), Ok(Action::Idle));
    assert_eq!(Action::Idle.movement(), None);
    assert!(!Action::Idle.places_bomb());
    assert_eq!(Action::moving(Direction::Down, true).code(), 7);
}

#[test]
fn a_claimed_player_is_the_first_byte_unless_it_is_a_hello() {
    let packet = ClientPacket::new(3, 1, Action::Left);
    assert_eq!(packet.claimed_player(), Some(3));
    assert_eq!(packet.encode(), [3, 0x13]);
}

#[test]
fn a_short_name_is_sent_whole_after_its_length() {
    assert_eq!(Hello::named("ab").encode(), vec![0xFF, 0xFF, 2, b'a', b'b']);
    assert_eq!(Hello::named("").encode(), vec![0xFF, 0xFF, 0]);
}

#[test]
fn a_hello_shorter_than_two_bytes_is_truncation() {
    assert_eq!(Hello::decode(&[0xFF]), Err(ProtoError::Truncated { at: 1, need: 1 }));
    assert_eq!(
        Hello::decode(&[0xFF, 0xFF, 3, b'a']),
        Err(ProtoError::Truncated { at: 4, need: 2 })
    );
}

#[test]
fn a_player_id_byte_reads_back_as_that_player() {
    assert_eq!(encode_optional_player(Some(2)), 2);
    assert_eq!(decode_optional_player(2), Some(2));
    assert_eq!(encode_optional_player(None), NO_PLAYER);
}

fn newer_round_trip(r: Newer) -> Vec<u8> {
    let mut w = Writer::new();
    r.encode(&mut w);
    let bytes = w.finish();
    let mut rd = Reader::new(&bytes);
    assert_eq!(Newer::decode(&mut rd), Ok(r));
    assert_eq!(rd.remaining(), 0);
    bytes
}

#[test]
fn a_closed_wall_has_its_own_record() {
    let bytes = newer_round_trip(Newer::WallClosed { x: 3, y: 4 });
    assert_eq!(bytes, vec![WALL_CLOSED, 3, 4]);
}

#[test]
fn nobody_is_written_as_the_sentinel_in_newer_records() {
    let bytes = newer_round_trip(Newer::PowerupRemove { id: 0x0102, taken_by: None });
    assert_eq!(bytes, vec![0x08, 0x02, 0x01, NO_PLAYER]);
    let bytes = newer_round_trip(Newer::PlayerDeath { id: 2, killer: Some(1) });
    assert_eq!(bytes, vec![0x09, 2, 1]);
}

#[test]
fn a_short_wall_record_is_truncated() {
    let bytes = [0x0Du8, 3];
    let mut rd = Reader::new(&bytes);
    assert!(matches!(Newer::decode(&mut rd), Err(ProtoError::Truncated { .. })));
}
