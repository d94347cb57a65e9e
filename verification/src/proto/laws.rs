//! What the downlink promises: every frame survives the trip over the wire.
use vstd::prelude::*;

use super::codec::{
    from_le16, le16, le32, le64, lemma_le16_roundtrip, lemma_le32_roundtrip,
    lemma_le64_roundtrip, spec_u16, spec_u32, spec_u64, spec_u8, ProtoError,
};
use super::record_type;
use super::server::{
    bomb_bytes, bomb_enc, bomb_parser, end_reason_code, flags_byte, flame_bytes, flame_enc,
    flame_parser, grid_bytes, list_bytes, lobby_state_code, player_bytes, player_enc,
    player_parser, powerup_bytes, powerup_enc, powerup_parser, record_bytes, record_enc,
    record_parser, result_bytes, result_enc, result_parser, spawn_bytes, spawn_enc, spawn_parser,
    spec_bomb, spec_end_reason_from_code, spec_flame, spec_list, spec_lobby_state_from_code,
    spec_player, spec_powerup, spec_record, spec_result, spec_spawn, BombSnapshot, DeltaRecord,
    EndReason, FlameCell, LobbyState, PlayerResult, PlayerSnapshot, PowerupSnapshot,
    delta_body_bytes, frame_bytes, frame_tag, frame_tick, frame_wf, keyframe_body_bytes,
    match_end_body_bytes, match_init_body_bytes, spec_delta_body, spec_frame,
    spec_keyframe_body, spec_match_end_body, spec_match_init_body, DeltaView, FrameView,
    KeyframeView, MatchEndView, MatchInitView,
};
use super::types::{
    direction_code, direction_of, lemma_grid_roundtrip, powerup_code, powerup_of, rules_bytes,
    spec_grid, spec_packed_len, spec_rules, tile_code, tile_of, GridView, Rules,
};

verus! {

/// `bytes` sits in `buf` at `pos`.
pub open spec fn at(buf: Seq<u8>, pos: int, bytes: Seq<u8>) -> bool {
    0 <= pos && pos + bytes.len() <= buf.len() && buf.subrange(pos, pos + bytes.len()) == bytes
}

proof fn lemma_at_split(buf: Seq<u8>, pos: int, a: Seq<u8>, b: Seq<u8>)
    requires
        at(buf, pos, a + b),
    ensures
        at(buf, pos, a),
        at(buf, pos + a.len(), b),
{
    let whole = buf.subrange(pos, pos + (a + b).len());
    assert(buf.subrange(pos, pos + a.len()) =~= whole.subrange(0, a.len() as int));
    assert(whole.subrange(0, a.len() as int) =~= a);
    assert(buf.subrange(pos + a.len(), pos + a.len() + b.len()) =~= whole.subrange(
        a.len() as int,
        (a + b).len() as int,
    ));
    assert(whole.subrange(a.len() as int, (a + b).len() as int) =~= b);
}

proof fn lemma_at_index(buf: Seq<u8>, pos: int, bytes: Seq<u8>)
    requires
        at(buf, pos, bytes),
    ensures
        forall|k: int| 0 <= k < bytes.len() ==> buf[pos + k] == #[trigger] bytes[k],
{
    assert forall|k: int| 0 <= k < bytes.len() implies buf[pos + k] == #[trigger] bytes[k] by {
        assert(buf.subrange(pos, pos + bytes.len())[k] == buf[pos + k]);
    }
}

proof fn lemma_u8_at(buf: Seq<u8>, pos: int, v: u8)
    requires
        at(buf, pos, seq![v]),
    ensures
        spec_u8(buf, pos) == Ok::<(u8, int), ProtoError>((v, pos + 1)),
{
    lemma_at_index(buf, pos, seq![v]);
    assert(seq![v][0] == v);
}

proof fn lemma_u16_at(buf: Seq<u8>, pos: int, v: u16)
    requires
        at(buf, pos, le16(v)),
    ensures
        spec_u16(buf, pos) == Ok::<(u16, int), ProtoError>((v, pos + 2)),
{
    lemma_at_index(buf, pos, le16(v));
    lemma_le16_roundtrip(v);
}

proof fn lemma_u32_at(buf: Seq<u8>, pos: int, v: u32)
    requires
        at(buf, pos, le32(v)),
    ensures
        spec_u32(buf, pos) == Ok::<(u32, int), ProtoError>((v, pos + 4)),
{
    lemma_at_index(buf, pos, le32(v));
    lemma_le32_roundtrip(v);
}

proof fn lemma_u64_at(buf: Seq<u8>, pos: int, v: u64)
    requires
        at(buf, pos, le64(v)),
    ensures
        spec_u64(buf, pos) == Ok::<(u64, int), ProtoError>((v, pos + 8)),
{
    lemma_le64_roundtrip(v);
    assert(buf.subrange(pos, pos + 8) =~= le64(v));
}

proof fn lemma_flags(alive: bool, moving: bool)
    ensures
        (flags_byte(alive, moving) & 1u8 != 0) == alive,
        (flags_byte(alive, moving) & 2u8 != 0) == moving,
{
    let a: u8 = if alive {
        1
    } else {
        0
    };
    let m: u8 = if moving {
        2
    } else {
        0
    };
    assert(((a | m) & 1u8 != 0) == (a == 1) && ((a | m) & 2u8 != 0) == (m == 2)) by (bit_vector)
        requires
            a == 0 || a == 1,
            m == 0 || m == 2,
    ;
}

proof fn lemma_codes()
    ensures
        forall|d| direction_of(#[trigger] direction_code(d)) == Some(d),
        forall|k| powerup_of(#[trigger] powerup_code(k)) == Some(k),
        forall|t| tile_of(#[trigger] tile_code(t)) == Some(t),
        forall|s| spec_lobby_state_from_code(#[trigger] lobby_state_code(s)) == Ok::<
            LobbyState,
            ProtoError,
        >(s),
        forall|r| spec_end_reason_from_code(#[trigger] end_reason_code(r)) == Ok::<
            EndReason,
            ProtoError,
        >(r),
{
}

proof fn lemma_player_at(buf: Seq<u8>, pos: int, p: PlayerSnapshot)
    requires
        at(buf, pos, player_bytes(p)),
    ensures
        spec_player(buf, pos) == Ok::<(PlayerSnapshot, int), ProtoError>(
            (p, pos + player_bytes(p).len()),
        ),
{
    let a = seq![
        p.id,
        flags_byte(p.alive, p.moving),
        p.x,
        p.y,
        direction_code(p.dir),
        p.move_progress,
        p.bombs_max,
        p.flame,
        p.speed,
    ];
    lemma_at_split(buf, pos, a, le16(p.score));
    lemma_at_index(buf, pos, a);
    lemma_u16_at(buf, pos + 9, p.score);
    lemma_flags(p.alive, p.moving);
    lemma_codes();
}

proof fn lemma_bomb_at(buf: Seq<u8>, pos: int, b: BombSnapshot)
    requires
        at(buf, pos, bomb_bytes(b)),
    ensures
        spec_bomb(buf, pos) == Ok::<(BombSnapshot, int), ProtoError>(
            (b, pos + bomb_bytes(b).len()),
        ),
{
    let mid = seq![b.owner, b.x, b.y];
    lemma_at_split(buf, pos, le16(b.id) + mid, le16(b.fuse_remaining));
    lemma_at_split(buf, pos, le16(b.id), mid);
    lemma_u16_at(buf, pos, b.id);
    lemma_at_index(buf, pos + 2, mid);
    lemma_u16_at(buf, pos + 5, b.fuse_remaining);
}

proof fn lemma_flame_at(buf: Seq<u8>, pos: int, c: FlameCell)
    requires
        at(buf, pos, flame_bytes(c)),
    ensures
        spec_flame(buf, pos) == Ok::<(FlameCell, int), ProtoError>(
            (c, pos + flame_bytes(c).len()),
        ),
{
    lemma_at_index(buf, pos, flame_bytes(c));
}

proof fn lemma_powerup_at(buf: Seq<u8>, pos: int, p: PowerupSnapshot)
    requires
        at(buf, pos, powerup_bytes(p)),
    ensures
        spec_powerup(buf, pos) == Ok::<(PowerupSnapshot, int), ProtoError>(
            (p, pos + powerup_bytes(p).len()),
        ),
{
    let rest = seq![p.x, p.y, powerup_code(p.kind)];
    lemma_at_split(buf, pos, le16(p.id), rest);
    lemma_u16_at(buf, pos, p.id);
    lemma_at_index(buf, pos + 2, rest);
    lemma_codes();
}

proof fn lemma_spawn_at(buf: Seq<u8>, pos: int, s: (u8, u8))
    requires
        at(buf, pos, spawn_bytes(s)),
    ensures
        spec_spawn(buf, pos) == Ok::<((u8, u8), int), ProtoError>(
            (s, pos + spawn_bytes(s).len()),
        ),
{
    lemma_at_index(buf, pos, spawn_bytes(s));
}

proof fn lemma_result_at(buf: Seq<u8>, pos: int, r: PlayerResult)
    requires
        at(buf, pos, result_bytes(r)),
    ensures
        spec_result(buf, pos) == Ok::<(PlayerResult, int), ProtoError>(
            (r, pos + result_bytes(r).len()),
        ),
{
    let a = seq![r.id, r.placement];
    lemma_at_split(buf, pos, a, le16(r.score));
    lemma_at_index(buf, pos, a);
    lemma_u16_at(buf, pos + 2, r.score);
}

proof fn lemma_record_at(buf: Seq<u8>, pos: int, r: DeltaRecord)
    requires
        at(buf, pos, record_bytes(r)),
    ensures
        spec_record(buf, pos) == Ok::<(DeltaRecord, int), ProtoError>(
            (r, pos + record_bytes(r).len()),
        ),
{
    lemma_codes();
    lemma_at_index(buf, pos, record_bytes(r));
    assert(buf[pos] == record_bytes(r)[0]);
    match r {
        DeltaRecord::PlayerState { id, alive, moving, x, y, dir, move_progress } => {
            lemma_at_index(buf, pos, record_bytes(r));
            lemma_flags(alive, moving);
        },
        DeltaRecord::PlayerStats { id, bombs_max, flame, speed, score } => {
            let a = seq![record_type::PLAYER_STATS, id, bombs_max, flame, speed];
            lemma_at_split(buf, pos, a, le16(score));
            lemma_at_index(buf, pos, a);
            lemma_u16_at(buf, pos + 5, score);
        },
        DeltaRecord::BombAdd { id, owner, x, y, fuse } => {
            let t = seq![record_type::BOMB_ADD];
            let mid = seq![owner, x, y];
            lemma_at_split(buf, pos, t + le16(id) + mid, le16(fuse));
            lemma_at_split(buf, pos, t + le16(id), mid);
            lemma_at_split(buf, pos, t, le16(id));
            lemma_at_index(buf, pos, t);
            lemma_u16_at(buf, pos + 1, id);
            lemma_at_index(buf, pos + 3, mid);
            lemma_u16_at(buf, pos + 6, fuse);
        },
        DeltaRecord::BombRemove { id } => {
            let t = seq![record_type::BOMB_REMOVE];
            lemma_at_split(buf, pos, t, le16(id));
            lemma_at_index(buf, pos, t);
            lemma_u16_at(buf, pos + 1, id);
        },
        DeltaRecord::Explosion { x, y, up, down, left, right } => {
            lemma_at_index(buf, pos, record_bytes(r));
        },
        DeltaRecord::TileSet { x, y, tile } => {
            lemma_at_index(buf, pos, record_bytes(r));
        },
        DeltaRecord::PowerupAdd { id, x, y, kind } => {
            let t = seq![record_type::POWERUP_ADD];
            let rest = seq![x, y, powerup_code(kind)];
            lemma_at_split(buf, pos, t + le16(id), rest);
            lemma_at_split(buf, pos, t, le16(id));
            lemma_at_index(buf, pos, t);
            lemma_u16_at(buf, pos + 1, id);
            lemma_at_index(buf, pos + 3, rest);
        },
        DeltaRecord::PowerupRemove { id, taken_by } => {
            let t = seq![record_type::POWERUP_REMOVE];
            lemma_at_split(buf, pos, t + le16(id), seq![taken_by]);
            lemma_at_split(buf, pos, t, le16(id));
            lemma_at_index(buf, pos, t);
            lemma_u16_at(buf, pos + 1, id);
            lemma_u8_at(buf, pos + 3, taken_by);
        },
        DeltaRecord::PlayerDeath { id, killer } => {
            lemma_at_index(buf, pos, record_bytes(r));
        },
        DeltaRecord::FlameAdd { x, y, ticks } => {
            lemma_at_index(buf, pos, record_bytes(r));
        },
        DeltaRecord::FlameRemove { x, y } => {
            lemma_at_index(buf, pos, record_bytes(r));
        },
        DeltaRecord::Timer { ticks_remaining } => {
            let t = seq![record_type::TIMER];
            lemma_at_split(buf, pos, t, le32(ticks_remaining));
            lemma_at_index(buf, pos, t);
            lemma_u32_at(buf, pos + 1, ticks_remaining);
        },
    }
}

/// A list of items reads back as the items that were written.
proof fn lemma_list_at<T>(
    item: spec_fn(Seq<u8>, int) -> Result<(T, int), ProtoError>,
    enc: spec_fn(T) -> Seq<u8>,
    s: Seq<T>,
    buf: Seq<u8>,
    pos: int,
)
    requires
        forall|b: Seq<u8>, q: int, v: T|
            #[trigger] at(b, q, enc(v)) ==> item(b, q) == Ok::<(T, int), ProtoError>(
                (v, q + enc(v).len()),
            ),
        at(buf, pos, list_bytes(enc, s)),
    ensures
        spec_list(item, buf, pos, s.len()) == Ok::<(Seq<T>, int), ProtoError>(
            (s, pos + list_bytes(enc, s).len()),
        ),
    decreases s.len(),
{
    if s.len() > 0 {
        let init = s.drop_last();
        assert(list_bytes(enc, s) == list_bytes(enc, init) + enc(s.last()));
        lemma_at_split(buf, pos, list_bytes(enc, init), enc(s.last()));
        lemma_list_at(item, enc, init, buf, pos);
        let p = pos + list_bytes(enc, init).len();
        assert(at(buf, p, enc(s.last())));
        assert(item(buf, p) == Ok::<(T, int), ProtoError>((s.last(), p + enc(s.last()).len())));
        assert(init.push(s.last()) =~= s);
        assert(spec_list(item, buf, pos, init.len()) == Ok::<(Seq<T>, int), ProtoError>((init, p)));
        assert(((s.len() - 1) as nat) == init.len());
    } else {
        assert(s =~= Seq::<T>::empty());
    }
}

proof fn lemma_rules_at(buf: Seq<u8>, pos: int, r: Rules)
    requires
        at(buf, pos, rules_bytes(r)),
    ensures
        spec_rules(buf, pos) == Ok::<(Rules, int), ProtoError>((r, pos + 19)),
{
    let mid = seq![
        r.ticks_per_cell,
        r.speed_step_ticks,
        r.start_bombs,
        r.start_flame,
        r.max_flame,
        r.max_speed,
        r.powerup_chance_pct,
    ];
    let a = le16(r.bomb_fuse_ticks);
    let b = le16(r.flame_duration_ticks);
    let c = le32(r.round_time_ticks);
    let d = le32(r.sudden_death_tick);
    lemma_at_split(buf, pos, a + b + mid + c, d);
    lemma_at_split(buf, pos, a + b + mid, c);
    lemma_at_split(buf, pos, a + b, mid);
    lemma_at_split(buf, pos, a, b);
    lemma_u16_at(buf, pos, r.bomb_fuse_ticks);
    lemma_u16_at(buf, pos + 2, r.flame_duration_ticks);
    lemma_at_index(buf, pos + 4, mid);
    lemma_u32_at(buf, pos + 11, r.round_time_ticks);
    lemma_u32_at(buf, pos + 15, r.sudden_death_tick);
}

proof fn lemma_item_laws()
    ensures
        forall|b: Seq<u8>, q: int, v: PlayerSnapshot| #[trigger]
            at(b, q, player_enc()(v)) ==> player_parser()(b, q) == Ok::<
                (PlayerSnapshot, int),
                ProtoError,
            >((v, q + player_enc()(v).len())),
        forall|b: Seq<u8>, q: int, v: BombSnapshot| #[trigger]
            at(b, q, bomb_enc()(v)) ==> bomb_parser()(b, q) == Ok::<(BombSnapshot, int), ProtoError>(
                (v, q + bomb_enc()(v).len()),
            ),
        forall|b: Seq<u8>, q: int, v: FlameCell| #[trigger]
            at(b, q, flame_enc()(v)) ==> flame_parser()(b, q) == Ok::<(FlameCell, int), ProtoError>(
                (v, q + flame_enc()(v).len()),
            ),
        forall|b: Seq<u8>, q: int, v: PowerupSnapshot| #[trigger]
            at(b, q, powerup_enc()(v)) ==> powerup_parser()(b, q) == Ok::<
                (PowerupSnapshot, int),
                ProtoError,
            >((v, q + powerup_enc()(v).len())),
        forall|b: Seq<u8>, q: int, v: (u8, u8)| #[trigger]
            at(b, q, spawn_enc()(v)) ==> spawn_parser()(b, q) == Ok::<((u8, u8), int), ProtoError>(
                (v, q + spawn_enc()(v).len()),
            ),
        forall|b: Seq<u8>, q: int, v: PlayerResult| #[trigger]
            at(b, q, result_enc()(v)) ==> result_parser()(b, q) == Ok::<
                (PlayerResult, int),
                ProtoError,
            >((v, q + result_enc()(v).len())),
        forall|b: Seq<u8>, q: int, v: DeltaRecord| #[trigger]
            at(b, q, record_enc()(v)) ==> record_parser()(b, q) == Ok::<
                (DeltaRecord, int),
                ProtoError,
            >((v, q + record_enc()(v).len())),
{
    assert forall|b: Seq<u8>, q: int, v: PlayerSnapshot| #[trigger]
        at(b, q, player_enc()(v)) implies player_parser()(b, q) == Ok::<
            (PlayerSnapshot, int),
            ProtoError,
        >((v, q + player_enc()(v).len())) by {
        lemma_player_at(b, q, v);
    }
    assert forall|b: Seq<u8>, q: int, v: BombSnapshot| #[trigger]
        at(b, q, bomb_enc()(v)) implies bomb_parser()(b, q) == Ok::<(BombSnapshot, int), ProtoError>(
            (v, q + bomb_enc()(v).len()),
        ) by {
        lemma_bomb_at(b, q, v);
    }
    assert forall|b: Seq<u8>, q: int, v: FlameCell| #[trigger]
        at(b, q, flame_enc()(v)) implies flame_parser()(b, q) == Ok::<(FlameCell, int), ProtoError>(
            (v, q + flame_enc()(v).len()),
        ) by {
        lemma_flame_at(b, q, v);
    }
    assert forall|b: Seq<u8>, q: int, v: PowerupSnapshot| #[trigger]
        at(b, q, powerup_enc()(v)) implies powerup_parser()(b, q) == Ok::<
            (PowerupSnapshot, int),
            ProtoError,
        >((v, q + powerup_enc()(v).len())) by {
        lemma_powerup_at(b, q, v);
    }
    assert forall|b: Seq<u8>, q: int, v: (u8, u8)| #[trigger]
        at(b, q, spawn_enc()(v)) implies spawn_parser()(b, q) == Ok::<((u8, u8), int), ProtoError>(
            (v, q + spawn_enc()(v).len()),
        ) by {
        lemma_spawn_at(b, q, v);
    }
    assert forall|b: Seq<u8>, q: int, v: PlayerResult| #[trigger]
        at(b, q, result_enc()(v)) implies result_parser()(b, q) == Ok::<
            (PlayerResult, int),
            ProtoError,
        >((v, q + result_enc()(v).len())) by {
        lemma_result_at(b, q, v);
    }
    assert forall|b: Seq<u8>, q: int, v: DeltaRecord| #[trigger]
        at(b, q, record_enc()(v)) implies record_parser()(b, q) == Ok::<
            (DeltaRecord, int),
            ProtoError,
        >((v, q + record_enc()(v).len())) by {
        lemma_record_at(b, q, v);
    }
}

proof fn lemma_grid_at(buf: Seq<u8>, pos: int, g: GridView)
    requires
        g.wf(),
        at(buf, pos, grid_bytes(g)),
    ensures
        spec_grid(buf, pos, g.width, g.height) == Ok::<(GridView, int), ProtoError>(
            (g, pos + grid_bytes(g).len()),
        ),
{
    lemma_grid_roundtrip(g, buf, pos);
}

proof fn lemma_match_init_at(buf: Seq<u8>, pos: int, f: MatchInitView)
    requires
        f.grid.wf(),
        f.spawns.len() <= 255,
        at(buf, pos, match_init_body_bytes(f)),
    ensures
        spec_match_init_body(buf, pos, f.tick) == Ok::<(MatchInitView, int), ProtoError>(
            (f, pos + match_init_body_bytes(f).len()),
        ),
{
    let a = seq![f.protocol_version];
    let b = le32(f.match_id);
    let c = le64(f.seed);
    let d = seq![f.your_player_id, f.spawns.len() as u8, f.grid.width, f.grid.height];
    let g = grid_bytes(f.grid);
    let l = list_bytes(spawn_enc(), f.spawns);
    let r = rules_bytes(f.rules);
    lemma_at_split(buf, pos, a + b + c + d + g + l, r);
    lemma_at_split(buf, pos, a + b + c + d + g, l);
    lemma_at_split(buf, pos, a + b + c + d, g);
    lemma_at_split(buf, pos, a + b + c, d);
    lemma_at_split(buf, pos, a + b, c);
    lemma_at_split(buf, pos, a, b);
    lemma_u8_at(buf, pos, f.protocol_version);
    lemma_u32_at(buf, pos + 1, f.match_id);
    lemma_u64_at(buf, pos + 5, f.seed);
    lemma_at_index(buf, pos + 13, d);
    lemma_grid_at(buf, pos + 17, f.grid);
    lemma_item_laws();
    lemma_list_at(spawn_parser(), spawn_enc(), f.spawns, buf, pos + 17 + g.len());
    lemma_rules_at(buf, pos + 17 + g.len() + l.len(), f.rules);
}

#[verifier::spinoff_prover]
#[verifier::rlimit(40)]
proof fn lemma_keyframe_at(buf: Seq<u8>, pos: int, f: KeyframeView)
    requires
        f.grid.wf(),
        f.players.len() <= 255,
        f.bombs.len() <= 65535,
        f.flames.len() <= 65535,
        f.powerups.len() <= 65535,
        at(buf, pos, keyframe_body_bytes(f)),
    ensures
        spec_keyframe_body(buf, pos, f.tick) == Ok::<(KeyframeView, int), ProtoError>(
            (f, pos + keyframe_body_bytes(f).len()),
        ),
{
    let a = seq![f.grid.width, f.grid.height];
    let g = grid_bytes(f.grid);
    let pc = seq![f.players.len() as u8];
    let pl = list_bytes(player_enc(), f.players);
    let bc = le16(f.bombs.len() as u16);
    let bl = list_bytes(bomb_enc(), f.bombs);
    let fc = le16(f.flames.len() as u16);
    let fl = list_bytes(flame_enc(), f.flames);
    let uc = le16(f.powerups.len() as u16);
    let ul = list_bytes(powerup_enc(), f.powerups);
    let t = le32(f.ticks_remaining);
    lemma_at_split(buf, pos, a + g + pc + pl + bc + bl + fc + fl + uc + ul, t);
    lemma_at_split(buf, pos, a + g + pc + pl + bc + bl + fc + fl + uc, ul);
    lemma_at_split(buf, pos, a + g + pc + pl + bc + bl + fc + fl, uc);
    lemma_at_split(buf, pos, a + g + pc + pl + bc + bl + fc, fl);
    lemma_at_split(buf, pos, a + g + pc + pl + bc + bl, fc);
    lemma_at_split(buf, pos, a + g + pc + pl + bc, bl);
    lemma_at_split(buf, pos, a + g + pc + pl, bc);
    lemma_at_split(buf, pos, a + g + pc, pl);
    lemma_at_split(buf, pos, a + g, pc);
    lemma_at_split(buf, pos, a, g);
    lemma_at_index(buf, pos, a);
    lemma_grid_at(buf, pos + 2, f.grid);
    let p1 = pos + 2 + g.len();
    lemma_u8_at(buf, p1, f.players.len() as u8);
    lemma_item_laws();
    lemma_list_at(player_parser(), player_enc(), f.players, buf, p1 + 1);
    let p2 = p1 + 1 + pl.len();
    lemma_u16_at(buf, p2, f.bombs.len() as u16);
    lemma_list_at(bomb_parser(), bomb_enc(), f.bombs, buf, p2 + 2);
    let p3 = p2 + 2 + bl.len();
    lemma_u16_at(buf, p3, f.flames.len() as u16);
    lemma_list_at(flame_parser(), flame_enc(), f.flames, buf, p3 + 2);
    let p4 = p3 + 2 + fl.len();
    lemma_u16_at(buf, p4, f.powerups.len() as u16);
    lemma_list_at(powerup_parser(), powerup_enc(), f.powerups, buf, p4 + 2);
    let p5 = p4 + 2 + ul.len();
    lemma_u32_at(buf, p5, f.ticks_remaining);
}

proof fn lemma_delta_at(buf: Seq<u8>, pos: int, f: DeltaView)
    requires
        f.records.len() <= 65535,
        at(buf, pos, delta_body_bytes(f)),
    ensures
        spec_delta_body(buf, pos, f.tick) == Ok::<(DeltaView, int), ProtoError>(
            (f, pos + delta_body_bytes(f).len()),
        ),
{
    let a = le32(f.base_tick);
    let b = le16(f.records.len() as u16);
    let l = list_bytes(record_enc(), f.records);
    lemma_at_split(buf, pos, a + b, l);
    lemma_at_split(buf, pos, a, b);
    lemma_u32_at(buf, pos, f.base_tick);
    lemma_u16_at(buf, pos + 4, f.records.len() as u16);
    lemma_item_laws();
    lemma_list_at(record_parser(), record_enc(), f.records, buf, pos + 6);
}

proof fn lemma_match_end_at(buf: Seq<u8>, pos: int, f: MatchEndView)
    requires
        f.results.len() <= 255,
        at(buf, pos, match_end_body_bytes(f)),
    ensures
        spec_match_end_body(buf, pos, f.tick) == Ok::<(MatchEndView, int), ProtoError>(
            (f, pos + match_end_body_bytes(f).len()),
        ),
{
    let a = seq![end_reason_code(f.reason), f.winner, f.results.len() as u8];
    let l = list_bytes(result_enc(), f.results);
    lemma_at_split(buf, pos, a, l);
    lemma_at_index(buf, pos, a);
    lemma_codes();
    lemma_item_laws();
    lemma_list_at(result_parser(), result_enc(), f.results, buf, pos + 3);
}

/// Every well-formed frame survives the trip over the wire: decoding the
/// bytes `encode` writes -- followed by anything at all -- gives the frame
/// One delta record followed by anything decodes back to itself, and the
/// decoder stops exactly where the record's bytes end.
pub proof fn lemma_record_roundtrip(r: DeltaRecord, tail: Seq<u8>)
    ensures
        spec_record(record_bytes(r) + tail, 0) == Ok::<(DeltaRecord, int), ProtoError>(
            (r, record_bytes(r).len() as int),
        ),
{
    let buf = record_bytes(r) + tail;
    assert(buf.subrange(0, record_bytes(r).len() as int) =~= record_bytes(r));
    lemma_record_at(buf, 0, r);
}

/// back.
pub proof fn lemma_frame_roundtrip(f: FrameView, buf: Seq<u8>)
    requires
        frame_wf(f),
        frame_bytes(f).is_prefix_of(buf),
    ensures
        spec_frame(buf) == Ok::<FrameView, ProtoError>(f),
{
    let bytes = frame_bytes(f);
    assert(at(buf, 0, bytes)) by {
        assert(buf.subrange(0, bytes.len() as int) =~= bytes);
    }
    let head = seq![frame_tag(f)] + le32(frame_tick(f));
    let body = match f {
        FrameView::Assigned(x) => seq![x.protocol_version, x.player_id, x.tick_rate, x.max_players],
        FrameView::LobbyStatus(x) => seq![
            lobby_state_code(x.state),
            x.players_connected,
            x.max_players,
            x.slot_mask,
        ] + le16(x.countdown_ticks),
        FrameView::MatchInit(x) => match_init_body_bytes(x),
        FrameView::Keyframe(x) => keyframe_body_bytes(x),
        FrameView::Delta(x) => delta_body_bytes(x),
        FrameView::MatchEnd(x) => match_end_body_bytes(x),
    };
    assert(bytes == head + body);
    lemma_at_split(buf, 0, head, body);
    lemma_at_split(buf, 0, seq![frame_tag(f)], le32(frame_tick(f)));
    lemma_u8_at(buf, 0, frame_tag(f));
    lemma_u32_at(buf, 1, frame_tick(f));
    lemma_codes();
    match f {
        FrameView::Assigned(x) => {
            lemma_at_index(buf, 5, body);
        },
        FrameView::LobbyStatus(x) => {
            let a = seq![lobby_state_code(x.state), x.players_connected, x.max_players, x.slot_mask];
            lemma_at_split(buf, 5, a, le16(x.countdown_ticks));
            lemma_at_index(buf, 5, a);
            lemma_u16_at(buf, 9, x.countdown_ticks);
        },
        FrameView::MatchInit(x) => {
            lemma_match_init_at(buf, 5, x);
        },
        FrameView::Keyframe(x) => {
            lemma_keyframe_at(buf, 5, x);
        },
        FrameView::Delta(x) => {
            lemma_delta_at(buf, 5, x);
        },
        FrameView::MatchEnd(x) => {
            lemma_match_end_at(buf, 5, x);
        },
    }
}

} // verus!
