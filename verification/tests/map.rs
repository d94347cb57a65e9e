use bomber::proto::types::Tile;
use bomber::sim::map::{
    generate, normalize_dimension, safe_cells, spawn_cells, validate, Density, GeneratedMap, MapConfig,
    MapError, Symmetry,
};

fn coin(density: f32) -> Density {
    let scale: u32 = 1 << 31;
    Density { numerator: (density.clamp(0.0, 1.0) as f64 * scale as f64) as u32, denominator: scale }
}

#[test]
fn dimensions_are_forced_odd_and_clamped() {
    assert_eq!(normalize_dimension(0), 7);
    assert_eq!(normalize_dimension(4), 7);
    assert_eq!(normalize_dimension(14), 15);
    assert_eq!(normalize_dimension(15), 15);
    assert_eq!(normalize_dimension(255), 63);
}

#[test]
fn border_is_solid_and_pillars_are_in_place() {
    let map = generate(&MapConfig::default(), 42, 4);
    let g = &map.grid;
    for x in 0..g.width {
        assert_eq!(g.get(x, 0), Tile::Solid);
        assert_eq!(g.get(x, g.height - 1), Tile::Solid);
    }
    for y in 0..g.height {
        assert_eq!(g.get(0, y), Tile::Solid);
        assert_eq!(g.get(g.width - 1, y), Tile::Solid);
    }
    for y in (2..g.height - 1).step_by(2) {
        for x in (2..g.width - 1).step_by(2) {
            assert_eq!(g.get(x, y), Tile::Solid, "pillar at {x},{y}");
        }
    }
}

#[test]
fn spawns_are_clear_and_have_an_escape_route() {
    for seed in 0..50u64 {
        let map = generate(&MapConfig::default(), seed, 4);
        for &(x, y) in &map.spawns {
            assert_eq!(map.grid.get(x, y), Tile::Empty);
        }
        for spawn in &map.spawns {
            for (sx, sy) in safe_cells(*spawn, map.grid.width, map.grid.height) {
                assert_eq!(map.grid.get(sx, sy), Tile::Empty, "seed {seed}");
            }
        }
    }
}

/// Density and size are moderator-tunable, so extreme settings must still
/// produce a playable board rather than a trap.
#[test]
fn every_size_and_density_validates() {
    for w in (7..=31u8).step_by(2) {
        for h in (7..=31u8).step_by(2) {
            for density in [0.0f32, 0.25, 0.5, 0.75, 1.0] {
                for sym in [Symmetry::Independent, Symmetry::MirrorX, Symmetry::Quad] {
                    let cfg = MapConfig {
                        width: w,
                        height: h,
                        soft_block_density: coin(density),
                        symmetry: sym,
                    };
                    let map = generate(&cfg, 7, 4);
                    assert_eq!(validate(&map), Ok(()), "{w}x{h} density {density} {sym:?}");
                }
            }
        }
    }
}

#[test]
fn same_seed_gives_an_identical_map() {
    let cfg = MapConfig::default();
    assert_eq!(generate(&cfg, 12345, 4), generate(&cfg, 12345, 4));
    assert_ne!(generate(&cfg, 12345, 4), generate(&cfg, 12346, 4));
}

#[test]
fn quad_symmetry_actually_holds() {
    let cfg = MapConfig { symmetry: Symmetry::Quad, ..MapConfig::default() };
    let map = generate(&cfg, 99, 4);
    let g = &map.grid;
    let protected: Vec<(u8, u8)> =
        map.spawns.iter().flat_map(|s| safe_cells(*s, g.width, g.height)).collect();
    for y in 0..g.height {
        for x in 0..g.width {
            let (mx, my) = (g.width - 1 - x, g.height - 1 - y);
            // Spawn safe zones are cleared after mirroring, so exempt them.
            if protected.contains(&(x, y)) || protected.contains(&(mx, y)) {
                continue;
            }
            assert_eq!(g.get(x, y), g.get(mx, y), "x-mirror at {x},{y}");
            if !protected.contains(&(x, my)) {
                assert_eq!(g.get(x, y), g.get(x, my), "y-mirror at {x},{y}");
            }
        }
    }
}

#[test]
fn full_density_still_leaves_spawns_open() {
    let cfg = MapConfig { soft_block_density: coin(1.0), ..MapConfig::default() };
    let map = generate(&cfg, 1, 4);
    assert_eq!(validate(&map), Ok(()));
}

// ---------------------------------------------------------------------------
// Edge cases and exact values
// ---------------------------------------------------------------------------

#[test]
fn zero_density_leaves_no_soft_block() {
    let cfg = MapConfig { soft_block_density: coin(0.0), ..MapConfig::default() };
    let map = generate(&cfg, 5, 4);
    assert!(map.grid.cells.iter().all(|t| *t != Tile::Soft));
}

#[test]
fn full_density_fills_every_eligible_cell() {
    let cfg = MapConfig {
        width: 9,
        height: 9,
        soft_block_density: coin(1.0),
        symmetry: Symmetry::Independent,
    };
    let map = generate(&cfg, 5, 1);
    let g = &map.grid;
    // (1,1) is the spawn, (2,1) and (1,2) its safe cells.
    assert_eq!(g.get(1, 1), Tile::Empty);
    assert_eq!(g.get(2, 1), Tile::Empty);
    assert_eq!(g.get(1, 2), Tile::Empty);
    assert_eq!(g.get(3, 1), Tile::Soft);
    assert_eq!(g.get(7, 7), Tile::Soft);
}

#[test]
fn spawn_cells_follow_player_order() {
    assert_eq!(spawn_cells(15, 13, 4), vec![(1, 1), (13, 1), (1, 11), (13, 11)]);
    assert_eq!(spawn_cells(15, 13, 0), vec![(1, 1)]);
    assert_eq!(spawn_cells(15, 13, 200).len(), 8);
    assert_eq!(spawn_cells(15, 13, 6)[4], (7, 1));
}

#[test]
fn safe_cells_point_at_the_centre() {
    assert_eq!(safe_cells((1, 1), 15, 13), [(1, 1), (2, 1), (1, 2)]);
    assert_eq!(safe_cells((13, 11), 15, 13), [(13, 11), (12, 11), (13, 10)]);
}

#[test]
fn a_walled_in_spawn_has_no_escape() {
    let mut map = generate(&MapConfig { soft_block_density: coin(0.0), ..MapConfig::default() }, 3, 2);
    map.grid.set(2, 1, Tile::Soft);
    map.grid.set(1, 2, Tile::Soft);
    assert_eq!(validate(&map), Err(MapError::SpawnHasNoEscape { player: 0 }));
}

#[test]
fn a_spawn_on_a_wall_is_reported() {
    let mut map = generate(&MapConfig::default(), 3, 2);
    map.grid.set(13, 1, Tile::Solid);
    assert_eq!(validate(&map), Err(MapError::SpawnOnSolid { player: 1, x: 13, y: 1 }));
}

#[test]
fn a_sealed_off_spawn_is_unreachable() {
    let mut map = generate(&MapConfig { soft_block_density: coin(0.0), ..MapConfig::default() }, 3, 2);
    // Wall the second spawn into its corner with one empty neighbour.
    for (x, y) in [(12, 1), (13, 3)] {
        map.grid.set(x, y, Tile::Solid);
    }
    assert_eq!(validate(&map), Err(MapError::SpawnUnreachable { player: 1 }));
}

#[test]
fn no_spawns_is_valid() {
    let map = GeneratedMap { grid: generate(&MapConfig::default(), 1, 1).grid, spawns: vec![] };
    assert_eq!(validate(&map), Ok(()));
}
