use wfc_mapgen::chunkmap::{ChunkMap, MAPCOUNT};
use wfc_mapgen::patterns::{
    build_patterns, flip_pattern_x, flip_pattern_y, patterns_to_constraints,
    render_pattern_to_map, MapChunk, Wfc,
};
use wfc_mapgen::position::Position;
use wfc_mapgen::tiletype::{flip_x, flip_y, TileType};

fn room_10x10() -> String {
    let mut lines = Vec::new();
    lines.push("┌────────┐".to_string());
    for _ in 0..8 {
        lines.push("│        ┆".to_string());
    }
    lines.push("└┄┄┄┄┄┄┄┄┘".to_string());
    lines.join("\r\n")
}

#[test]
fn position_zero_is_origin() {
    let p = Position::zero();
    assert_eq!(p.x, 0);
    assert_eq!(p.y, 0);
}

#[test]
fn symbol_flips_swap_sides() {
    assert_eq!(flip_x(TileType::CornerTL), TileType::CornerTR);
    assert_eq!(flip_x(TileType::WallL), TileType::WallR);
    assert_eq!(flip_x(TileType::WallT), TileType::WallT);
    assert_eq!(flip_y(TileType::CornerTL), TileType::CornerBL);
    assert_eq!(flip_y(TileType::WallT), TileType::WallB);
    assert_eq!(flip_y(TileType::WallL), TileType::WallL);
}

#[test]
fn symbol_flips_are_involutions_and_commute() {
    let all = [
        TileType::Empty,
        TileType::Floor,
        TileType::Constraint,
        TileType::CornerTL,
        TileType::CornerTR,
        TileType::CornerBR,
        TileType::CornerBL,
        TileType::WallL,
        TileType::WallT,
        TileType::WallR,
        TileType::WallB,
    ];
    for t in all {
        assert_eq!(flip_x(flip_x(t)), t);
        assert_eq!(flip_y(flip_y(t)), t);
        assert_eq!(flip_x(flip_y(t)), flip_y(flip_x(t)));
    }
}

#[test]
fn pattern_flip_horizontal_twice_is_identity() {
    let p = vec![TileType::CornerTL, TileType::Floor, TileType::WallL, TileType::Empty];
    let once = flip_pattern_x(&p, 2);
    assert_eq!(
        once,
        vec![TileType::Floor, TileType::CornerTR, TileType::Empty, TileType::WallR]
    );
    let twice = flip_pattern_x(&once, 2);
    assert_eq!(twice, p);
}

#[test]
fn pattern_flips_commute() {
    let p = vec![TileType::CornerTL, TileType::WallT, TileType::WallL, TileType::Floor];
    let a = flip_pattern_x(&flip_pattern_y(&p, 2), 2);
    let b = flip_pattern_y(&flip_pattern_x(&p, 2), 2);
    assert_eq!(a, b);
}

#[test]
fn default_map_is_empty() {
    let m = ChunkMap::new();
    assert_eq!(m.width, 63);
    assert_eq!(m.height, 63);
    assert_eq!(m.tiles.len(), MAPCOUNT);
    assert!(m.tiles.iter().all(|t| *t == TileType::Empty));
}

#[test]
fn xy_idx_is_row_major() {
    let m = ChunkMap::new();
    assert_eq!(m.xy_idx(0, 0), 0);
    assert_eq!(m.xy_idx(2, 1), 65);
}

#[test]
fn from_string_parses_the_glyphs() {
    let m = ChunkMap::from_string("┌─┐\r\n│ ┆\r\n└┄┘".to_string());
    assert_eq!(m.width, 3);
    assert_eq!(m.height, 3);
    assert_eq!(
        m.tiles,
        vec![
            TileType::CornerTL,
            TileType::WallT,
            TileType::CornerTR,
            TileType::WallL,
            TileType::Floor,
            TileType::WallR,
            TileType::CornerBL,
            TileType::WallB,
            TileType::CornerBR,
        ]
    );
}

#[test]
fn from_string_skips_unrecognized_characters() {
    let m = ChunkMap::from_string("ab \r\nc┌".to_string());
    assert_eq!(m.width, 3);
    assert_eq!(m.height, 2);
    assert_eq!(m.tiles, vec![TileType::Floor, TileType::CornerTL]);
}

#[test]
fn room_sample_yields_flipped_patterns() {
    let map = ChunkMap::from_string(room_10x10());
    assert_eq!(map.width, 10);
    assert_eq!(map.height, 10);
    let patterns = build_patterns(&map, 5, true, true);
    // the four room corners survive dedupe in their orientations
    assert!(patterns.len() >= 4);
    for p in &patterns {
        assert_eq!(p.len(), 25);
    }
    // without dedupe, every chunk contributes its four orientations
    let raw = build_patterns(&map, 5, true, false);
    assert_eq!(raw.len(), 16);
    let plain = build_patterns(&map, 5, false, false);
    assert_eq!(plain.len(), 4);
}

#[test]
fn room_constraints_have_exits_in_every_direction() {
    let map = ChunkMap::from_string(room_10x10());
    let patterns = build_patterns(&map, 5, true, true);
    let constraints = patterns_to_constraints(patterns, 5);
    assert!(constraints.len() >= 4);
    for c in &constraints {
        assert_eq!(c.pattern.len(), 25);
        assert_eq!(c.exits_north.len(), 5);
        assert_eq!(c.exits_south.len(), 5);
        assert_eq!(c.exits_west.len(), 5);
        assert_eq!(c.exits_east.len(), 5);
    }
    let any = |f: fn(&MapChunk) -> &Vec<bool>| constraints.iter().any(|c| f(c).iter().any(|b| *b));
    assert!(any(|c| &c.exits_north));
    assert!(any(|c| &c.exits_south));
    assert!(any(|c| &c.exits_west));
    assert!(any(|c| &c.exits_east));
}

#[test]
fn render_writes_pattern_and_exit_wildcards() {
    let mut map = ChunkMap::new();
    let chunk = MapChunk {
        pattern: vec![TileType::Floor; 4],
        exits_north: vec![true, false],
        exits_south: vec![false, false],
        exits_west: vec![false, false],
        exits_east: vec![false, false],
    };
    render_pattern_to_map(&mut map, &chunk, 2, 1, 1);
    let at = |x: i32, y: i32| map.tiles[map.xy_idx(x, y)];
    assert_eq!(at(1, 1), TileType::Constraint);
    assert_eq!(at(2, 1), TileType::Floor);
    assert_eq!(at(1, 2), TileType::Floor);
    assert_eq!(at(2, 2), TileType::Floor);
    assert_eq!(at(0, 0), TileType::Empty);
    assert_eq!(at(3, 1), TileType::Empty);
}

#[test]
fn gallery_snapshots_the_catalog() {
    let map = ChunkMap::from_string(room_10x10());
    let patterns = build_patterns(&map, 5, true, true);
    let constraints = patterns_to_constraints(patterns, 5);
    let mut wfc = Wfc::new(ChunkMap::new());
    wfc.take_snapshot();
    assert_eq!(wfc.history.len(), 1);
    wfc.render_tile_gallery(&constraints, 5);
    assert!(wfc.history.len() >= 2);
    // the gallery pages are full-size maps
    for page in &wfc.history {
        assert_eq!(page.tiles.len(), MAPCOUNT);
    }
}
