use wfc_mapgen::pathfind::Pathfinding;
use wfc_mapgen::raster::TileImage;
use wfc_mapgen::tile::{Edges, Tile};
use wfc_mapgen::tilemap::{Config, TileMap, Variants};

fn tile(asset: usize, north: Vec<u8>, east: Vec<u8>, south: Vec<u8>, west: Vec<u8>) -> Tile {
    Tile {
        edges: Edges { north, east, south, west },
        asset,
        direction: wfc_mapgen::direction::Direction::North,
        weight: 1,
        path: false,
        neighbors: None,
    }
}

fn plain_config() -> Config {
    Config {
        image: None,
        variants: vec![Variants { index: 0, weight: 1, neighbors: None }],
    }
}

#[test]
fn single_variant_fills_the_grid_but_has_no_path() {
    // one variant with empty edges: the collapse always succeeds, but there
    // are no connections, so no walk from start to goal ever exists
    let mut rng = rand::thread_rng();
    let mut m = TileMap::new(4);
    m.load_config(&plain_config());
    let ok = m.attempt(&mut rng, false);
    assert!(!ok);
    // the collapse itself succeeded: the solved snapshot is in the history
    assert_eq!(m.history.len(), 1);
    assert_eq!(m.history[0].grid.len(), 16);
    assert!(m.history[0].grid.iter().all(|c| c.is_some()));
}

#[test]
fn bounded_build_reports_failure() {
    let mut rng = rand::thread_rng();
    let mut m = TileMap::new(4);
    let ok = m.build(&mut rng, &plain_config(), false, 5);
    assert!(!ok);
}

#[test]
fn one_cell_map_builds_and_validates() {
    let mut rng = rand::thread_rng();
    let mut m = TileMap::new(1);
    let ok = m.build(&mut rng, &plain_config(), false, 3);
    assert!(ok);
    assert_eq!(m.history.len(), 3);
    // solved grid, then the same cell marked as path, then nothing pruned
    assert!(m.history[0].grid[0].is_some());
    let marked = m.history[1].grid[0].as_ref().unwrap();
    assert!(marked.path);
    assert!(m.history[2].grid[0].is_some());
}

#[test]
fn self_matching_variants_conflict_at_the_rim() {
    // east/west signatures are non-zero, so no variant survives the border
    // rule on the east and west columns: every attempt hits a contradiction
    let mut rng = rand::thread_rng();
    let mut m = TileMap::new(3);
    m.variants = vec![
        tile(0, vec![0], vec![1], vec![0], vec![1]),
        tile(1, vec![0], vec![2], vec![0], vec![2]),
    ];
    for _ in 0..10 {
        assert!(!m.attempt(&mut rng, false));
    }
}

#[test]
fn corner_catalog_builds_a_traversable_map() {
    // a 2x2 map: variant 0 fits the west column, variant 1 the north-east
    // corner, variant 2 the south-east corner; connections run
    // (0,0) -> (1,0) -> (1,1), and every cell can walk back to the start
    let mut rng = rand::thread_rng();
    let mut m = TileMap::new(2);
    m.variants = vec![
        tile(0, vec![0], vec![1], vec![0], vec![0]),
        tile(1, vec![0], vec![0], vec![1], vec![1]),
        tile(2, vec![1], vec![0], vec![0], vec![1]),
    ];
    let mut ok = false;
    for _ in 0..400 {
        if m.attempt(&mut rng, false) {
            ok = true;
            break;
        }
    }
    assert!(ok);
    assert_eq!(m.history.len(), 3);
    let solved = &m.history[0].grid;
    assert!(solved.iter().all(|c| c.is_some()));
    assert_eq!(solved[0].as_ref().unwrap().asset, 0);
    assert_eq!(solved[1].as_ref().unwrap().asset, 1);
    assert_eq!(solved[2].as_ref().unwrap().asset, 0);
    assert_eq!(solved[3].as_ref().unwrap().asset, 2);
    // the walk 0 -> 1 -> 3 is marked, cell 2 is not on it
    let marked = &m.history[1].grid;
    assert!(marked[0].as_ref().unwrap().path);
    assert!(marked[1].as_ref().unwrap().path);
    assert!(marked[3].as_ref().unwrap().path);
    assert!(!marked[2].as_ref().unwrap().path);
    // every cell can walk back to the start: nothing is pruned
    let pruned = &m.history[2].grid;
    assert!(pruned.iter().all(|c| c.is_some()));
}

#[test]
fn pathfinding_finds_and_refuses_walks() {
    // 2x2 grid: 0 -> 1 -> 3 connected; cell 2 connects east to 3
    let grid = vec![
        Some(tile(0, vec![0], vec![1], vec![0], vec![0])),
        Some(tile(1, vec![0], vec![0], vec![1], vec![1])),
        Some(tile(2, vec![0], vec![1], vec![0], vec![0])),
        Some(tile(3, vec![1], vec![0], vec![0], vec![1])),
    ];
    let pf = Pathfinding::new(2, grid);
    let hit = pf.test((0, 0), (1, 1));
    assert!(hit.is_some());
    let (walk, cost) = hit.unwrap();
    assert_eq!(walk, vec![0, 1, 3]);
    assert_eq!(cost, 2);
    // every cell reaches the start
    assert!(pf.test((1, 0), (0, 0)).is_some());
    assert!(pf.test((0, 1), (0, 0)).is_some());
}

#[test]
fn pathfinding_reports_unreachable_cells() {
    // cell 3 has no connections and nobody connects to it
    let grid = vec![
        Some(tile(0, vec![0], vec![1], vec![0], vec![0])),
        Some(tile(1, vec![0], vec![0], vec![0], vec![1])),
        Some(tile(2, vec![0], vec![0], vec![0], vec![0])),
        Some(tile(3, vec![0], vec![0], vec![0], vec![0])),
    ];
    let pf = Pathfinding::new(2, grid);
    assert!(pf.test((1, 1), (0, 0)).is_none());
    assert!(pf.test((1, 0), (0, 0)).is_some());
}

#[test]
fn rim_cells_reject_outward_connections() {
    // variant 1 carries a northward connection: every cell of the top row
    // (and, by the northward quirk, the cell just below its west end)
    // rejects it, while an interior-facing cell admits it
    let mut m = TileMap::new(3);
    m.variants = vec![
        tile(0, vec![0], vec![0], vec![0], vec![0]),
        tile(1, vec![1], vec![0], vec![1], vec![0]),
    ];
    let grid: Vec<Option<Tile>> = (0..9).map(|_| None).collect();
    assert_eq!(m.get_possible_variants(&grid, 0), vec![0]);
    assert_eq!(m.get_possible_variants(&grid, 1), vec![0]);
    assert_eq!(m.get_possible_variants(&grid, 3), vec![0]);
    assert_eq!(m.get_possible_variants(&grid, 4), vec![0, 1]);
}

#[test]
fn collapsed_neighbors_filter_the_domain() {
    let mut m = TileMap::new(3);
    m.variants = vec![
        tile(0, vec![0], vec![0], vec![0], vec![0]),
        tile(1, vec![0], vec![0], vec![0], vec![7]),
    ];
    // a collapsed cell with a connected east edge sits west of cell 4
    let mut grid: Vec<Option<Tile>> = (0..9).map(|_| None).collect();
    grid[3] = Some(tile(9, vec![0], vec![7], vec![0], vec![0]));
    assert_eq!(m.get_possible_variants(&grid, 4), vec![1]);
    // an allow-list overrides the edge mismatch
    let mut listed = tile(0, vec![0], vec![0], vec![0], vec![0]);
    listed.neighbors = Some(vec![9]);
    m.variants = vec![listed, tile(1, vec![0], vec![0], vec![0], vec![7])];
    assert_eq!(m.get_possible_variants(&grid, 4), vec![0, 1]);
}

#[test]
fn weighted_variant_skips_zero_weights() {
    let mut rng = rand::thread_rng();
    let mut m = TileMap::new(2);
    let mut zero = tile(0, vec![0], vec![0], vec![0], vec![0]);
    zero.weight = 0;
    let mut five = tile(1, vec![0], vec![0], vec![0], vec![0]);
    five.weight = 5;
    m.variants = vec![zero, five];
    let domain = vec![0usize, 1];
    for _ in 0..50 {
        let t = m.weighted_variant(&mut rng, &domain);
        assert_eq!(t.asset, 1);
    }
}

#[test]
fn explicit_entries_override_and_append() {
    let mut m = TileMap::new(2);
    let config = Config {
        image: None,
        variants: vec![
            Variants { index: 7, weight: 2, neighbors: None },
            Variants { index: 7, weight: 9, neighbors: Some(vec![1, 2]) },
            Variants { index: 3, weight: 4, neighbors: None },
        ],
    };
    m.load_config(&config);
    assert_eq!(m.variants.len(), 2);
    assert_eq!(m.variants[0].asset, 7);
    assert_eq!(m.variants[0].weight, 9);
    assert_eq!(m.variants[0].neighbors, Some(vec![1, 2]));
    assert_eq!(m.variants[1].asset, 3);
    assert_eq!(m.variants[1].weight, 4);
}

#[test]
fn image_catalog_drives_a_build() {
    // a 2x2 sample of four distinct 1x1 tiles; a 1-cell map holds any of
    // them, and the trivial walk validates
    let mut rng = rand::thread_rng();
    let img = TileImage { width: 2, height: 2, pixels: vec![9, 3, 5, 7] };
    let config = Config { image: Some((img, 1)), variants: vec![] };
    let mut m = TileMap::new(1);
    let ok = m.build(&mut rng, &config, false, 3);
    assert!(ok);
    let t = m.history[0].grid[0].as_ref().unwrap();
    // every 1x1 tile shows the same single pixel on all four sides
    assert_eq!(t.edges.north.len(), 1);
    assert_eq!(t.edges.north, t.edges.south);
    assert_eq!(t.edges.east, t.edges.west);
    assert_eq!(t.edges.north, t.edges.east);
    assert_eq!(t.weight, 1);
}

#[test]
fn logged_history_keeps_every_step() {
    let mut rng = rand::thread_rng();
    let mut m = TileMap::new(1);
    m.load_config(&plain_config());
    let ok = m.attempt(&mut rng, true);
    assert!(ok);
    // the seeded grid, the full grid, the marked grid, the pruned grid
    assert_eq!(m.history.len(), 4);
    for snap in &m.history {
        assert_eq!(snap.grid.len(), 1);
    }
}

#[test]
fn failed_build_leaves_no_history() {
    let mut rng = rand::thread_rng();
    let mut m = TileMap::new(4);
    let ok = m.build(&mut rng, &plain_config(), false, 4);
    assert!(!ok);
    assert!(m.history.is_empty());
}

#[test]
fn trivial_walk_is_one_cell_at_cost_zero() {
    let grid = vec![Some(tile(0, vec![0], vec![0], vec![0], vec![0]))];
    let pf = Pathfinding::new(1, grid);
    assert_eq!(pf.test((0, 0), (0, 0)), Some((vec![0], 0)));
}

#[test]
fn successors_come_in_compass_order() {
    // a 3x3 grid of fully connected tiles; the center cell's successors are
    // its north, east, south and west neighbors, in that order
    let grid: Vec<Option<Tile>> = (0..9)
        .map(|a| Some(tile(a, vec![1], vec![1], vec![1], vec![1])))
        .collect();
    let pf = Pathfinding::new(3, grid);
    assert_eq!(pf.get_successors(4), vec![1, 5, 7, 3]);
}
