use rand::Rng;
use wfc_mapgen::catalog::image_variant_seeds;
use wfc_mapgen::direction::{move_index, Direction};
use wfc_mapgen::raster::TileImage;
use wfc_mapgen::tile::{get_edges, Edges};
use wfc_mapgen::tilemap::select_by_weight;

fn image(width: usize, height: usize, pixels: Vec<u8>) -> TileImage {
    TileImage { width, height, pixels }
}

#[test]
fn move_index_interior_moves() {
    assert_eq!(move_index(4, 3, Direction::North), Some(1));
    assert_eq!(move_index(4, 3, Direction::East), Some(5));
    assert_eq!(move_index(4, 3, Direction::South), Some(7));
    assert_eq!(move_index(4, 3, Direction::West), Some(3));
}

#[test]
fn move_index_boundaries() {
    // west column cannot move west, east column cannot move east
    assert_eq!(move_index(0, 3, Direction::West), None);
    assert_eq!(move_index(2, 3, Direction::East), None);
    // bottom row cannot move south, top row cannot move north
    assert_eq!(move_index(7, 3, Direction::South), None);
    assert_eq!(move_index(1, 3, Direction::North), None);
}

#[test]
fn move_index_north_quirk() {
    // row 1, column 0 (index == size) is treated as northern rim
    assert_eq!(move_index(3, 3, Direction::North), None);
    // but its eastern neighbor can move north
    assert_eq!(move_index(4, 3, Direction::North), Some(1));
}

#[test]
fn edges_rotate_four_times_is_identity() {
    let e = Edges { north: vec![1, 2], east: vec![3, 4], south: vec![5, 6], west: vec![7, 8] };
    let r1 = e.rotate90();
    assert_eq!(r1.north, vec![7, 8]);
    assert_eq!(r1.east, vec![1, 2]);
    assert_eq!(r1.south, vec![3, 4]);
    assert_eq!(r1.west, vec![5, 6]);
    let r4 = r1.rotate90().rotate90().rotate90();
    assert_eq!(r4.north, e.north);
    assert_eq!(r4.east, e.east);
    assert_eq!(r4.south, e.south);
    assert_eq!(r4.west, e.west);
}

#[test]
fn image_rotate90_quarter_turn() {
    // 2 wide, 3 high
    let img = image(2, 3, vec![1, 2, 3, 4, 5, 6]);
    let r = img.rotate90();
    assert_eq!(r.width, 3);
    assert_eq!(r.height, 2);
    // clockwise: first output row is the first input column, bottom-up
    assert_eq!(r.pixels, vec![5, 3, 1, 6, 4, 2]);
}

#[test]
fn image_rotate90_four_times_is_identity() {
    let img = image(2, 3, vec![10, 20, 30, 40, 50, 60]);
    let back = img.rotate90().rotate90().rotate90().rotate90();
    assert_eq!(back.width, 2);
    assert_eq!(back.height, 3);
    assert_eq!(back.pixels, img.pixels);
}

#[test]
fn crop_takes_the_sub_image() {
    let img = image(4, 4, (0..16).collect());
    let c = img.crop(1, 2, 2, 2);
    assert_eq!(c.width, 2);
    assert_eq!(c.height, 2);
    assert_eq!(c.pixels, vec![9, 10, 13, 14]);
}

#[test]
fn get_edges_reads_the_borders() {
    let img = image(3, 3, vec![1, 2, 3, 4, 5, 6, 7, 8, 9]);
    let e = get_edges(&img);
    assert_eq!(e.north, vec![1, 2, 3]);
    assert_eq!(e.south, vec![7, 8, 9]);
    assert_eq!(e.west, vec![1, 4, 7]);
    assert_eq!(e.east, vec![3, 6, 9]);
}

#[test]
fn rotation_invariant_tile_dedupes_to_one() {
    // a 5x5 sample of one uniform tile: all four rotations coincide
    let img = image(5, 5, vec![7; 25]);
    let seeds = image_variant_seeds(&img, 5);
    assert_eq!(seeds.len(), 1);
    assert_eq!(seeds[0].asset, 0);
}

#[test]
fn distinct_cells_all_survive_dedupe() {
    // four 1x1 tiles with distinct pixels: all survive, sorted by pixel
    let img = image(2, 2, vec![4, 2, 3, 1]);
    let seeds = image_variant_seeds(&img, 1);
    assert_eq!(seeds.len(), 4);
    let pixels: Vec<u8> = seeds.iter().map(|s| s.image.pixels[0]).collect();
    assert_eq!(pixels, vec![1, 2, 3, 4]);
    // no two surviving variants share canonical image bytes
    for a in 0..seeds.len() {
        for b in (a + 1)..seeds.len() {
            assert_ne!(seeds[a].image.pixels, seeds[b].image.pixels);
        }
    }
}

#[test]
fn select_by_weight_picks_the_interval() {
    let weights = vec![2u32, 0, 3];
    assert_eq!(select_by_weight(0, &weights), 0);
    assert_eq!(select_by_weight(1, &weights), 0);
    assert_eq!(select_by_weight(2, &weights), 2);
    assert_eq!(select_by_weight(3, &weights), 2);
    assert_eq!(select_by_weight(4, &weights), 2);
}

#[test]
fn weighted_sampling_frequencies_converge() {
    let weights = vec![2u32, 0, 3];
    let mut rng = rand::thread_rng();
    let mut counts = [0usize; 3];
    let draws = 5000usize;
    for _ in 0..draws {
        let u: u64 = rng.gen_range(0..5);
        counts[select_by_weight(u, &weights)] += 1;
    }
    // the zero-weight entry is never chosen
    assert_eq!(counts[1], 0);
    assert_eq!(counts[0] + counts[2], draws);
    // loose empirical check of the 2:3 ratio
    assert!(counts[0] > draws / 4 && counts[0] < draws * 11 / 20);
    assert!(counts[2] > draws * 2 / 5 && counts[2] < draws * 3 / 4);
}
