use emosaic::color::Rgb;
use emosaic::color::RgbImage;
use emosaic::error::ImageErrorKind;
use emosaic::error::IndexError;
use emosaic::tiles::utils::date_part;
use emosaic::tiles::utils::flipped_coords;
use emosaic::tiles::utils::grid_side;
use emosaic::tiles::utils::most_common_value;
use emosaic::tiles::Tile;
use emosaic::tiles::TileSet;

#[test]
fn test_tile_set_new() {
    let tile_set: TileSet<()> = TileSet::new();
    assert_eq!(tile_set.len(), 0);
}

#[test]
fn test_tile_set_push() {
    let mut tile_set: TileSet<()> = TileSet::new();
    tile_set.push_tile(String::new(), ());
    assert_eq!(tile_set.len(), 1);
}

#[test]
fn test_tile_set_map() {
    let mut tile_set: TileSet<u32> = TileSet::new();
    tile_set.push_tile(String::new(), 42);
    let new_tile_set: TileSet<String> = tile_set.map(|x| x.to_string());
    assert_eq!(new_tile_set.len(), 1);
    assert_eq!(new_tile_set.tiles[0].colors, "42");
}

#[test]
fn test_tile_coords() {
    let tile: Tile<[Rgb; 1]> = Tile::from_colors([Rgb([1, 2, 3])]);
    let coords = tile.coords();
    assert_eq!(coords, [1, 2, 3]);

    let tile: Tile<[Rgb; 4]> = Tile::from_colors([
        Rgb([1, 2, 3]),
        Rgb([4, 5, 6]),
        Rgb([7, 8, 9]),
        Rgb([10, 11, 12]),
    ]);
    let coords = tile.coords();
    assert_eq!(coords, [1, 2, 3, 4, 5, 6, 7, 8, 9, 10, 11, 12]);
}

#[test]
fn test_most_common_value() {
    let values = vec![1, 2, 2, 3, 3, 3, 4];
    let most_common = most_common_value(&values);
    assert_eq!(most_common, 3);
}

#[test]
fn test_flipped_coords() {
    let mut coords = [1, 2, 3, 4, 5, 6, 7, 8, 9, 10, 11, 12];
    flipped_coords(&mut coords);
    assert_eq!(coords, [4, 5, 6, 1, 2, 3, 10, 11, 12, 7, 8, 9]);
    flipped_coords(&mut coords);
    assert_eq!(coords, [1, 2, 3, 4, 5, 6, 7, 8, 9, 10, 11, 12]);
}

#[test]
fn test_exif_date_extraction() {
    let full_datetime = "2003:03:19 11:44:30\0";
    let date_only = String::from_utf8(date_part(full_datetime.as_bytes())).unwrap();
    assert_eq!(date_only, "2003:03:19");

    // Test date-only input (no time part)
    let date_only_input = "2003:03:19";
    let result = String::from_utf8(date_part(date_only_input.as_bytes())).unwrap();
    assert_eq!(result, "2003:03:19");
}

#[test]
fn date_part_edge_cases() {
    assert_eq!(date_part(b""), b"");
    assert_eq!(date_part(b"\0\0"), b"");
    assert_eq!(date_part(b" 12:00"), b"");
    assert_eq!(date_part(b"2003:03:19\0\0\0"), b"2003:03:19");
    assert_eq!(date_part(b"a\0b c\0"), b"a\0b");
}

#[test]
fn most_common_value_of_nothing_is_zero() {
    assert_eq!(most_common_value(&[]), 0);
}

#[test]
fn most_common_value_of_a_tie_is_one_of_the_most_common() {
    let found = most_common_value(&[7, 9, 9, 7, 1]);
    assert!(found == 7 || found == 9);
    assert_eq!(most_common_value(&[5]), 5);
}

#[test]
fn grid_side_is_the_rounded_down_root() {
    assert_eq!(grid_side(0), 0);
    assert_eq!(grid_side(1), 1);
    assert_eq!(grid_side(3), 1);
    assert_eq!(grid_side(4), 2);
    assert_eq!(grid_side(15), 3);
    assert_eq!(grid_side(16), 4);
    assert_eq!(grid_side(16384), 128);
}

#[test]
fn flipped_coords_of_a_grid_of_three() {
    // 3 rows of 3 cells: the middle column stays
    let mut coords: Vec<u32> = (0..27).collect();
    flipped_coords(&mut coords);
    let want: Vec<u32> = vec![
        6, 7, 8, 3, 4, 5, 0, 1, 2, 15, 16, 17, 12, 13, 14, 9, 10, 11, 24, 25, 26, 21, 22, 23, 18,
        19, 20,
    ];
    assert_eq!(coords, want);
}

#[test]
fn flipped_coords_twice_gives_the_coordinates_back() {
    for side in [1usize, 2, 3, 4, 5, 6, 8, 16] {
        let start: Vec<u32> = (0..(3 * side * side) as u32).map(|v| v * 7 % 251).collect();
        let mut coords = start.clone();
        flipped_coords(&mut coords);
        if side > 1 {
            assert_ne!(coords, start);
        }
        flipped_coords(&mut coords);
        assert_eq!(coords, start);
    }
}

#[test]
fn flipped_coords_leaves_what_lies_past_the_grid() {
    // 14 coordinates: a grid of 2 by 2 cells and two more
    let mut coords = [1, 2, 3, 4, 5, 6, 7, 8, 9, 10, 11, 12, 13, 14];
    flipped_coords(&mut coords);
    assert_eq!(coords, [4, 5, 6, 1, 2, 3, 10, 11, 12, 7, 8, 9, 13, 14]);
}

#[test]
fn flipped_tile_has_mirrored_coords() {
    let mut tile: Tile<[Rgb; 4]> =
        Tile::from_colors([Rgb([1, 2, 3]), Rgb([4, 5, 6]), Rgb([7, 8, 9]), Rgb([10, 11, 12])]);
    tile.flipped = true;
    assert_eq!(tile.coords(), [4, 5, 6, 1, 2, 3, 10, 11, 12, 7, 8, 9]);
}

#[test]
fn tiles_are_equal_by_index_and_flip() {
    let a: Tile<u8> = Tile::new(3, 1);
    let mut b: Tile<u8> = Tile::new_with_date(3, 2, Some("2003:03:19".to_string()));
    assert!(a == b);
    b.flipped = true;
    assert!(a != b);
    let c: Tile<u8> = Tile::new(4, 1);
    assert!(a != c);
}

#[test]
fn tile_map_keeps_all_but_the_colors() {
    let mut tile: Tile<u8> = Tile::new_with_date(5, 7, Some("d".to_string()));
    tile.flipped = true;
    let mapped = tile.map(|c| c as u32 * 2);
    assert_eq!(mapped.colors, 14);
    assert_eq!(mapped.idx, 5);
    assert!(mapped.flipped);
    assert_eq!(mapped.date_taken, Some("d".to_string()));
}

#[test]
fn from_colors_is_outside_any_catalog() {
    let tile = Tile::from_colors(9u8);
    assert_eq!(tile.idx, 0);
    assert!(!tile.flipped);
    assert_eq!(tile.date_taken, None);
}

#[test]
fn push_tile_numbers_from_one() {
    let mut tile_set: TileSet<u8> = TileSet::new();
    assert_eq!(tile_set.push_tile("a".to_string(), 10), 1);
    assert_eq!(tile_set.push_tile("b".to_string(), 20), 2);
    assert_eq!(tile_set.push_tile_with_image("c".to_string(), 30, RgbImage::new(1, 1)), 3);
    assert_eq!(tile_set.len(), 3);
    assert_eq!(tile_set.tiles[2].idx, 3);
    assert!(tile_set.is_consistent());
}

#[test]
fn get_tile_round_trips() {
    let mut tile_set: TileSet<u8> = TileSet::new();
    for i in 0..5u8 {
        tile_set.push_tile(format!("{}", i), i * 10);
    }
    for idx in [-5i16, -4, -3, -2, -1, 1, 2, 3, 4, 5] {
        let tile = tile_set.get_tile(idx).unwrap();
        assert_eq!(tile.idx as i16, idx.abs());
        assert_eq!(tile.flipped, idx < 0);
        assert_eq!(tile.colors, (idx.abs() as u8 - 1) * 10);
    }
    assert!(tile_set.get_tile(0).is_none());
    assert!(tile_set.get_tile(6).is_none());
    assert!(tile_set.get_tile(-6).is_none());
    assert!(tile_set.get_tile(i16::MIN).is_none());
    assert!(tile_set.get_tile(i16::MAX).is_none());
}

#[test]
fn get_path_and_get_image() {
    let mut tile_set: TileSet<u8> = TileSet::new();
    tile_set.push_tile("plain.jpg".to_string(), 1);
    let picture = RgbImage::from_fn(2, 1, |x, _y| Rgb([x as u8, 0, 0]));
    tile_set.push_tile_with_image("pictured.jpg".to_string(), 2, picture);

    let plain = tile_set.get_tile(1).unwrap();
    assert_eq!(tile_set.get_path(&plain), "plain.jpg");
    let error = tile_set.get_image(&plain, 2).unwrap_err();
    assert_eq!(error.kind, ImageErrorKind::NotLoaded);
    assert_eq!(error.path, "plain.jpg");

    let pictured = tile_set.get_tile(2).unwrap();
    let image = tile_set.get_image(&pictured, 2).unwrap();
    assert_eq!(image.get_pixel(0, 0), Rgb([0, 0, 0]));
    assert_eq!(image.get_pixel(1, 0), Rgb([1, 0, 0]));

    let flipped = tile_set.get_tile(-2).unwrap();
    let image = tile_set.get_image(&flipped, 2).unwrap();
    assert_eq!(image.get_pixel(0, 0), Rgb([1, 0, 0]));
    assert_eq!(image.get_pixel(1, 0), Rgb([0, 0, 0]));

    tile_set.set_image(&plain, RgbImage::from_pixel(1, 1, Rgb([4, 4, 4])).unwrap());
    assert_eq!(tile_set.get_image(&plain, 1).unwrap().get_pixel(0, 0), Rgb([4, 4, 4]));
}

#[test]
fn from_tiles_that_are_out_of_order_is_not_consistent() {
    let tiles: Vec<Tile<u8>> = vec![Tile::new(2, 0), Tile::new(1, 0)];
    let tile_set = TileSet::from_tiles(tiles, vec!["a".to_string(), "b".to_string()]);
    assert!(!tile_set.is_consistent());
    let tiles: Vec<Tile<u8>> = vec![Tile::new(1, 0), Tile::new(2, 0)];
    let tile_set = TileSet::from_tiles(tiles, vec!["a".to_string()]);
    assert!(!tile_set.is_consistent());
    let tiles: Vec<Tile<u8>> = vec![Tile::new(1, 0), Tile::new(2, 0)];
    let tile_set = TileSet::from_tiles(tiles, vec!["a".to_string(), "b".to_string()]);
    assert!(tile_set.is_consistent());
}

#[test]
fn random_tile_is_a_tile_of_the_catalog() {
    let mut tile_set: TileSet<u8> = TileSet::new();
    for i in 0..4u8 {
        tile_set.push_tile(String::new(), i);
    }
    for _ in 0..50 {
        let tile = tile_set.random_tile();
        assert!((1..=4).contains(&tile.idx));
        assert_eq!(tile.colors as u16 + 1, tile.idx);
    }
}

#[test]
fn index_finds_the_nearest_in_both_orientations() {
    let mut tile_set: TileSet<[Rgb; 4]> = TileSet::new();
    tile_set.push_tile(
        String::new(),
        [Rgb([0, 0, 0]), Rgb([100, 100, 100]), Rgb([0, 0, 0]), Rgb([100, 100, 100])],
    );
    tile_set.push_tile(String::new(), [Rgb([50, 50, 50]); 4]);
    let mut index = tile_set.build_kiddo::<12>().unwrap();

    // the first tile as it is
    let found = index.nearest_one(&vec![0, 0, 0, 100, 100, 100, 0, 0, 0, 100, 100, 100]);
    assert_eq!((found.item, found.distance), (1, 0));
    // the first tile mirrored, one coordinate off by 3
    let found = index.nearest_one(&vec![100, 100, 100, 0, 0, 3, 100, 100, 100, 0, 0, 0]);
    assert_eq!((found.item, found.distance), (-1, 3));

    let found = index.nearest_n(&vec![50; 12], 3);
    assert_eq!(found.len(), 3);
    assert_eq!(found[0].distance, 0);
    assert_eq!(found[0].item.abs(), 2);
    assert_eq!(found[1].distance, 0);
    assert_eq!(found[1].item, -found[0].item);
    assert_eq!(found[2].distance, 600);
    assert_eq!(found[2].item.abs(), 1);

    // all there are, where more are asked for
    assert_eq!(index.nearest_n(&vec![50; 12], 100).len(), 4);
    assert_eq!(index.nearest_n(&vec![50; 12], 0).len(), 0);

    // removing takes out the one entry at its point
    assert_eq!(index.remove(&vec![50; 12], 2), 1);
    assert_eq!(index.remove(&vec![50; 12], 2), 0);
    assert_eq!(index.remove(&vec![51; 12], -2), 0);
    let found = index.nearest_one(&vec![50; 12]);
    assert_eq!((found.item, found.distance), (-2, 0));
    assert_eq!(index.nearest_n(&vec![50; 12], 100).len(), 3);
}

#[test]
fn empty_index_answers_with_item_zero() {
    let tile_set: TileSet<[Rgb; 1]> = TileSet::new();
    let index = tile_set.build_kiddo::<3>().unwrap();
    let found = index.nearest_one(&vec![1, 2, 3]);
    assert_eq!(found.item, 0);
    assert_eq!(found.distance, u32::MAX);
    assert!(index.nearest_n(&vec![1, 2, 3], 5).is_empty());
}

#[test]
fn index_of_the_wrong_dimension_is_refused() {
    let mut tile_set: TileSet<[Rgb; 4]> = TileSet::new();
    tile_set.push_tile(String::new(), [Rgb([0, 0, 0]); 4]);
    assert_eq!(tile_set.build_kiddo::<3>().err(), Some(IndexError::Dimension));
    assert_eq!(tile_set.build_kiddo::<13>().err(), Some(IndexError::Dimension));
    assert!(tile_set.build_kiddo::<12>().is_ok());
}

#[test]
fn crowded_catalog_is_refused() {
    // 320 tiles of one colour give 640 entries that share every coordinate
    let mut tile_set: TileSet<[Rgb; 1]> = TileSet::new();
    for _ in 0..319 {
        tile_set.push_tile(String::new(), [Rgb([1, 2, 3])]);
    }
    assert!(tile_set.build_kiddo::<3>().is_ok());
    tile_set.push_tile(String::new(), [Rgb([1, 2, 3])]);
    assert_eq!(tile_set.build_kiddo::<3>().err(), Some(IndexError::Crowded));
}

#[test]
fn too_many_tiles_are_refused() {
    let mut tile_set: TileSet<[Rgb; 1]> = TileSet::new();
    for i in 0..16384u32 {
        tile_set.push_tile(String::new(), [Rgb([(i % 256) as u8, (i / 256) as u8, 0])]);
    }
    assert_eq!(tile_set.build_kiddo::<3>().err(), Some(IndexError::TooManyTiles));
}

#[test]
fn large_index_keeps_answering() {
    // enough entries to split buckets
    let colour = |i: u32| [(i % 251) as u8, (i * 7 % 256) as u8, (i * 13 % 256) as u8];
    let mut tile_set: TileSet<[Rgb; 1]> = TileSet::new();
    for i in 0..2000u32 {
        tile_set.push_tile(String::new(), [Rgb(colour(i))]);
    }
    let mut index = tile_set.build_kiddo::<3>().unwrap();
    for i in (0..2000u32).step_by(37) {
        let point = colour(i).to_vec();
        let found = index.nearest_one(&point);
        assert_eq!(found.distance, 0);
        assert_eq!(index.remove(&point, i as i16 + 1), 1);
        assert_eq!(index.remove(&point, -(i as i16 + 1)), 1);
        assert_eq!(index.remove(&point, i as i16 + 1), 0);
    }
}

#[test]
fn index_answers_as_a_search_through_all_entries_does() {
    let colour = |i: u32| [(i * 37 % 256) as u8, (i * 101 % 251) as u8, (i * 7 % 253) as u8];
    let mut tile_set: TileSet<[Rgb; 1]> = TileSet::new();
    for i in 0..1500u32 {
        tile_set.push_tile(String::new(), [Rgb(colour(i))]);
    }
    let index = tile_set.build_kiddo::<3>().unwrap();
    let distance = |a: [u8; 3], b: [u8; 3]| -> u32 {
        (0..3).map(|c| (a[c] as i32 - b[c] as i32).unsigned_abs()).sum()
    };
    for q in 0..60u32 {
        let query = [(q * 4) as u8, (255 - q * 3) as u8, (q * q % 256) as u8];
        let least = (0..1500u32).map(|i| distance(colour(i), query)).min().unwrap();
        let found = index.nearest_one(&query.to_vec());
        assert_eq!(found.distance, least);
        assert_eq!(distance(colour(found.item.unsigned_abs() as u32 - 1), query), least);
        let mut all: Vec<u32> = (0..1500u32).map(|i| distance(colour(i), query)).collect();
        all.extend(all.clone());
        all.sort();
        let nearest: Vec<u32> = index.nearest_n(&query.to_vec(), 25).iter().map(|n| n.distance).collect();
        assert_eq!(nearest, all[..25].to_vec());
    }
}

#[test]
fn crowded_axis_with_three_coordinates_is_refused() {
    // 161 tiles with red 7 give 322 entries that share a coordinate on the
    // first axis, among entries with three different coordinates there
    let mut tile_set: TileSet<[Rgb; 1]> = TileSet::new();
    for i in 0..160u32 {
        tile_set.push_tile(String::new(), [Rgb([7, (i % 200) as u8, (i * 3 % 200) as u8])]);
    }
    tile_set.push_tile(String::new(), [Rgb([8, 1, 1])]);
    tile_set.push_tile(String::new(), [Rgb([9, 2, 2])]);
    assert!(tile_set.build_kiddo::<3>().is_ok());
    tile_set.push_tile(String::new(), [Rgb([7, 201, 201])]);
    assert_eq!(tile_set.build_kiddo::<3>().err(), Some(IndexError::Crowded));
}

#[test]
fn crowded_axis_with_two_coordinates_is_taken() {
    // black and white only: 300 tiles give 600 entries that share a coordinate
    let mut tile_set: TileSet<[Rgb; 1]> = TileSet::new();
    for _ in 0..300 {
        tile_set.push_tile(String::new(), [Rgb([0, 0, 0])]);
    }
    for _ in 0..100 {
        tile_set.push_tile(String::new(), [Rgb([255, 255, 255])]);
    }
    let mut index = tile_set.build_kiddo::<3>().unwrap();
    assert_eq!(index.nearest_n(&vec![0, 0, 0], 1000).len(), 800);
    let found = index.nearest_n(&vec![250, 250, 250], 201);
    assert_eq!(found[199].distance, 15);
    assert_eq!(found[200].distance, 750);
    for i in 1..=400i16 {
        let point = if i <= 300 { vec![0, 0, 0] } else { vec![255, 255, 255] };
        assert_eq!(index.remove(&point, i), 1);
        assert_eq!(index.remove(&point, -i), 1);
    }
    assert_eq!(index.nearest_one(&vec![0, 0, 0]).item, 0);
}

#[test]
fn from_entries_numbers_the_tiles() {
    let tile_set = TileSet::from_entries(vec![("a".to_string(), 10u8), ("b".to_string(), 20u8)]).unwrap();
    assert_eq!(tile_set.len(), 2);
    assert!(tile_set.is_consistent());
    assert_eq!(tile_set.tiles[0].idx, 1);
    assert_eq!(tile_set.tiles[0].colors, 10);
    assert_eq!(tile_set.tiles[1].idx, 2);
    assert_eq!(tile_set.tiles[1].colors, 20);
    assert_eq!(tile_set.get_path(&tile_set.tiles[1]), "b");
    let none: Vec<(String, u8)> = Vec::new();
    assert_eq!(TileSet::from_entries(none).unwrap().len(), 0);
}

#[test]
fn default_tile_and_catalog() {
    let tile: Tile<u8> = Tile::default();
    assert_eq!((tile.idx, tile.colors, tile.flipped), (0, 0, false));
    let tile_set: TileSet<u8> = TileSet::default();
    assert_eq!(tile_set.len(), 0);
}
