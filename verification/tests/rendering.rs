use emosaic::color::Rgb;
use emosaic::color::RgbImage;
use emosaic::error::ImageErrorKind;
use emosaic::error::IndexError;
use emosaic::error::RenderError;
use emosaic::index::NearestNeighbour;
use emosaic::layout::plan;
use emosaic::layout::snap_to_grid;
use emosaic::matching::Tolerance;
use emosaic::matching::choose_tile;
use emosaic::matching::retained_candidates;
use emosaic::rendering::RenderConfig;
use emosaic::rendering::render;
use emosaic::rendering::render_nto1;
use emosaic::rendering::render_nto1_no_repeat;
use emosaic::rendering::render_random;
use emosaic::tiles::TileSet;

fn solid(size: u32, color: Rgb) -> RgbImage {
    RgbImage::from_pixel(size, size, color).unwrap()
}

fn catalog_of(colors: &[Rgb], tile_size: u32) -> TileSet<[Rgb; 1]> {
    let mut tile_set: TileSet<[Rgb; 1]> = TileSet::new();
    for (i, color) in colors.iter().enumerate() {
        tile_set.push_tile_with_image(format!("tile{}.jpg", i + 1), [*color], solid(tile_size, *color));
    }
    tile_set
}

#[test]
fn test_render_random() {
    let source_img = RgbImage::new(10, 10);
    let mut tile_set: TileSet<()> = TileSet::new();
    let tile_size = 32;
    tile_set.push_tile_with_image(String::new(), (), RgbImage::new(tile_size, tile_size));
    let output = render_random(&source_img, tile_set, tile_size).unwrap();
    assert_eq!(output.width(), source_img.width() * tile_size);
    assert_eq!(output.height(), source_img.height() * tile_size);
}

#[test]
fn test_render_nto1() {
    let source_img = RgbImage::new(5, 2);
    let mut tile_set: TileSet<[Rgb; 1]> = TileSet::new();
    tile_set.push_tile_with_image(String::new(), [Rgb([0, 0, 0]); 1], RgbImage::new(8, 8));
    let tile_size = 8;
    let output = render_nto1::<1, 3>(&source_img, tile_set, tile_size, false, None).unwrap();
    assert_eq!(output.image.width(), source_img.width() * tile_size);
    assert_eq!(output.image.height(), source_img.height() * tile_size);
}

#[test]
fn red_source_takes_the_red_tile() {
    let red = Rgb([255, 0, 0]);
    let blue = Rgb([0, 0, 255]);
    let source_img = solid(2, red);
    let tile_set = catalog_of(&[red, blue], 4);
    let result = render_nto1::<1, 3>(&source_img, tile_set, 4, false, None).unwrap();
    assert_eq!(result.stats.tile_count(), 4);
    for y in 0..2 {
        for x in 0..2 {
            let record = result.stats.get(x, y).unwrap();
            assert_eq!(record.idx, 1);
            assert_eq!(record.colors, 0);
        }
    }
    assert_eq!(result.image.width(), 8);
    assert_eq!(result.image.height(), 8);
    for y in 0..8 {
        for x in 0..8 {
            assert_eq!(result.image.get_pixel(x, y), red);
        }
    }
}

#[test]
fn nearest_tile_is_told_with_its_distance() {
    let source_img = RgbImage::from_fn(2, 1, |x, _y| if x == 0 { Rgb([10, 20, 30]) } else { Rgb([200, 200, 200]) });
    let tile_set = catalog_of(&[Rgb([0, 0, 0]), Rgb([12, 18, 33]), Rgb([190, 210, 205])], 1);
    let result = render_nto1::<1, 3>(&source_img, tile_set, 1, false, None).unwrap();
    let left = result.stats.get(0, 0).unwrap();
    assert_eq!((left.idx, left.colors), (2, 2 + 2 + 3));
    let right = result.stats.get(1, 0).unwrap();
    assert_eq!((right.idx, right.colors), (3, 10 + 10 + 5));
    assert_eq!(result.image.get_pixel(0, 0), Rgb([12, 18, 33]));
    assert_eq!(result.image.get_pixel(1, 0), Rgb([190, 210, 205]));
}

#[test]
fn mirrored_tile_is_shown_mirrored() {
    // the source block is the tile's signature mirrored left to right
    let source_img = RgbImage::from_fn(2, 2, |x, _y| if x == 0 { Rgb([200, 0, 0]) } else { Rgb([0, 0, 0]) });
    let mut tile_set: TileSet<[Rgb; 4]> = TileSet::new();
    let picture = RgbImage::from_fn(2, 2, |x, _y| if x == 1 { Rgb([1, 1, 1]) } else { Rgb([9, 9, 9]) });
    tile_set.push_tile_with_image(
        "a".to_string(),
        [Rgb([0, 0, 0]), Rgb([200, 0, 0]), Rgb([0, 0, 0]), Rgb([200, 0, 0])],
        picture,
    );
    let result = render_nto1::<4, 12>(&source_img, tile_set, 2, false, None).unwrap();
    let record = result.stats.get(0, 0).unwrap();
    assert_eq!(record.idx, 1);
    assert!(record.flipped);
    assert_eq!(record.colors, 0);
    assert_eq!(result.image.get_pixel(0, 0), Rgb([1, 1, 1]));
    assert_eq!(result.image.get_pixel(1, 0), Rgb([9, 9, 9]));
    assert_eq!(result.image.get_pixel(0, 1), Rgb([1, 1, 1]));
    assert_eq!(result.image.get_pixel(1, 1), Rgb([9, 9, 9]));
}

#[test]
fn sizes_that_do_not_fit_are_refused() {
    let tile_set: TileSet<[Rgb; 4]> = TileSet::new();
    // source of 3 by 2 pixels cannot be cut into cells of 2 by 2
    let error = render_nto1::<4, 12>(&RgbImage::new(3, 2), tile_set.clone(), 4, false, None).err();
    assert_eq!(error, Some(RenderError::SourceSize));
    let error = render_nto1::<4, 12>(&RgbImage::new(2, 3), tile_set.clone(), 4, false, None).err();
    assert_eq!(error, Some(RenderError::SourceSize));
    // tiles of 3 pixels cannot be cut into 2 by 2 cells
    let error = render_nto1::<4, 12>(&RgbImage::new(2, 2), tile_set.clone(), 3, false, None).err();
    assert_eq!(error, Some(RenderError::TileSize));
    let error = render_nto1::<4, 12>(&RgbImage::new(2, 2), tile_set.clone(), 0, false, None).err();
    assert_eq!(error, Some(RenderError::TileSize));
    let error = render_nto1_no_repeat::<4, 12>(&RgbImage::new(3, 2), tile_set.clone(), 4).err();
    assert_eq!(error, Some(RenderError::SourceSize));
    // an output wider than a u32 counts
    let error = render_nto1::<4, 12>(&RgbImage::new(4, 2), tile_set.clone(), 0xffff_fffe, false, None).err();
    assert_eq!(error, Some(RenderError::OutputSize));
    // the size errors come first
    let error = render_nto1::<4, 13>(&RgbImage::new(3, 2), tile_set, 4, true, None).err();
    assert_eq!(error, Some(RenderError::SourceSize));
}

#[test]
fn wrong_dimension_is_refused() {
    let tile_set = catalog_of(&[Rgb([0, 0, 0])], 1);
    let error = render_nto1::<1, 4>(&RgbImage::new(1, 1), tile_set.clone(), 1, false, None).err();
    assert_eq!(error, Some(RenderError::Index(IndexError::Dimension)));
    let error = render_nto1_no_repeat::<1, 12>(&RgbImage::new(1, 1), tile_set, 1).err();
    assert_eq!(error, Some(RenderError::Index(IndexError::Dimension)));
}

#[test]
fn empty_catalog_is_an_index_error() {
    let tile_set: TileSet<[Rgb; 1]> = TileSet::new();
    let error = render_nto1::<1, 3>(&RgbImage::new(2, 2), tile_set.clone(), 1, false, None).err();
    assert_eq!(error, Some(RenderError::IndexConsistency));
    let error =
        render_nto1::<1, 3>(&RgbImage::new(2, 2), tile_set.clone(), 1, false, Some(Tolerance::percent(5))).err();
    assert_eq!(error, Some(RenderError::IndexConsistency));
    // without a cell there is nothing to match
    let result = render_nto1::<1, 3>(&RgbImage::new(0, 0), tile_set, 1, false, None).unwrap();
    assert_eq!(result.image.width(), 0);
    assert_eq!(result.stats.tile_count(), 0);
}

#[test]
fn missing_and_misfit_images_fail_the_render() {
    let mut tile_set: TileSet<[Rgb; 1]> = TileSet::new();
    tile_set.push_tile("missing.jpg".to_string(), [Rgb([0, 0, 0])]);
    match render_nto1::<1, 3>(&RgbImage::new(1, 1), tile_set, 2, false, None) {
        Err(RenderError::Image(error)) => {
            assert_eq!(error.kind, ImageErrorKind::NotLoaded);
            assert_eq!(error.path, "missing.jpg");
        }
        _ => panic!("the render went on without an image"),
    }
    let mut tile_set: TileSet<[Rgb; 1]> = TileSet::new();
    tile_set.push_tile_with_image("small.jpg".to_string(), [Rgb([0, 0, 0])], RgbImage::new(1, 1));
    match render_nto1_no_repeat::<1, 3>(&RgbImage::new(1, 1), tile_set, 2) {
        Err(RenderError::Image(error)) => {
            assert_eq!(error.kind, ImageErrorKind::WrongSize);
            assert_eq!(error.path, "small.jpg");
        }
        _ => panic!("the render went on with a misfit image"),
    }
}

#[test]
fn no_repeat_uses_no_entry_twice() {
    let grey = Rgb([100, 100, 100]);
    let source_img = solid(2, grey);
    // two tiles give four entries for four cells
    let tile_set = catalog_of(&[Rgb([100, 100, 100]), Rgb([90, 100, 100])], 1);
    for _ in 0..10 {
        let result = render_nto1::<1, 3>(&source_img, tile_set.clone(), 1, true, None).unwrap();
        let mut seen = Vec::new();
        let mut total = 0;
        for y in 0..2 {
            for x in 0..2 {
                let record = result.stats.get(x, y).unwrap();
                let entry = (record.idx, record.flipped);
                assert!(!seen.contains(&entry));
                seen.push(entry);
                total += record.colors;
            }
        }
        assert_eq!(total, 0 + 0 + 10 + 10);
    }
}

#[test]
fn no_repeat_fails_fast_without_enough_entries() {
    let tile_set = catalog_of(&[Rgb([0, 0, 0]), Rgb([1, 1, 1])], 1);
    // five cells, four entries
    let error = render_nto1::<1, 3>(&RgbImage::new(5, 1), tile_set.clone(), 1, true, None).err();
    assert_eq!(error, Some(RenderError::InsufficientTiles));
    let error = render_nto1_no_repeat::<1, 3>(&RgbImage::new(5, 1), tile_set.clone(), 1).err();
    assert_eq!(error, Some(RenderError::InsufficientTiles));
    // before anything is asked of the images or of the dimension
    let mut bare: TileSet<[Rgb; 1]> = TileSet::new();
    bare.push_tile("bare.jpg".to_string(), [Rgb([0, 0, 0])]);
    let error = render_nto1_no_repeat::<1, 7>(&RgbImage::new(3, 1), bare, 1).err();
    assert_eq!(error, Some(RenderError::InsufficientTiles));
    // repeats need no more than one tile
    assert!(render_nto1::<1, 3>(&RgbImage::new(5, 1), tile_set, 1, false, None).is_ok());
}

#[test]
fn greedy_uses_each_tile_once() {
    let source_img = RgbImage::from_fn(3, 2, |x, y| Rgb([(x * 40) as u8, (y * 90) as u8, 0]));
    let colors: Vec<Rgb> = (0..6u8).map(|i| Rgb([i * 17, 255 - i * 40, 3])).collect();
    let tile_set = catalog_of(&colors, 2);
    let result = render_nto1_no_repeat::<1, 3>(&source_img, tile_set, 2).unwrap();
    assert_eq!(result.stats.tile_count(), 6);
    let mut seen = Vec::new();
    for y in 0..2 {
        for x in 0..3 {
            // positions are those of the tiles in the mosaic
            let record = result.stats.get(x * 2, y * 2).unwrap();
            assert!(!seen.contains(&record.idx));
            seen.push(record.idx);
            let color = colors[record.idx as usize - 1];
            let cell = source_img.get_pixel(x, y);
            let distance: u32 = (0..3).map(|c| (color.0[c] as i32 - cell.0[c] as i32).unsigned_abs()).sum();
            assert_eq!(record.colors, distance);
            assert_eq!(result.image.get_pixel(x * 2, y * 2), color);
            assert_eq!(result.image.get_pixel(x * 2 + 1, y * 2 + 1), color);
        }
    }
}

#[test]
fn greedy_runs_out_of_tiles() {
    // three cells, two tiles: enough entries, too few tiles
    let tile_set = catalog_of(&[Rgb([0, 0, 0]), Rgb([1, 1, 1])], 1);
    let error = render_nto1_no_repeat::<1, 3>(&RgbImage::new(3, 1), tile_set, 1).err();
    assert_eq!(error, Some(RenderError::Exhausted));
}

#[test]
fn greedy_gives_the_exact_tiles_where_there_are_some() {
    let source_img = RgbImage::from_fn(2, 1, |x, _y| if x == 0 { Rgb([10, 10, 10]) } else { Rgb([200, 10, 10]) });
    let tile_set = catalog_of(&[Rgb([200, 10, 10]), Rgb([10, 10, 10]), Rgb([100, 100, 100])], 2);
    let result = render_nto1_no_repeat::<1, 3>(&source_img, tile_set, 2).unwrap();
    assert_eq!(result.stats.get(0, 0).unwrap().idx, 2);
    assert_eq!(result.stats.get(0, 0).unwrap().colors, 0);
    assert_eq!(result.stats.get(2, 0).unwrap().idx, 1);
    assert_eq!(result.stats.get(2, 0).unwrap().colors, 0);
}

#[test]
fn greedy_serves_the_worst_placed_cell_first() {
    // both cells are nearest to tile 1; the right cell lies farther from it
    // and so has the first turn
    let source_img = RgbImage::from_fn(2, 1, |x, _y| if x == 0 { Rgb([100, 0, 0]) } else { Rgb([110, 0, 0]) });
    let tile_set = catalog_of(&[Rgb([101, 0, 0]), Rgb([0, 0, 0])], 1);
    let result = render_nto1_no_repeat::<1, 3>(&source_img, tile_set, 1).unwrap();
    assert_eq!(result.stats.get(1, 0).unwrap().idx, 1);
    assert_eq!(result.stats.get(1, 0).unwrap().colors, 9);
    assert_eq!(result.stats.get(0, 0).unwrap().idx, 2);
    assert_eq!(result.stats.get(0, 0).unwrap().colors, 100);
}

#[test]
fn tolerance_of_nothing_takes_the_nearest() {
    let source_img = RgbImage::from_fn(3, 1, |x, _y| Rgb([(x * 100) as u8, 50, 50]));
    let colors: Vec<Rgb> = (0..30u8).map(|i| Rgb([i * 8, 40 + i % 5, 60])).collect();
    let tile_set = catalog_of(&colors, 1);
    let plain = render_nto1::<1, 3>(&source_img, tile_set.clone(), 1, false, None).unwrap();
    for _ in 0..10 {
        let exact =
            render_nto1::<1, 3>(&source_img, tile_set.clone(), 1, false, Some(Tolerance::percent(0))).unwrap();
        for x in 0..3 {
            assert_eq!(exact.stats.get(x, 0).unwrap().colors, plain.stats.get(x, 0).unwrap().colors);
        }
    }
}

#[test]
fn tolerance_keeps_within_its_bounds() {
    let source_img = solid(1, Rgb([100, 100, 100]));
    // distances 10, 11, 12 and 40 from the source, each in both orientations
    let tile_set = catalog_of(
        &[Rgb([110, 100, 100]), Rgb([100, 111, 100]), Rgb([100, 100, 112]), Rgb([140, 100, 100])],
        1,
    );
    let mut seen = Vec::new();
    for _ in 0..200 {
        let result = render_nto1::<1, 3>(&source_img, tile_set.clone(), 1, false, Some(Tolerance::percent(20)))
            .unwrap();
        let record = result.stats.get(0, 0).unwrap();
        // 20 percent of 10 is 2: distances 10 and 11 are within, 12 is not
        assert!(record.colors == 10 || record.colors == 11);
        if !seen.contains(&record.colors) {
            seen.push(record.colors);
        }
    }
    assert_eq!(seen.len(), 2);
}

fn candidates(distances: &[u32]) -> Vec<NearestNeighbour> {
    distances.iter().enumerate().map(|(i, d)| NearestNeighbour { distance: *d, item: i as i16 + 1 }).collect()
}

#[test]
fn retained_candidates_counts_those_within_the_tolerance() {
    let found = candidates(&[100, 100, 104, 105, 106, 200]);
    assert_eq!(retained_candidates(&found, &Tolerance::percent(0)), 1);
    assert_eq!(retained_candidates(&found, &Tolerance::percent(1)), 2);
    assert_eq!(retained_candidates(&found, &Tolerance::percent(5)), 3);
    assert_eq!(retained_candidates(&found, &Tolerance::percent(6)), 4);
    assert_eq!(retained_candidates(&found, &Tolerance::percent(100)), 5);
    assert_eq!(retained_candidates(&found, &Tolerance::percent(101)), 6);
    // four and a half percent
    assert_eq!(retained_candidates(&found, &Tolerance::new(9, 2).unwrap()), 3);
    assert_eq!(retained_candidates(&found, &Tolerance::new(7, 2).unwrap()), 2);
    assert_eq!(retained_candidates(&candidates(&[]), &Tolerance::percent(50)), 0);
    // the nearest stays even at distance 0
    assert_eq!(retained_candidates(&candidates(&[0, 0, 1]), &Tolerance::percent(100)), 1);
    assert!(Tolerance::new(1, 0).is_none());
}

#[test]
fn choose_tile_takes_the_nearest_entry() {
    let tile_set = catalog_of(&[Rgb([0, 0, 0]), Rgb([50, 50, 50]), Rgb([200, 200, 200])], 1);
    let index = tile_set.build_kiddo::<3>().unwrap();
    let chosen = choose_tile(&index, &vec![60, 50, 50], None).unwrap();
    assert_eq!(chosen.item.abs(), 2);
    assert_eq!(chosen.distance, 10);
    let chosen = choose_tile(&index, &vec![60, 50, 50], Some(Tolerance::percent(0))).unwrap();
    assert_eq!(chosen.item.abs(), 2);
    assert_eq!(chosen.distance, 10);
    let empty: TileSet<[Rgb; 1]> = TileSet::new();
    let index = empty.build_kiddo::<3>().unwrap();
    assert!(choose_tile(&index, &vec![60, 50, 50], None).is_none());
    assert!(choose_tile(&index, &vec![60, 50, 50], Some(Tolerance::percent(10))).is_none());
}

#[test]
fn plan_lays_out_the_grid() {
    let layout = plan::<4>(&RgbImage::new(6, 4), 8).unwrap();
    assert_eq!((layout.step, layout.htiles, layout.vtiles, layout.tile_size), (2, 3, 2, 8));
    assert_eq!(plan::<9>(&RgbImage::new(6, 4), 9).err(), Some(RenderError::SourceSize));
    assert_eq!(plan::<4>(&RgbImage::new(6, 4), 7).err(), Some(RenderError::TileSize));
}

#[test]
fn render_puts_each_tile_in_its_place() {
    let source_img = RgbImage::new(4, 2);
    let output = render(&source_img, 3, 2, |x, y| solid(3, Rgb([x as u8, y as u8, 7])));
    assert_eq!(output.width(), 6);
    assert_eq!(output.height(), 3);
    for y in 0..3 {
        for x in 0..6 {
            let want = if x < 3 { Rgb([0, 0, 7]) } else { Rgb([2, 0, 7]) };
            assert_eq!(output.get_pixel(x, y), want);
        }
    }
}

#[test]
fn render_random_shows_tiles_of_the_catalog() {
    let blue = Rgb([0, 0, 255]);
    let green = Rgb([0, 255, 0]);
    let mut tile_set: TileSet<()> = TileSet::new();
    tile_set.push_tile_with_image(String::new(), (), solid(2, blue));
    tile_set.push_tile_with_image(String::new(), (), solid(2, green));
    let output = render_random(&RgbImage::new(3, 3), tile_set.clone(), 2).unwrap();
    for y in 0..6 {
        for x in 0..6 {
            let pixel = output.get_pixel(x, y);
            assert!(pixel == blue || pixel == green);
            assert_eq!(pixel, output.get_pixel(x / 2 * 2, y / 2 * 2));
        }
    }
    assert_eq!(render_random(&RgbImage::new(3, 3), tile_set.clone(), 0).err(), Some(RenderError::TileSize));
    match render_random(&RgbImage::new(3, 3), tile_set, 4) {
        Err(RenderError::Image(error)) => assert_eq!(error.kind, ImageErrorKind::WrongSize),
        _ => panic!("the render went on with misfit images"),
    }
}

#[test]
fn render_config_default() {
    let config = RenderConfig::default();
    assert_eq!(config.random_neighbor_count, 20);
    assert_eq!(config.progress_template, "{msg} {wide_bar} {pos}/{len} ({per_sec})");
}

#[test]
fn snap_to_grid_takes_the_nearest_multiple() {
    assert_eq!(snap_to_grid(100, 3), Some(99));
    assert_eq!(snap_to_grid(101, 3), Some(102));
    assert_eq!(snap_to_grid(102, 3), Some(102));
    // as near to 8 as to 12: the lower one
    assert_eq!(snap_to_grid(10, 4), Some(8));
    assert_eq!(snap_to_grid(11, 4), Some(12));
    assert_eq!(snap_to_grid(7, 1), Some(7));
    assert_eq!(snap_to_grid(1, 16), Some(0));
    assert_eq!(snap_to_grid(u32::MAX, 128), None);
    assert_eq!(snap_to_grid(u32::MAX - 100, 128), Some(u32::MAX - 127));
}

#[test]
fn greedy_serves_the_worst_placed_cell_first_wherever_it_stands() {
    // as above with the cells changed over: now the left cell has the first turn
    let source_img = RgbImage::from_fn(2, 1, |x, _y| if x == 0 { Rgb([110, 0, 0]) } else { Rgb([100, 0, 0]) });
    let tile_set = catalog_of(&[Rgb([101, 0, 0]), Rgb([0, 0, 0])], 1);
    let result = render_nto1_no_repeat::<1, 3>(&source_img, tile_set, 1).unwrap();
    assert_eq!(result.stats.get(0, 0).unwrap().idx, 1);
    assert_eq!(result.stats.get(0, 0).unwrap().colors, 9);
    assert_eq!(result.stats.get(1, 0).unwrap().idx, 2);
    assert_eq!(result.stats.get(1, 0).unwrap().colors, 100);
}

#[test]
fn no_repeat_takes_the_cells_of_a_row_in_an_order_left_to_chance() {
    // both cells are nearest to the one tile that is near; whichever has the
    // first turn gets it, as it is or mirrored, the other gets the second
    let source_img = solid(2, Rgb([100, 100, 100]));
    let source_img = source_img.crop(0, 0, 2, 1);
    let tile_set = catalog_of(&[Rgb([100, 100, 100]), Rgb([0, 0, 0]), Rgb([255, 255, 255])], 1);
    let mut seen = Vec::new();
    for _ in 0..200 {
        let result = render_nto1::<1, 3>(&source_img, tile_set.clone(), 1, true, None).unwrap();
        let left = result.stats.get(0, 0).unwrap();
        let right = result.stats.get(1, 0).unwrap();
        assert_eq!((left.idx, right.idx), (1, 1));
        assert_ne!(left.flipped, right.flipped);
        // the index hands out its entries in its own order; the first turn
        // gets the first of them
        if !seen.contains(&left.flipped) {
            seen.push(left.flipped);
        }
    }
    assert_eq!(seen.len(), 2);
}
