use emosaic::color::Rgb;
use emosaic::stats::key_of;
use emosaic::stats::position_of;
use emosaic::stats::RenderStats;
use emosaic::tiles::Tile;

#[test]
fn test_render_stats_new() {
    let stats: RenderStats<u32> = RenderStats::new();
    assert_eq!(stats.tile_count(), 0);
}

#[test]
fn test_render_stats_default() {
    let stats: RenderStats<u32> = RenderStats::default();
    assert_eq!(stats.tile_count(), 0);
}

#[test]
fn test_push_tile() {
    let mut stats: RenderStats<u32> = RenderStats::new();
    let tile = Tile::from_colors([Rgb([255, 0, 0])]);

    stats.push_tile(10, 20, &tile, 100);
    assert_eq!(stats.tile_count(), 1);

    stats.push_tile(30, 40, &tile, 200);
    assert_eq!(stats.tile_count(), 2);
}

#[test]
fn push_tile_records_the_tile_with_its_distance() {
    let mut stats: RenderStats<u32> = RenderStats::new();
    let mut tile = Tile::new_with_date(7, [Rgb([255, 0, 0])], Some("2003:03:19".to_string()));
    tile.flipped = true;
    stats.push_tile(10, 20, &tile, 100);
    let record = stats.get(10, 20).unwrap();
    assert_eq!(record.idx, 7);
    assert!(record.flipped);
    assert_eq!(record.colors, 100);
    assert_eq!(record.date_taken, Some("2003:03:19".to_string()));
    assert!(stats.get(20, 10).is_none());
}

#[test]
fn push_tile_at_one_position_keeps_the_last() {
    let mut stats: RenderStats<u32> = RenderStats::new();
    let tile = Tile::from_colors(());
    stats.push_tile(1, 1, &tile, 5);
    stats.push_tile(1, 1, &tile, 6);
    assert_eq!(stats.tile_count(), 1);
    assert_eq!(stats.get(1, 1).unwrap().colors, 6);
}

#[test]
fn keys_and_positions() {
    assert_eq!(key_of(0, 0), 0);
    assert_eq!(key_of(1, 2), (1u64 << 32) + 2);
    assert_eq!(key_of(u32::MAX, u32::MAX), u64::MAX);
    assert_eq!(position_of(key_of(123, 456)), (123, 456));
    assert_eq!(position_of(u64::MAX), (u32::MAX, u32::MAX));
}

#[test]
fn test_render_basic() {
    let mut stats: RenderStats<u32> = RenderStats::new();
    let tile = Tile::from_colors([Rgb([255, 0, 0])]);

    stats.push_tile(0, 0, &tile, 50);
    stats.push_tile(16, 16, &tile, 150);

    let rendered = stats.render(16);
    assert_eq!(rendered.width(), 2);
    assert_eq!(rendered.height(), 2);

    // Check that pixels have been set (should be grayscale values)
    let pixel1 = rendered.get_pixel(0, 0);
    let pixel2 = rendered.get_pixel(1, 1);

    // Pixel 1 should be darker (lower distance = 50)
    // Pixel 2 should be lighter (higher distance = 150)
    assert!(pixel1.0[0] < pixel2.0[0]);
}

#[test]
fn render_shades_by_the_share_of_the_greatest_distance() {
    let mut stats: RenderStats<u32> = RenderStats::new();
    let tile = Tile::from_colors(());
    stats.push_tile(0, 0, &tile, 50);
    stats.push_tile(16, 16, &tile, 150);
    stats.push_tile(47, 0, &tile, 1);
    let rendered = stats.clone().render(16);
    assert_eq!(rendered.width(), 3);
    assert_eq!(rendered.height(), 2);
    // 50 * 255 / 150 = 85, 150 * 255 / 150 = 255, 1 * 255 / 150 = 1
    assert_eq!(rendered.get_pixel(0, 0), Rgb([85, 85, 85]));
    assert_eq!(rendered.get_pixel(1, 1), Rgb([255, 255, 255]));
    assert_eq!(rendered.get_pixel(2, 0), Rgb([1, 1, 1]));
    assert_eq!(rendered.get_pixel(1, 0), Rgb([0, 0, 0]));
    assert_eq!(rendered.get_pixel(0, 1), Rgb([0, 0, 0]));
    assert_eq!(rendered.get_pixel(2, 1), Rgb([0, 0, 0]));
    assert_eq!(stats.tile_count(), 3);
}

#[test]
fn render_of_perfect_matches_is_black() {
    let mut stats: RenderStats<u32> = RenderStats::new();
    let tile = Tile::from_colors(());
    stats.push_tile(3, 5, &tile, 0);
    let rendered = stats.render(1);
    assert_eq!(rendered.width(), 4);
    assert_eq!(rendered.height(), 6);
    assert_eq!(rendered.get_pixel(3, 5), Rgb([0, 0, 0]));
}
