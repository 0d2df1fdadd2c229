use emosaic::analysis::analyse;
use emosaic::analysis::get_img_colors;
use emosaic::color::Rgb;
use emosaic::color::RgbImage;

#[test]
fn test_analyse_single_color() {
    let mut img = RgbImage::new(2, 2);
    // Fill with red
    for y in 0..2 {
        for x in 0..2 {
            img.put_pixel(x, y, Rgb([255, 0, 0]));
        }
    }

    let colors = analyse::<4>(img);
    for color in colors.iter() {
        assert_eq!(*color, Rgb([255, 0, 0]));
    }
}

#[test]
fn test_get_img_colors() {
    let mut img = RgbImage::new(4, 4);
    // Fill with different colors in a pattern
    for y in 0..4 {
        for x in 0..4 {
            img.put_pixel(x, y, Rgb([x as u8 * 64, y as u8 * 64, 128]));
        }
    }

    let colors = get_img_colors::<4>(0, 0, 2, &img);
    assert_eq!(colors[0], Rgb([0, 0, 128])); // (0,0)
    assert_eq!(colors[1], Rgb([64, 0, 128])); // (1,0)
    assert_eq!(colors[2], Rgb([0, 64, 128])); // (0,1)
    assert_eq!(colors[3], Rgb([64, 64, 128])); // (1,1)
}

#[test]
fn test_analyse_tiles() {
    let images = vec![
        ("image1.jpg".to_string(), RgbImage::new(10, 10)),
        ("image2.jpg".to_string(), RgbImage::new(10, 10)),
    ];
    let tile_set: Vec<_> = images.into_iter().map(|(path, img)| (path, analyse::<9>(img))).collect();
    assert_eq!(tile_set.len(), 2);
}

fn solid_image_gives_its_color<const N: usize>(width: u32, height: u32) {
    let color = Rgb([12, 200, 255]);
    let img = RgbImage::from_pixel(width, height, color).unwrap();
    let colors = analyse::<N>(img);
    assert_eq!(colors.len(), N);
    for found in colors.iter() {
        assert_eq!(*found, color);
    }
}

#[test]
fn solid_images_of_any_size_give_their_color() {
    solid_image_gives_its_color::<1>(1, 1);
    solid_image_gives_its_color::<1>(7, 3);
    solid_image_gives_its_color::<4>(2, 2);
    solid_image_gives_its_color::<4>(5, 9);
    solid_image_gives_its_color::<9>(3, 3);
    solid_image_gives_its_color::<9>(10, 4);
    solid_image_gives_its_color::<16>(4, 4);
    solid_image_gives_its_color::<16>(33, 17);
}

#[test]
fn analyse_averages_each_cell() {
    // 4x2 image cut into 2x2 cells of 2x1 pixels each
    let img = RgbImage::from_fn(4, 2, |x, y| Rgb([(x * 10) as u8, (y * 100) as u8, 0]));
    let colors = analyse::<4>(img);
    assert_eq!(colors[0], Rgb([5, 0, 0]));
    assert_eq!(colors[1], Rgb([25, 0, 0]));
    assert_eq!(colors[2], Rgb([5, 100, 0]));
    assert_eq!(colors[3], Rgb([25, 100, 0]));
}

#[test]
fn analyse_leaves_the_rest_out() {
    // 3 pixels wide at side 2: cells are 1 pixel wide and column 2 belongs to none
    let img = RgbImage::from_fn(3, 2, |x, _y| Rgb([(x * 50) as u8, 0, 0]));
    let colors = analyse::<4>(img);
    assert_eq!(colors[0], Rgb([0, 0, 0]));
    assert_eq!(colors[1], Rgb([50, 0, 0]));
    assert_eq!(colors[2], Rgb([0, 0, 0]));
    assert_eq!(colors[3], Rgb([50, 0, 0]));
}

#[test]
fn get_img_colors_reads_the_block_at_an_offset() {
    let img = RgbImage::from_fn(4, 4, |x, y| Rgb([x as u8, y as u8, 0]));
    let colors = get_img_colors::<4>(2, 1, 2, &img);
    assert_eq!(colors, [Rgb([2, 1, 0]), Rgb([3, 1, 0]), Rgb([2, 2, 0]), Rgb([3, 2, 0])]);
}
