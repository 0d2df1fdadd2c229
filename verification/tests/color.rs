use emosaic::color::average_color;
use emosaic::color::Rgb;
use emosaic::color::RgbImage;

#[test]
fn test_average_color_basic() {
    // Create a 2x2 image with known colors
    let img = RgbImage::from_fn(2, 2, |x, y| {
        match (x, y) {
            (0, 0) => Rgb([100, 150, 200]), // Top-left
            (1, 0) => Rgb([200, 100, 50]),  // Top-right
            (0, 1) => Rgb([50, 200, 100]),  // Bottom-left
            (1, 1) => Rgb([150, 50, 150]),  // Bottom-right
            _ => unreachable!(),
        }
    });

    // Test full image average
    let avg = average_color(&img, (0, 0, 2, 2));
    assert_eq!(avg, Rgb([125, 125, 125])); // (100+200+50+150)/4 = 125 for each channel
}

#[test]
fn test_average_color_single_pixel() {
    let img = RgbImage::from_fn(3, 3, |_x, _y| Rgb([42, 84, 126]));

    let avg = average_color(&img, (1, 1, 1, 1));
    assert_eq!(avg, Rgb([42, 84, 126]));
}

#[test]
fn average_rounds_down() {
    let img = RgbImage::from_fn(2, 1, |x, _y| if x == 0 { Rgb([0, 1, 255]) } else { Rgb([1, 2, 254]) });
    assert_eq!(average_color(&img, (0, 0, 2, 1)), Rgb([0, 1, 254]));
}

#[test]
fn average_of_a_part() {
    let img = RgbImage::from_fn(4, 4, |x, y| Rgb([(x * 10) as u8, (y * 10) as u8, 7]));
    // columns 1 and 2 of rows 2 and 3
    assert_eq!(average_color(&img, (1, 2, 2, 2)), Rgb([15, 25, 7]));
}

#[test]
fn new_image_is_black() {
    let img = RgbImage::new(3, 2);
    assert_eq!(img.width(), 3);
    assert_eq!(img.height(), 2);
    for y in 0..2 {
        for x in 0..3 {
            assert_eq!(img.get_pixel(x, y), Rgb([0, 0, 0]));
        }
    }
}

#[test]
fn put_pixel_changes_one_pixel() {
    let mut img = RgbImage::new(3, 2);
    img.put_pixel(2, 1, Rgb([1, 2, 3]));
    for y in 0..2 {
        for x in 0..3 {
            let want = if (x, y) == (2, 1) { Rgb([1, 2, 3]) } else { Rgb([0, 0, 0]) };
            assert_eq!(img.get_pixel(x, y), want);
        }
    }
}

#[test]
fn flip_horizontal_mirrors_rows() {
    let img = RgbImage::from_fn(3, 2, |x, y| Rgb([x as u8, y as u8, 0]));
    let flipped = img.flip_horizontal();
    assert_eq!(flipped.width(), 3);
    assert_eq!(flipped.height(), 2);
    for y in 0..2 {
        for x in 0..3 {
            assert_eq!(flipped.get_pixel(x, y), Rgb([(2 - x) as u8, y as u8, 0]));
        }
    }
}

#[test]
fn replace_lays_an_image_over_another() {
    let mut under = RgbImage::new(4, 3);
    let top = RgbImage::from_pixel(2, 2, Rgb([9, 9, 9])).unwrap();
    under.replace(&top, 1, 1);
    for y in 0..3 {
        for x in 0..4 {
            let covered = (1..3).contains(&x) && (1..3).contains(&y);
            let want = if covered { Rgb([9, 9, 9]) } else { Rgb([0, 0, 0]) };
            assert_eq!(under.get_pixel(x, y), want);
        }
    }
}

#[test]
fn replace_leaves_out_what_falls_outside() {
    let mut under = RgbImage::new(2, 2);
    let top = RgbImage::from_pixel(2, 2, Rgb([5, 5, 5])).unwrap();
    under.replace(&top, 1, 1);
    assert_eq!(under.get_pixel(1, 1), Rgb([5, 5, 5]));
    assert_eq!(under.get_pixel(0, 0), Rgb([0, 0, 0]));
    assert_eq!(under.get_pixel(1, 0), Rgb([0, 0, 0]));
    assert_eq!(under.get_pixel(0, 1), Rgb([0, 0, 0]));
    under.replace(&top, 2, 0);
    assert_eq!(under.get_pixel(1, 0), Rgb([0, 0, 0]));
}

#[test]
fn clone_keeps_the_pixels() {
    let img = RgbImage::from_fn(2, 2, |x, y| Rgb([x as u8, y as u8, 3]));
    let copy = img.clone();
    for y in 0..2 {
        for x in 0..2 {
            assert_eq!(copy.get_pixel(x, y), img.get_pixel(x, y));
        }
    }
}
