use emosaic::color::Rgb;
use emosaic::color::RgbImage;
use emosaic::tiles::prepare::find_margins;
use emosaic::tiles::prepare::first_dark_column;
use emosaic::tiles::prepare::first_dark_row;
use emosaic::tiles::prepare::frame;
use emosaic::tiles::prepare::is_white_pixel;
use emosaic::tiles::prepare::last_dark_column;
use emosaic::tiles::prepare::last_dark_row;
use emosaic::tiles::prepare::prepare_image;
use emosaic::tiles::prepare::rotate;
use emosaic::tiles::prepare::Frame;
use emosaic::tiles::prepare::Margins;
use emosaic::tiles::prepare::PrepareError;

const WHITE: Rgb = Rgb([255, 255, 255]);
const DARK: Rgb = Rgb([10, 20, 30]);

/// A white picture of 8 by 6 pixels with a dark block in columns 2 to 5 of rows 1 to 4.
fn framed_picture() -> RgbImage {
    RgbImage::from_fn(8, 6, |x, y| if (2..=5).contains(&x) && (1..=4).contains(&y) { DARK } else { WHITE })
}

fn numbered(width: u32, height: u32) -> RgbImage {
    RgbImage::from_fn(width, height, |x, y| Rgb([x as u8, y as u8, 0]))
}

#[test]
fn white_is_above_240_on_every_channel() {
    assert!(is_white_pixel(Rgb([241, 241, 241])));
    assert!(is_white_pixel(WHITE));
    assert!(!is_white_pixel(Rgb([240, 255, 255])));
    assert!(!is_white_pixel(Rgb([255, 240, 255])));
    assert!(!is_white_pixel(Rgb([255, 255, 240])));
}

#[test]
fn dark_pixels_are_found_from_both_ends() {
    let img = framed_picture();
    assert_eq!(first_dark_column(&img, 0), 8);
    assert_eq!(last_dark_column(&img, 0, 8), 0);
    assert_eq!(first_dark_column(&img, 1), 2);
    assert_eq!(last_dark_column(&img, 1, 2), 5);
    assert_eq!(last_dark_column(&img, 1, 6), 0);
    assert_eq!(first_dark_row(&img, 0), 6);
    assert_eq!(last_dark_row(&img, 0, 6), 0);
    assert_eq!(first_dark_row(&img, 3), 1);
    assert_eq!(last_dark_row(&img, 3, 1), 4);
}

#[test]
fn margins_of_a_framed_picture() {
    let margins = find_margins(&framed_picture());
    assert_eq!(margins, Margins { left: 2, right: 5, top: 1, bottom: 4 });
}

#[test]
fn margins_go_by_the_most_common() {
    // three rows begin in column 1, one row begins in column 3
    let img = RgbImage::from_fn(6, 4, |x, y| {
        let first = if y == 0 { 3 } else { 1 };
        if x >= first && x <= 4 { DARK } else { WHITE }
    });
    let margins = find_margins(&img);
    assert_eq!(margins.left, 1);
    assert_eq!(margins.right, 4);
}

#[test]
fn margins_of_a_white_picture_leave_nothing() {
    let img = RgbImage::from_pixel(4, 4, WHITE).unwrap();
    let margins = find_margins(&img);
    assert_eq!(margins, Margins { left: 0, right: 0, top: 0, bottom: 0 });
    assert_eq!(frame(&margins, false), None);
    assert_eq!(prepare_image(&img, 2, false, 1).err(), Some(PrepareError::NoContent));
}

#[test]
fn frame_of_the_margins() {
    let margins = Margins { left: 2, right: 12, top: 1, bottom: 5 };
    assert_eq!(frame(&margins, false), Some(Frame { left: 2, top: 1, width: 10, height: 4 }));
    // the largest square in a frame of 10 by 4, counted from the corner
    assert_eq!(frame(&margins, true), Some(Frame { left: 3, top: 0, width: 4, height: 4 }));
    let margins = Margins { left: 0, right: 3, top: 0, bottom: 8 };
    assert_eq!(frame(&margins, true), Some(Frame { left: 0, top: 2, width: 3, height: 3 }));
    assert_eq!(frame(&Margins { left: 5, right: 5, top: 0, bottom: 8 }, true), None);
    assert_eq!(frame(&Margins { left: 0, right: 5, top: 9, bottom: 8 }, false), None);
}

#[test]
fn rotate_turns_as_the_orientation_says() {
    // a b c
    // d e f
    let img = numbered(3, 2);
    let at = |img: &RgbImage, x: u32, y: u32| (img.get_pixel(x, y).0[0], img.get_pixel(x, y).0[1]);

    let same = rotate(img.clone(), 1);
    assert_eq!((same.width(), same.height()), (3, 2));
    assert_eq!(at(&same, 2, 1), (2, 1));
    let same = rotate(img.clone(), 0);
    assert_eq!(at(&same, 0, 1), (0, 1));
    let same = rotate(img.clone(), 9);
    assert_eq!(at(&same, 1, 0), (1, 0));

    let mirrored = rotate(img.clone(), 2);
    assert_eq!((mirrored.width(), mirrored.height()), (3, 2));
    assert_eq!(at(&mirrored, 0, 0), (2, 0));
    assert_eq!(at(&mirrored, 2, 1), (0, 1));

    let half = rotate(img.clone(), 3);
    assert_eq!(at(&half, 0, 0), (2, 1));
    assert_eq!(at(&half, 2, 1), (0, 0));
    assert_eq!(at(&half, 1, 0), (1, 1));

    let down = rotate(img.clone(), 4);
    assert_eq!(at(&down, 0, 0), (0, 1));
    assert_eq!(at(&down, 2, 1), (2, 0));

    let transposed = rotate(img.clone(), 5);
    assert_eq!((transposed.width(), transposed.height()), (2, 3));
    assert_eq!(at(&transposed, 0, 0), (0, 0));
    assert_eq!(at(&transposed, 1, 0), (0, 1));
    assert_eq!(at(&transposed, 0, 2), (2, 0));

    let quarter = rotate(img.clone(), 6);
    assert_eq!((quarter.width(), quarter.height()), (2, 3));
    // the bottom left corner comes to the top left
    assert_eq!(at(&quarter, 0, 0), (0, 1));
    assert_eq!(at(&quarter, 1, 0), (0, 0));
    assert_eq!(at(&quarter, 1, 2), (2, 0));

    let anti = rotate(img.clone(), 7);
    assert_eq!((anti.width(), anti.height()), (2, 3));
    assert_eq!(at(&anti, 0, 0), (2, 1));
    assert_eq!(at(&anti, 1, 2), (0, 0));

    let back = rotate(img, 8);
    assert_eq!((back.width(), back.height()), (2, 3));
    // the top right corner comes to the top left
    assert_eq!(at(&back, 0, 0), (2, 0));
    assert_eq!(at(&back, 0, 2), (0, 0));
    assert_eq!(at(&back, 1, 0), (2, 1));
}

#[test]
fn crop_takes_a_part() {
    let part = numbered(5, 4).crop(1, 2, 3, 2);
    assert_eq!((part.width(), part.height()), (3, 2));
    assert_eq!(part.get_pixel(0, 0), Rgb([1, 2, 0]));
    assert_eq!(part.get_pixel(2, 1), Rgb([3, 3, 0]));
}

#[test]
fn resize_gives_the_size_asked_for() {
    let img = RgbImage::from_pixel(6, 4, Rgb([9, 8, 7])).unwrap();
    let resized = img.resize(3, 5).unwrap();
    assert_eq!((resized.width(), resized.height()), (3, 5));
    // an image of one colour stays of that colour
    for y in 0..5 {
        for x in 0..3 {
            assert_eq!(resized.get_pixel(x, y), Rgb([9, 8, 7]));
        }
    }
    assert_eq!(img.resize(6, 4).unwrap().get_pixel(5, 3), Rgb([9, 8, 7]));
    assert!(img.resize(0, 4).is_none());
    assert!(RgbImage::new(0, 4).resize(2, 2).is_none());
}

#[test]
fn resize_resamples_the_pixels() {
    // left half black, right half white: the resized image is not the source
    let img = RgbImage::from_fn(8, 8, |x, _y| if x < 4 { Rgb([0, 0, 0]) } else { WHITE });
    let resized = img.resize(2, 2).unwrap();
    assert!(resized.get_pixel(0, 0).0[0] < 64);
    assert!(resized.get_pixel(1, 1).0[0] > 192);
}

#[test]
fn prepare_image_makes_a_tile_of_the_size_asked_for() {
    let prepared = prepare_image(&framed_picture(), 2, false, 1).unwrap();
    assert_eq!((prepared.width(), prepared.height()), (2, 2));
    // the dark block is all that is left
    assert_eq!(prepared.get_pixel(0, 0), DARK);
    assert_eq!(prepared.get_pixel(1, 1), DARK);
    let prepared = prepare_image(&framed_picture(), 3, true, 6).unwrap();
    assert_eq!((prepared.width(), prepared.height()), (3, 3));
}

#[test]
fn prepare_image_refuses_small_pictures() {
    assert_eq!(prepare_image(&framed_picture(), 7, false, 1).err(), Some(PrepareError::TooSmall));
    assert_eq!(prepare_image(&framed_picture(), 9, true, 1).err(), Some(PrepareError::TooSmall));
    assert_eq!(prepare_image(&framed_picture(), 0, true, 1).err(), Some(PrepareError::Size));
}
