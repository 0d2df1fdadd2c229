use emosaic::analysis::analyse;
use emosaic::color::Rgb;
use emosaic::color::RgbImage;
use emosaic::error::RenderError;
use emosaic::rendering::render_nto1;
use emosaic::rendering::render_nto1_no_repeat;
use emosaic::tiles::utils::grid_side;
use emosaic::tiles::TileSet;

fn pixels(img: &RgbImage) -> Vec<Rgb> {
    let mut all = Vec::new();
    for y in 0..img.height() {
        for x in 0..img.width() {
            all.push(img.get_pixel(x, y));
        }
    }
    all
}

fn gen_test_analyse_tiles_consistency<const N: usize, const K: usize>() {
    let black = Rgb([0, 0, 0]);
    let white = Rgb([255, 255, 255]);
    let dim = grid_side(N) as u32;
    // generate all the possible black&white tiles of dim*dim size
    let pow = 2u32.pow(N as u32) - 1;
    let universe: Vec<_> = (0..pow)
        .map(|index| {
            // translate the index to binary (base 2)
            let bits: Vec<bool> = (0..N).map(|i| (index & (1 << i)) != 0).rev().collect();
            RgbImage::from_fn(dim, dim, |x, y| if bits[(y * dim + x) as usize] { white } else { black })
        })
        .collect();

    // for any image from this universe, the mosaic image should contain only one tile and be an exact match
    let mut tile_set: TileSet<[Rgb; N]> = TileSet::new();
    for img in universe.iter() {
        tile_set.push_tile_with_image(String::new(), analyse::<N>(img.clone()), img.clone());
    }
    assert_eq!(tile_set.len(), universe.len());

    for img in universe.iter() {
        let rendered_img = render_nto1::<N, K>(img, tile_set.clone(), dim, false, None).unwrap();
        assert_eq!(pixels(&rendered_img.image), pixels(img));
        let rendered_img = render_nto1_no_repeat::<N, K>(img, tile_set.clone(), dim).unwrap();
        assert_eq!(pixels(&rendered_img.image), pixels(img));
    }

    // for any image built from tiles from this universe without duplicates, the mosaic image should be an exact match
    for tiles in universe.chunks(2) {
        let mut img = RgbImage::new(dim, 2 * dim);
        for (i, tile) in tiles.iter().enumerate() {
            img.replace(tile, 0, i as u32 * dim);
        }
        let rendered_img = render_nto1::<N, K>(&img, tile_set.clone(), dim, false, None).unwrap();
        assert_eq!(pixels(&rendered_img.image), pixels(&img));
        match render_nto1_no_repeat::<N, K>(&img, tile_set.clone(), dim) {
            Ok(rendered_img) => assert_eq!(pixels(&rendered_img.image), pixels(&img)),
            // two cells cannot share the one tile of the smallest universe
            Err(error) => {
                assert_eq!(error, RenderError::Exhausted);
                assert!(tile_set.len() < 2);
            }
        }
    }
}

#[test]
fn test_analyse_tiles_consistency_1() {
    gen_test_analyse_tiles_consistency::<1, 3>();
}

#[test]
fn test_analyse_tiles_consistency_4() {
    gen_test_analyse_tiles_consistency::<4, 12>();
}

#[test]
fn test_analyse_tiles_consistency_9() {
    gen_test_analyse_tiles_consistency::<9, 27>();
}
