use raytracer::raster::{
    add_buildings, draw_rectangle, footprint_fits, grid_to_pixels, pixel_at, set_pixel,
    Footprint, FOOTPRINT_RGB,
};

#[test]
fn set_pixel_flips_rows() {
    let mut pixels = vec![0u8; 3 * 4 * 4];
    set_pixel(&mut pixels, 4, 3, 1, 0, (1, 2, 3));
    // image row 0 is buffer row 3
    assert_eq!(&pixels[3 * (1 + 3 * 4)..3 * (1 + 3 * 4) + 3], &[1, 2, 3]);
    assert_eq!(pixels.iter().filter(|b| **b != 0).count(), 3);
}

#[test]
fn draw_rectangle_paints_exactly_the_rectangle() {
    let (w, h) = (8usize, 6usize);
    let mut pixels = vec![0u8; (w + 1) * (h + 1) * 3];
    draw_rectangle(&mut pixels, w, h, 1, 2, 3, 2);
    let mut painted = 0;
    for row in 0..(h + 1) {
        for col in 0..w {
            let b = 3 * (col + row * w);
            let image_y = h as i64 - row as i64;
            let inside = (2..4).contains(&col) && (0..4).contains(&image_y);
            if inside {
                assert_eq!(&pixels[b..b + 3], &[255, 0, 0]);
                painted += 1;
            } else {
                assert_eq!(&pixels[b..b + 3], &[0, 0, 0]);
            }
        }
    }
    assert_eq!(painted, 8);
}

#[test]
fn zero_sided_rectangle_draws_nothing() {
    let mut pixels = vec![7u8; 60];
    draw_rectangle(&mut pixels, 4, 3, 0, 2, 1, 2);
    assert!(pixels.iter().all(|b| *b == 7));
}

#[test]
fn footprint_fit_checks() {
    let len = 9 * 7 * 3;
    assert!(footprint_fits(&Footprint { side_x: 1, side_y: 2, origin_x: 3, origin_y: 2 }, len, 8, 6));
    // would start left of column 0
    assert!(!footprint_fits(&Footprint { side_x: 4, side_y: 1, origin_x: 3, origin_y: 2 }, len, 8, 6));
    // would reach past the top of the image
    assert!(!footprint_fits(&Footprint { side_x: 1, side_y: 3, origin_x: 3, origin_y: 5 }, len, 8, 6));
    // would end past the buffer
    assert!(!footprint_fits(&Footprint { side_x: 1, side_y: 1, origin_x: 3, origin_y: 1 }, 20, 8, 6));
    assert!(footprint_fits(&Footprint { side_x: 0, side_y: 9, origin_x: 0, origin_y: 9 }, 0, 8, 6));
}

#[test]
fn add_buildings_draws_every_footprint() {
    let (w, h) = (8usize, 6usize);
    let mut pixels = vec![0u8; (w + 1) * (h + 1) * 3];
    let footprints = vec![
        Footprint { side_x: 1, side_y: 1, origin_x: 1, origin_y: 1 },
        Footprint { side_x: 1, side_y: 1, origin_x: 6, origin_y: 4 },
    ];
    add_buildings(&footprints, &mut pixels, w, h);
    let red = |x: usize, y: usize| {
        let b = 3 * (x + (h - y) * w);
        pixels[b..b + 3] == [255, 0, 0]
    };
    assert!(red(0, 0) && red(1, 0) && red(0, 1) && red(1, 1));
    assert!(red(5, 3) && red(6, 3) && red(5, 4) && red(6, 4));
    assert!(!red(2, 2) && !red(4, 4) && !red(7, 5));
    assert_eq!(pixels.iter().filter(|b| **b == 255).count(), 8);
    assert_eq!(FOOTPRINT_RGB, (255, 0, 0));
}

#[test]
fn grid_to_pixels_lays_out_rows_bottom_up() {
    let (w, h) = (3usize, 2usize);
    let colors: Vec<(u8, u8, u8)> = (0..((w + 1) * (h + 1)) as u8).map(|i| (i, i + 100, i + 200)).collect();
    let mut pixels = vec![9u8; (w + 1) * (h + 1) * 3];
    grid_to_pixels(&colors, &mut pixels, w, h);
    // buffer row 0 untouched
    assert_eq!(&pixels[0..9], &[9; 9]);
    // buffer row 2 holds grid row 0
    assert_eq!(&pixels[18..27], &[0, 100, 200, 1, 101, 201, 2, 102, 202]);
    // buffer row 1 holds grid row 1
    assert_eq!(&pixels[9..18], &[3, 103, 203, 4, 104, 204, 5, 105, 205]);
    assert!(pixels[27..].iter().all(|b| *b == 9));
}

#[test]
fn pixel_at_reads_one_pixel() {
    let pixels: Vec<u8> = (0..24).collect();
    assert_eq!(pixel_at(&pixels, 4, 1, 1), (15, 16, 17));
    assert_eq!(pixel_at(&pixels, 4, 0, 0), (0, 1, 2));
}
