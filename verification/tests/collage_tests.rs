use rustify::collage::ColorBucket;
use rustify::collage::classify_image;
use rustify::collage::compute_grid;
use rustify::collage::create_collage;
use rustify::collage::diagonal_positions;
use rustify::collage::overlay;
use rustify::collage::resize_nearest;
use rustify::collage::shifted_hue;
use rustify::collage::sort_by_display_hue;
use rustify::color_analysis::Hue;
use rustify::color_analysis::calculate_black_percentage;
use rustify::color_analysis::calculate_desaturation_percentage;
use rustify::color_analysis::calculate_dominant_hue;
use rustify::color_analysis::calculate_white_percentage;
use rustify::color_analysis::count_visible_pixels;
use rustify::image_io::decode_raster;
use rustify::image_io::encode_collage_png;
use rustify::raster::Raster;

/// Builds a raster from a list of RGBA pixels, row-major.
fn raster(w: u32, h: u32, px: &[(u8, u8, u8, u8)]) -> Raster {
    assert_eq!(px.len(), (w * h) as usize);
    let mut bytes = Vec::new();
    for p in px {
        bytes.push(p.0);
        bytes.push(p.1);
        bytes.push(p.2);
        bytes.push(p.3);
    }
    Raster::new(w, h, bytes).expect("well-formed raster")
}

/// A raster whose pixels repeat one color.
fn solid(w: u32, h: u32, p: (u8, u8, u8, u8)) -> Raster {
    let px: Vec<(u8, u8, u8, u8)> = (0..w * h).map(|_| p).collect();
    raster(w, h, &px)
}

/// A 10x10 raster with `k` pixels of color `a` and the rest of `b`.
fn mixed(k: usize, a: (u8, u8, u8, u8), b: (u8, u8, u8, u8)) -> Raster {
    let px: Vec<(u8, u8, u8, u8)> = (0..100).map(|i| if i < k { a } else { b }).collect();
    raster(10, 10, &px)
}

#[test]
fn classify_seventy_percent_dark_pixels_is_black() {
    let img = mixed(70, (10, 10, 10, 255), (200, 0, 0, 255));
    assert_eq!(calculate_black_percentage(&img), 70);
    assert_eq!(classify_image(&img), ColorBucket::Black);
}

#[test]
fn classify_white_beats_desaturated() {
    // 65% near-white pixels are also desaturated; white wins.
    let img = mixed(65, (240, 240, 240, 255), (200, 0, 0, 255));
    assert_eq!(calculate_white_percentage(&img), 65);
    assert!(calculate_desaturation_percentage(&img) >= 65);
    assert_eq!(classify_image(&img), ColorBucket::White);
}

#[test]
fn classify_no_majority_is_colored() {
    let img = mixed(50, (240, 240, 240, 255), (200, 0, 0, 255));
    assert_eq!(classify_image(&img), ColorBucket::Colored);
}

#[test]
fn classify_gray_image_is_desaturated() {
    let img = solid(10, 10, (128, 128, 128, 255));
    assert_eq!(calculate_desaturation_percentage(&img), 100);
    assert_eq!(classify_image(&img), ColorBucket::Desaturated);
}

#[test]
fn transparent_pixels_do_not_count() {
    // All pixels are dark, but invisible: the fractions are over an
    // empty population and no bucket threshold is met.
    let img = solid(10, 10, (10, 10, 10, 0));
    assert_eq!(calculate_black_percentage(&img), 0);
    assert_eq!(count_visible_pixels(&img), 0);
    assert_eq!(classify_image(&img), ColorBucket::Colored);
}

#[test]
fn classification_fractions_are_over_visible_pixels() {
    // 30 visible near-black pixels among 70 transparent ones: every
    // visible pixel is near-black, so the image is Black even though
    // under 60% of all pixels qualify.
    let img = mixed(30, (10, 10, 10, 255), (0, 0, 0, 0));
    assert_eq!(count_visible_pixels(&img), 30);
    assert_eq!(calculate_black_percentage(&img), 30);
    assert_eq!(classify_image(&img), ColorBucket::Black);
}

#[test]
fn white_priority_holds_over_visible_pixels() {
    // Of 40 visible pixels, 26 (65%) are near-white; the other 60
    // pixels are transparent.
    let px: Vec<(u8, u8, u8, u8)> = (0..100)
        .map(|i| {
            if i < 26 {
                (240, 240, 240, 255)
            } else if i < 40 {
                (200, 0, 0, 255)
            } else {
                (0, 0, 0, 0)
            }
        })
        .collect();
    let img = raster(10, 10, &px);
    assert_eq!(count_visible_pixels(&img), 40);
    assert_eq!(calculate_white_percentage(&img), 26);
    assert_eq!(classify_image(&img), ColorBucket::White);
}

/// One-pixel rasters with exactly known hues.
fn hue10() -> Raster {
    solid(1, 1, (240, 40, 0, 255))
}

fn hue180() -> Raster {
    solid(1, 1, (0, 240, 240, 255))
}

fn hue350() -> Raster {
    solid(1, 1, (240, 0, 40, 255))
}

fn hue_of(img: &Raster) -> (u64, u64) {
    let h = calculate_dominant_hue(img);
    (h.num, h.den)
}

#[test]
fn dominant_hue_is_exact() {
    let (n, d) = hue_of(&hue10());
    assert_eq!(n, 10 * d);
    let (n, d) = hue_of(&hue180());
    assert_eq!(n, 180 * d);
    let (n, d) = hue_of(&hue350());
    assert_eq!(n, 350 * d);
}

#[test]
fn dominant_hue_of_gray_image_is_zero_weight() {
    let h = calculate_dominant_hue(&solid(2, 2, (77, 77, 77, 255)));
    assert_eq!(h.den, 0);
    assert_eq!(h.num, 0);
}

fn display_degrees(img: &Raster, shift: u32) -> u64 {
    let h = calculate_dominant_hue(img);
    let d: Hue = shifted_hue(&h, shift);
    assert!(d.den >= 1);
    assert_eq!(d.num % d.den, 0, "test hues are whole degrees");
    d.num / d.den
}

#[test]
fn hue_shift_rotates_display_hue() {
    assert_eq!(display_degrees(&hue10(), 0), 10);
    assert_eq!(display_degrees(&hue180(), 0), 180);
    assert_eq!(display_degrees(&hue350(), 0), 350);
    assert_eq!(display_degrees(&hue10(), 20), 30);
    assert_eq!(display_degrees(&hue180(), 20), 200);
    assert_eq!(display_degrees(&hue350(), 20), 10);
}

fn sort_hues(imgs: Vec<Raster>, shift: u32) -> Vec<(u8, u8, u8, u8)> {
    let pairs: Vec<(Raster, Hue)> = imgs
        .into_iter()
        .map(|img| {
            let h = calculate_dominant_hue(&img);
            let dh = shifted_hue(&h, shift);
            (img, dh)
        })
        .collect();
    let sorted = sort_by_display_hue(pairs);
    sorted.iter().map(|p| p.0.pixel(0, 0)).collect()
}

#[test]
fn hue_sort_without_shift() {
    let order = sort_hues(vec![hue350(), hue10(), hue180()], 0);
    // Ascending display hue: 10, 180, 350.
    assert_eq!(order[0], (240, 40, 0, 255));
    assert_eq!(order[1], (0, 240, 240, 255));
    assert_eq!(order[2], (240, 0, 40, 255));
}

#[test]
fn hue_sort_with_twenty_degree_shift() {
    let order = sort_hues(vec![hue350(), hue10(), hue180()], 20);
    // Display hues become 10 (from 350), 30 (from 10), 200 (from 180).
    assert_eq!(order[0], (240, 0, 40, 255));
    assert_eq!(order[1], (240, 40, 0, 255));
    assert_eq!(order[2], (0, 240, 240, 255));
}

#[test]
fn grid_for_seven_images_at_sixteen_nine() {
    // Aspect 2.0 (2 rows x 4 cols) beats 1.0 (3 x 3) for a ~1.78 target.
    let (rows, cols) = compute_grid(7, 1920, 1080);
    assert_eq!((rows, cols), (2, 4));
    let (rows, cols) = compute_grid(7, 16, 9);
    assert_eq!((rows, cols), (2, 4));
}

#[test]
fn grid_for_one_image() {
    assert_eq!(compute_grid(1, 1920, 1080), (1, 1));
}

#[test]
fn grid_for_square_target() {
    assert_eq!(compute_grid(4, 100, 100), (2, 2));
}

#[test]
fn diagonal_order_two_by_two() {
    // Cells are (col, row): diagonal 0 gives (0,0); diagonal 1 gives
    // row 0 then row 1; diagonal 2 gives (1,1).
    let ps = diagonal_positions(2, 2);
    assert_eq!(ps, vec![(0, 0), (1, 0), (0, 1), (1, 1)]);
}

#[test]
fn diagonal_order_covers_rectangular_grid() {
    let ps = diagonal_positions(2, 3);
    assert_eq!(ps, vec![(0, 0), (1, 0), (0, 1), (2, 0), (1, 1), (2, 1)]);
}

#[test]
fn resize_nearest_doubles_pixels() {
    let src = raster(
        2,
        2,
        &[
            (1, 0, 0, 255),
            (0, 2, 0, 255),
            (0, 0, 3, 255),
            (4, 4, 4, 255),
        ],
    );
    let dst = resize_nearest(&src, 4, 4);
    assert_eq!(dst.width(), 4);
    assert_eq!(dst.height(), 4);
    assert_eq!(dst.pixel(0, 0), (1, 0, 0, 255));
    assert_eq!(dst.pixel(1, 1), (1, 0, 0, 255));
    assert_eq!(dst.pixel(3, 0), (0, 2, 0, 255));
    assert_eq!(dst.pixel(0, 3), (0, 0, 3, 255));
    assert_eq!(dst.pixel(3, 3), (4, 4, 4, 255));
}

#[test]
fn overlay_over_transparent_canvas_keeps_source_color() {
    let mut canvas = Raster::blank(2, 1).expect("canvas");
    let tile = solid(1, 1, (100, 50, 20, 128));
    overlay(&mut canvas, &tile, 0, 0);
    // The canvas carries no weight: the tile's color survives with its
    // own alpha.
    assert_eq!(canvas.pixel(0, 0), (100, 50, 20, 128));
    assert_eq!(canvas.pixel(1, 0), (0, 0, 0, 0));
}

#[test]
fn overlay_blends_source_over_opaque_canvas() {
    let mut canvas = Raster::blank(1, 1).expect("canvas");
    canvas.set_pixel(0, 0, (0, 0, 0, 255));
    let tile = solid(1, 1, (100, 50, 20, 128));
    overlay(&mut canvas, &tile, 0, 0);
    // Weighted average of source (weight 128*255) and destination
    // (weight 255*127), rounded to nearest; the result is opaque.
    assert_eq!(canvas.pixel(0, 0), (50, 25, 10, 255));
}

#[test]
fn overlay_opaque_tile_overwrites() {
    let mut canvas = Raster::blank(1, 1).expect("canvas");
    let tile = solid(1, 1, (200, 100, 30, 255));
    overlay(&mut canvas, &tile, 0, 0);
    assert_eq!(canvas.pixel(0, 0), (200, 100, 30, 255));
}

#[test]
fn collage_of_nothing_fails() {
    assert!(create_collage(Vec::new(), 100, 100, 0).is_none());
}

#[test]
fn collage_of_one_image_fills_the_canvas() {
    let img = solid(2, 2, (200, 0, 0, 255));
    let c = create_collage(vec![img], 100, 80, 0).expect("collage");
    // One image: a 1x1 grid with square tiles of min(100, 80).
    assert_eq!(c.width(), 80);
    assert_eq!(c.height(), 80);
    assert_eq!(c.pixel(0, 0), (200, 0, 0, 255));
    assert_eq!(c.pixel(79, 79), (200, 0, 0, 255));
}

#[test]
fn collage_orders_buckets_along_diagonals() {
    let red = solid(1, 1, (200, 0, 0, 255));
    let white = solid(1, 1, (240, 240, 240, 255));
    let gray = solid(1, 1, (128, 128, 128, 255));
    let black = solid(1, 1, (10, 10, 10, 255));
    // Input deliberately shuffled; the collage re-orders it.
    let c = create_collage(vec![black, gray, white, red], 100, 100, 0).expect("collage");
    assert_eq!(c.width(), 100);
    assert_eq!(c.height(), 100);
    // 2x2 grid, tile 50, diagonal fill: colored, white, desaturated,
    // black at (0,0), (1,0), (0,1), (1,1).
    assert_eq!(c.pixel(10, 10), (200, 0, 0, 255));
    assert_eq!(c.pixel(60, 10), (240, 240, 240, 255));
    assert_eq!(c.pixel(10, 60), (128, 128, 128, 255));
    assert_eq!(c.pixel(60, 60), (10, 10, 10, 255));
}

#[test]
fn collage_of_seven_images_picks_the_sixteen_nine_grid() {
    let images: Vec<Raster> = (0..7).map(|_| solid(1, 1, (200, 0, 0, 255))).collect();
    let c = create_collage(images, 1920, 1080, 0).expect("collage");
    // 2 rows x 4 cols, tile = min(1920/4, 1080/2) = 480.
    assert_eq!(c.width(), 1920);
    assert_eq!(c.height(), 960);
}

#[test]
fn collage_drops_nothing_within_grid_capacity() {
    // Three images on a 2x2 grid: the unused cell stays transparent.
    let images = vec![
        solid(1, 1, (200, 0, 0, 255)),
        solid(1, 1, (0, 200, 0, 255)),
        solid(1, 1, (0, 0, 200, 255)),
    ];
    let c = create_collage(images, 100, 100, 0).expect("collage");
    assert_eq!(c.pixel(25, 25).3, 255);
    assert_eq!(c.pixel(75, 25).3, 255);
    assert_eq!(c.pixel(25, 75).3, 255);
    assert_eq!(c.pixel(75, 75), (0, 0, 0, 0));
}

#[test]
fn decode_raster_reads_ppm_bytes() {
    let mut bytes: Vec<u8> = b"P6\n2 2\n255\n".to_vec();
    bytes.extend_from_slice(&[
        255, 0, 0, 0, 255, 0, 0, 0, 255, 250, 250, 250,
    ]);
    let img = decode_raster(&bytes).expect("decodes");
    assert_eq!(img.width(), 2);
    assert_eq!(img.height(), 2);
    assert_eq!(img.pixel(0, 0), (255, 0, 0, 255));
    assert_eq!(img.pixel(1, 0), (0, 255, 0, 255));
    assert_eq!(img.pixel(0, 1), (0, 0, 255, 255));
    assert_eq!(img.pixel(1, 1), (250, 250, 250, 255));
}

#[test]
fn decode_raster_rejects_garbage() {
    assert!(decode_raster(b"not an image at all").is_none());
}

#[test]
fn png_encoding_round_trips() {
    let img = raster(2, 1, &[(1, 2, 3, 255), (4, 5, 6, 255)]);
    let png = encode_collage_png(&img).expect("encodes");
    assert_ne!(png.len(), 8); // a real PNG stream, not the raw pixels
    let back = decode_raster(&png).expect("decodes");
    assert_eq!(back.width(), 2);
    assert_eq!(back.height(), 1);
    assert_eq!(back.pixel(0, 0), (1, 2, 3, 255));
    assert_eq!(back.pixel(1, 0), (4, 5, 6, 255));
}

#[test]
fn blank_raster_is_transparent() {
    let img = Raster::blank(3, 2).expect("blank");
    assert_eq!(img.width(), 3);
    assert_eq!(img.height(), 2);
    assert_eq!(img.pixel(2, 1), (0, 0, 0, 0));
}

#[test]
fn set_pixel_reads_back() {
    let mut img = Raster::blank(2, 2).expect("blank");
    img.set_pixel(1, 0, (9, 8, 7, 6));
    assert_eq!(img.pixel(1, 0), (9, 8, 7, 6));
    assert_eq!(img.pixel(0, 0), (0, 0, 0, 0));
}
