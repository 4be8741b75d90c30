use string_art::below_quality_threshold;
use string_art::bresenham;
use string_art::get_line_accuracy;
use string_art::get_line_darkness;
use string_art::is_better_candidate;
use string_art::point_to_index;
use string_art::Image;
use string_art::ImageDimensions;
use string_art::IntegerPoint;

fn pt(x: i32, y: i32) -> IntegerPoint {
    IntegerPoint { x, y }
}

fn gray_image(width: u32, height: u32, fill: u8) -> Image {
    Image {
        dimensions: ImageDimensions { width, height },
        pixels: vec![fill; (width * height) as usize],
    }
}

#[test]
fn pair_index_is_symmetric() {
    for n in [2usize, 3, 5, 8, 17] {
        for i in 0..n {
            for j in 0..n {
                if i != j {
                    assert_eq!(point_to_index(n, i, j), point_to_index(n, j, i));
                }
            }
        }
    }
}

#[test]
fn pair_index_is_a_bijection_onto_the_triangular_range() {
    for n in [2usize, 3, 5, 8, 17] {
        let slots = n * (n - 1) / 2;
        let mut seen = vec![false; slots];
        for i in 0..n {
            for j in (i + 1)..n {
                let id = point_to_index(n, i, j);
                assert!(id < slots, "slot out of range for n={n}");
                assert!(!seen[id], "slot reused for n={n}, pair ({i},{j})");
                seen[id] = true;
            }
        }
        assert!(seen.iter().all(|&s| s), "unfilled slot for n={n}");
    }
}

#[test]
fn darkness_of_black_line_is_full() {
    let img = gray_image(10, 10, 0);
    let line = bresenham(pt(0, 0), pt(9, 0));
    assert_eq!(get_line_darkness(&line, &img), 10 * 255);
}

#[test]
fn darkness_of_white_line_is_zero() {
    let img = gray_image(10, 10, 255);
    let line = bresenham(pt(0, 0), pt(9, 9));
    assert_eq!(get_line_darkness(&line, &img), 0);
}

#[test]
fn darkness_reads_the_flipped_row() {
    // Sample (x, y) reads raster row height - 1 - y: darken only raster
    // row 0 and check that only the top line-coordinate row sees it.
    let mut img = gray_image(4, 4, 255);
    for col in 0..4usize {
        img.pixels[col] = 0;
    }
    let top = bresenham(pt(0, 3), pt(3, 3));
    let bottom = bresenham(pt(0, 0), pt(3, 0));
    assert_eq!(get_line_darkness(&top, &img), 4 * 255);
    assert_eq!(get_line_darkness(&bottom, &img), 0);
}

#[test]
fn darkness_of_fully_out_of_bounds_line_is_zero() {
    let img = gray_image(8, 8, 0);
    let line = bresenham(pt(20, 20), pt(30, 25));
    assert_eq!(get_line_darkness(&line, &img), 0);
}

#[test]
fn darkness_skips_out_of_bounds_points_only() {
    let img = gray_image(4, 4, 0);
    // From inside to outside: 4 points land on the canvas, the rest fall off.
    let line = bresenham(pt(0, 1), pt(7, 1));
    assert_eq!(get_line_darkness(&line, &img), 4 * 255);
}

#[test]
fn accuracy_counts_ink_and_blank() {
    let mut img = gray_image(6, 1, 255);
    img.pixels[0] = 0;
    img.pixels[1] = 128;
    let line = bresenham(pt(0, 0), pt(5, 0));
    let (acc, err) = get_line_accuracy(&line, &img);
    assert_eq!(acc, 2);
    assert_eq!(err, 4);
}

#[test]
fn candidate_preference_order() {
    assert!(is_better_candidate(5, 9, 4, 0));
    assert!(!is_better_candidate(4, 0, 5, 9));
    assert!(is_better_candidate(5, 3, 5, 4));
    assert!(!is_better_candidate(5, 4, 5, 4));
}

#[test]
fn quality_threshold_is_strict() {
    // Ratio exactly 0.45 does not fall below the 45/100 floor.
    assert!(!below_quality_threshold(9, 11, 45, 100));
    assert!(below_quality_threshold(8, 12, 45, 100));
    assert!(!below_quality_threshold(10, 10, 45, 100));
    assert!(below_quality_threshold(0, 1, 45, 100));
}
