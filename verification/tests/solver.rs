use string_art::best_candidate;
use string_art::bresenham;
use string_art::lighten_image_with_line;
use string_art::point_to_index;
use string_art::solve;
use string_art::solve_accuracy;
use string_art::Image;
use string_art::ImageDimensions;
use string_art::IntegerPoint;

fn pt(x: i32, y: i32) -> IntegerPoint {
    IntegerPoint { x, y }
}

fn gray_image(width: u32, height: u32, fill: u8) -> Image {
    Image {
        dimensions: ImageDimensions { width, height },
        pixels: vec![fill; (width * height) as usize],
    }
}

fn sample(img: &Image, x: i32, y: i32) -> u8 {
    let w = img.dimensions.width as i32;
    let h = img.dimensions.height as i32;
    img.pixels[((h - 1 - y) * w + x) as usize]
}

fn total_darkness(img: &Image) -> u64 {
    img.pixels.iter().map(|&p| (255 - p) as u64).sum()
}

#[test]
fn lighten_saturates_at_white() {
    let mut img = gray_image(4, 4, 200);
    let line = bresenham(pt(0, 0), pt(3, 0));
    lighten_image_with_line(&mut img, &line, 100);
    for x in 0..4 {
        assert_eq!(sample(&img, x, 0), 255);
    }
    assert_eq!(sample(&img, 0, 1), 200);
}

#[test]
fn lighten_adds_exact_amount() {
    let mut img = gray_image(4, 4, 10);
    let line = bresenham(pt(1, 2), pt(3, 2));
    lighten_image_with_line(&mut img, &line, 16);
    assert_eq!(sample(&img, 0, 2), 10);
    assert_eq!(sample(&img, 1, 2), 26);
    assert_eq!(sample(&img, 2, 2), 26);
    assert_eq!(sample(&img, 3, 2), 26);
}

#[test]
fn lighten_skips_out_of_bounds_points() {
    let mut img = gray_image(4, 4, 10);
    let line = bresenham(pt(2, 2), pt(6, 2));
    lighten_image_with_line(&mut img, &line, 16);
    assert_eq!(sample(&img, 2, 2), 26);
    assert_eq!(sample(&img, 3, 2), 26);
    assert_eq!(img.pixels.iter().filter(|&&p| p == 26).count(), 2);
}

// The deterministic tiny scenario: four pins on a circle of radius 10
// centered at (10, 10); the source is black everywhere except the
// quadrant above and right of the center, which is pure white. With a
// full lighten amount and a one-line budget the optimizer must pick the
// pin pair whose line crosses the most black pixels - the horizontal
// diameter - and leave its pixels fully lightened.
#[test]
fn one_line_budget_picks_the_darkest_line() {
    let mut img = gray_image(21, 21, 0);
    for x in 0..21 {
        for y in 0..21 {
            if x >= 11 && y >= 11 {
                let idx = ((20 - y) * 21 + x) as usize;
                img.pixels[idx] = 255;
            }
        }
    }
    // Pins at angles 0, 90, 180, 270 degrees, rounded to the pixel grid.
    let pins = vec![pt(20, 10), pt(10, 20), pt(0, 10), pt(10, 0)];
    let path = solve(&pins, &mut img, 4, 1, 255);
    assert_eq!(path, vec![0, 2]);
    for x in 0..21 {
        assert_eq!(sample(&img, x, 10), 255, "pixel ({x}, 10) not fully lightened");
    }
}

#[test]
fn zero_budget_returns_trivial_path() {
    let mut img = gray_image(8, 8, 0);
    let pins = vec![pt(0, 0), pt(7, 0), pt(7, 7), pt(0, 7)];
    let before = img.pixels.clone();
    let path = solve(&pins, &mut img, 4, 0, 16);
    assert_eq!(path, vec![0]);
    assert_eq!(img.pixels, before);
}

#[test]
fn all_white_image_halts_immediately() {
    let mut img = gray_image(8, 8, 255);
    let pins = vec![pt(0, 0), pt(7, 0), pt(7, 7), pt(0, 7)];
    let path = solve(&pins, &mut img, 4, 100, 16);
    assert_eq!(path, vec![0]);
}

#[test]
fn total_darkness_never_increases_across_iterations() {
    let mut img = gray_image(16, 16, 0);
    let pins = vec![pt(0, 0), pt(15, 0), pt(15, 15), pt(0, 15), pt(8, 0), pt(0, 8)];
    let before = total_darkness(&img);
    let path = solve(&pins, &mut img, 6, 10, 60);
    assert!(path.len() > 1, "expected at least one accepted line");
    assert!(total_darkness(&img) <= before);
}

#[test]
fn no_line_is_drawn_twice() {
    let mut img = gray_image(16, 16, 0);
    let pins = vec![pt(0, 0), pt(15, 0), pt(15, 15), pt(0, 15), pt(8, 0), pt(0, 8)];
    let n = pins.len();
    let path = solve(&pins, &mut img, n, 40, 200);
    let mut used = Vec::new();
    for w in path.windows(2) {
        assert_ne!(w[0], w[1], "self-loop in path");
        let id = point_to_index(n, w[0], w[1]);
        assert!(!used.contains(&id), "line drawn twice");
        used.push(id);
    }
}

#[test]
fn positive_candidate_beats_lines_off_the_canvas() {
    // Pins 2 and 3 sit outside the canvas; their lines pick up no
    // darkness where they cross white pixels, so the scan must prefer
    // the one line with ink under it.
    let mut img = gray_image(8, 8, 255);
    for x in 0..8 {
        let idx = (7 * 8 + x) as usize;
        img.pixels[idx] = 0;
    }
    let pins = vec![pt(0, 0), pt(7, 0), pt(20, 20), pt(30, 20)];
    let visited = vec![false; 6];
    let (score, next) = best_candidate(&pins, &img, 4, 0, &visited);
    assert_eq!(next, 1);
    assert_eq!(score, 8 * 255);
}

#[test]
fn scan_falls_back_when_no_candidate_scores() {
    let img = gray_image(8, 8, 255);
    let pins = vec![pt(0, 0), pt(7, 0), pt(7, 7), pt(0, 7)];
    let visited = vec![false; 6];
    let (score, next) = best_candidate(&pins, &img, 4, 2, &visited);
    assert_eq!(next, 2);
    assert_eq!(score, 0);
}

#[test]
fn accuracy_mode_follows_the_ink_and_stops_at_the_quality_floor() {
    // Only the bottom line-coordinate row carries ink. The line from pin
    // 0 to pin 1 runs along it (ratio 1); every later candidate falls
    // below the 45/100 floor, so the path stops after one line.
    let mut img = gray_image(8, 8, 255);
    for x in 0..8 {
        let idx = (7 * 8 + x) as usize;
        img.pixels[idx] = 0;
    }
    let pins = vec![pt(0, 0), pt(7, 0), pt(7, 7)];
    let path = solve_accuracy(&pins, &img, 3, 10, 45, 100);
    assert_eq!(path, vec![0, 1]);
}

#[test]
fn accuracy_mode_halts_on_blank_image() {
    let img = gray_image(8, 8, 255);
    let pins = vec![pt(0, 0), pt(7, 0), pt(7, 7), pt(0, 7)];
    let path = solve_accuracy(&pins, &img, 4, 10, 45, 100);
    assert_eq!(path, vec![0]);
}

// Replaying the accepted path's moves in recorded order on a fresh copy
// of the starting image reproduces the optimizer's final image exactly.
#[test]
fn replaying_recorded_path_reproduces_the_image() {
    let source = gray_image(16, 16, 0);
    let pins = vec![pt(0, 0), pt(15, 0), pt(15, 15), pt(0, 15), pt(8, 0), pt(0, 8)];
    let mut solved = source.clone();
    let path = solve(&pins, &mut solved, 6, 10, 60);

    let mut replayed = source.clone();
    for w in path.windows(2) {
        let line = bresenham(pins[w[0]], pins[w[1]]);
        lighten_image_with_line(&mut replayed, &line, 60);
    }
    assert_eq!(replayed.pixels, solved.pixels);
}

#[test]
fn no_pins_yields_the_empty_path() {
    let mut img = gray_image(4, 4, 0);
    let before = img.pixels.clone();
    let pins: Vec<IntegerPoint> = Vec::new();
    let path = solve(&pins, &mut img, 0, 10, 16);
    assert!(path.is_empty());
    assert_eq!(img.pixels, before);
}

#[test]
fn a_single_pin_yields_the_trivial_path() {
    let mut img = gray_image(4, 4, 0);
    let before = img.pixels.clone();
    let pins = vec![pt(2, 2)];
    let path = solve(&pins, &mut img, 1, 10, 16);
    assert_eq!(path, vec![0]);
    assert_eq!(img.pixels, before);
}

#[test]
fn accuracy_mode_with_no_pins_yields_the_empty_path() {
    let img = gray_image(4, 4, 0);
    let pins: Vec<IntegerPoint> = Vec::new();
    let path = solve_accuracy(&pins, &img, 0, 10, 45, 100);
    assert!(path.is_empty());
}
