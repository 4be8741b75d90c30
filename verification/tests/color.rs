use string_art::blend_image_with_line;
use string_art::bresenham;
use string_art::get_line_error_reduction;
use string_art::solve_multicolor;
use string_art::ColorImage;
use string_art::ImageDimensions;
use string_art::IntegerPoint;
use string_art::Rgb;

fn pt(x: i32, y: i32) -> IntegerPoint {
    IntegerPoint { x, y }
}

fn rgb(r: u8, g: u8, b: u8) -> Rgb {
    Rgb { r, g, b }
}

fn color_image(width: u32, height: u32, fill: Rgb) -> ColorImage {
    ColorImage {
        dimensions: ImageDimensions { width, height },
        pixels: vec![fill; (width * height) as usize],
    }
}

const BLACK: Rgb = Rgb { r: 0, g: 0, b: 0 };
const WHITE: Rgb = Rgb { r: 255, g: 255, b: 255 };

#[test]
fn full_opacity_stroke_replaces_the_sample() {
    let mut canvas = color_image(4, 1, WHITE);
    let line = bresenham(pt(1, 0), pt(2, 0));
    blend_image_with_line(&mut canvas, &line, BLACK, 255);
    assert_eq!(canvas.pixels[0], WHITE);
    assert_eq!(canvas.pixels[1], BLACK);
    assert_eq!(canvas.pixels[2], BLACK);
    assert_eq!(canvas.pixels[3], WHITE);
}

#[test]
fn half_opacity_stroke_blends_and_rounds() {
    let mut canvas = color_image(1, 1, rgb(100, 100, 100));
    let line = bresenham(pt(0, 0), pt(0, 0));
    blend_image_with_line(&mut canvas, &line, rgb(200, 200, 200), 128);
    // round(100 * 127/255 + 200 * 128/255) = round(150.196...) = 150
    assert_eq!(canvas.pixels[0], rgb(150, 150, 150));
}

#[test]
fn zero_opacity_stroke_changes_nothing() {
    let mut canvas = color_image(3, 3, rgb(10, 20, 30));
    let before = canvas.pixels.clone();
    let line = bresenham(pt(0, 0), pt(2, 2));
    blend_image_with_line(&mut canvas, &line, WHITE, 0);
    assert_eq!(canvas.pixels, before);
}

#[test]
fn stroke_order_changes_the_canvas() {
    // Replaying moves out of order does not reproduce the canvas in
    // general: black-then-red differs from red-then-black.
    let line = bresenham(pt(0, 0), pt(0, 0));
    let red = rgb(255, 0, 0);

    let mut first = color_image(1, 1, WHITE);
    blend_image_with_line(&mut first, &line, BLACK, 128);
    blend_image_with_line(&mut first, &line, red, 128);

    let mut second = color_image(1, 1, WHITE);
    blend_image_with_line(&mut second, &line, red, 128);
    blend_image_with_line(&mut second, &line, BLACK, 128);

    assert_ne!(first.pixels, second.pixels);
}

#[test]
fn error_reduction_rewards_matching_strokes() {
    let source = color_image(8, 1, BLACK);
    let canvas = color_image(8, 1, WHITE);
    let line = bresenham(pt(0, 0), pt(2, 0));
    let gain = get_line_error_reduction(&line, &source, &canvas, BLACK, 255);
    // Every pixel goes from an error of 3 * 255^2 to zero.
    assert_eq!(gain, 3 * 195075);
}

#[test]
fn error_reduction_penalizes_spoiling_strokes() {
    let source = color_image(8, 1, WHITE);
    let canvas = color_image(8, 1, WHITE);
    let line = bresenham(pt(0, 0), pt(2, 0));
    let gain = get_line_error_reduction(&line, &source, &canvas, BLACK, 255);
    assert_eq!(gain, -3 * 195075);
}

#[test]
fn error_reduction_of_out_of_bounds_line_is_zero() {
    let source = color_image(4, 4, BLACK);
    let canvas = color_image(4, 4, WHITE);
    let line = bresenham(pt(10, 10), pt(14, 12));
    assert_eq!(get_line_error_reduction(&line, &source, &canvas, BLACK, 255), 0);
}

#[test]
fn multicolor_halts_when_nothing_improves() {
    // A canvas already equal to the source admits no positive candidate:
    // the loop halts at once, no path grows, the canvas stays untouched.
    let source = color_image(8, 8, WHITE);
    let mut canvas = color_image(8, 8, WHITE);
    let before = canvas.pixels.clone();
    let pins = vec![pt(0, 0), pt(7, 0), pt(7, 7), pt(0, 7)];
    let palette = vec![BLACK, rgb(255, 0, 0)];
    let (paths, moves) = solve_multicolor(&pins, &source, &mut canvas, &palette, 4, 50, 128);
    assert!(moves.is_empty());
    assert_eq!(paths.len(), 2);
    assert_eq!(paths[0], vec![0]);
    assert_eq!(paths[1], vec![0]);
    assert_eq!(canvas.pixels, before);
}

#[test]
fn multicolor_draws_improving_strokes() {
    let source = color_image(8, 8, BLACK);
    let mut canvas = color_image(8, 8, WHITE);
    let pins = vec![pt(0, 0), pt(7, 0), pt(7, 7), pt(0, 7)];
    let palette = vec![BLACK];
    let before = canvas.pixels.clone();
    let (paths, moves) = solve_multicolor(&pins, &source, &mut canvas, &palette, 4, 3, 200);
    assert!(!moves.is_empty());
    assert_ne!(canvas.pixels, before);
    assert_eq!(paths.len(), 1);
    assert!(paths[0].len() == moves.len() + 1);
}

#[test]
fn replaying_recorded_moves_reproduces_the_canvas() {
    let source = color_image(8, 8, BLACK);
    let mut canvas = color_image(8, 8, WHITE);
    let pins = vec![pt(0, 0), pt(7, 0), pt(7, 7), pt(0, 7)];
    let palette = vec![BLACK, rgb(200, 30, 30)];
    let (_, moves) = solve_multicolor(&pins, &source, &mut canvas, &palette, 4, 6, 128);

    let mut replayed = color_image(8, 8, WHITE);
    for m in &moves {
        let line = bresenham(pins[m.from], pins[m.to]);
        blend_image_with_line(&mut replayed, &line, palette[m.color], 128);
    }
    assert_eq!(replayed.pixels, canvas.pixels);
}

#[test]
fn single_black_palette_behaves_as_one_grayscale_path() {
    // With a one-color black palette the multi-path optimizer degenerates
    // to a single evolving path: every move belongs to color 0 and each
    // move leaves from where the previous one arrived.
    let source = color_image(8, 8, BLACK);
    let mut canvas = color_image(8, 8, WHITE);
    let pins = vec![pt(0, 0), pt(7, 0), pt(7, 7), pt(0, 7)];
    let palette = vec![BLACK];
    let (paths, moves) = solve_multicolor(&pins, &source, &mut canvas, &palette, 4, 5, 255);
    assert_eq!(paths.len(), 1);
    assert!(!moves.is_empty());
    let mut frontier = 0usize;
    let mut expected_path = vec![0usize];
    for m in &moves {
        assert_eq!(m.color, 0);
        assert_eq!(m.from, frontier);
        assert_ne!(m.to, m.from);
        frontier = m.to;
        expected_path.push(m.to);
    }
    assert_eq!(paths[0], expected_path);
}

#[test]
fn multicolor_with_a_single_pin_halts_with_trivial_paths() {
    let source = color_image(4, 4, BLACK);
    let mut canvas = color_image(4, 4, WHITE);
    let before = canvas.pixels.clone();
    let pins = vec![pt(2, 2)];
    let palette = vec![BLACK, WHITE];
    let (paths, moves) = solve_multicolor(&pins, &source, &mut canvas, &palette, 1, 10, 128);
    assert!(moves.is_empty());
    assert_eq!(paths, vec![vec![0], vec![0]]);
    assert_eq!(canvas.pixels, before);
}
