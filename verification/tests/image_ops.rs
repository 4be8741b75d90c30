use string_art::Cli;
use string_art::Image;
use string_art::ImageDimensions;

fn gradient_image(width: u32, height: u32) -> Image {
    let mut pixels = Vec::new();
    for row in 0..height {
        for col in 0..width {
            pixels.push(((row * 31 + col * 7) % 256) as u8);
        }
    }
    Image { dimensions: ImageDimensions { width, height }, pixels }
}

#[test]
fn crop_wide_image_to_centered_square() {
    let img = gradient_image(6, 4);
    let original = img.pixels.clone();
    let cropped = Image::crop_to_square_from_center(img);
    assert_eq!(cropped.dimensions.width, 4);
    assert_eq!(cropped.dimensions.height, 4);
    // The crop starts one column in: (6 - 4) / 2 == 1.
    for row in 0..4usize {
        for col in 0..4usize {
            assert_eq!(cropped.pixels[row * 4 + col], original[row * 6 + col + 1]);
        }
    }
}

#[test]
fn crop_tall_image_to_centered_square() {
    let img = gradient_image(2, 5);
    let original = img.pixels.clone();
    let cropped = Image::crop_to_square_from_center(img);
    assert_eq!(cropped.dimensions.width, 2);
    assert_eq!(cropped.dimensions.height, 2);
    // The crop starts one row down: (5 - 2) / 2 == 1.
    for row in 0..2usize {
        for col in 0..2usize {
            assert_eq!(cropped.pixels[row * 2 + col], original[(row + 1) * 2 + col]);
        }
    }
}

#[test]
fn crop_of_square_image_is_identity() {
    let img = gradient_image(3, 3);
    let original = img.pixels.clone();
    let cropped = Image::crop_to_square_from_center(img);
    assert_eq!(cropped.dimensions.width, 3);
    assert_eq!(cropped.dimensions.height, 3);
    assert_eq!(cropped.pixels, original);
}

#[test]
fn resize_shrinks_within_bounds() {
    let img = gradient_image(8, 8);
    let resized = Image::resize_image(img, ImageDimensions { width: 4, height: 4 });
    assert_eq!(resized.dimensions.width, 4);
    assert_eq!(resized.dimensions.height, 4);
    assert_eq!(resized.pixels.len(), 16);
}

#[test]
fn resize_keeps_the_aspect_ratio() {
    let img = gradient_image(8, 4);
    let resized = Image::resize_image(img, ImageDimensions { width: 4, height: 4 });
    assert_eq!(resized.dimensions.width, 4);
    assert_eq!(resized.dimensions.height, 2);
    assert_eq!(resized.pixels.len(), 8);
}

#[test]
fn black_and_white_output_is_bilevel() {
    let img = Image {
        dimensions: ImageDimensions { width: 6, height: 2 },
        pixels: vec![128; 12],
    };
    let bw = Image::to_black_and_white(img);
    assert_eq!(bw.dimensions.width, 6);
    assert_eq!(bw.dimensions.height, 2);
    assert_eq!(bw.pixels.len(), 12);
    assert!(bw.pixels.iter().all(|&p| p == 0 || p == 255));
    assert!(bw.pixels.iter().any(|&p| p != 128));
}

#[test]
fn black_and_white_keeps_extremes() {
    let img = Image {
        dimensions: ImageDimensions { width: 4, height: 1 },
        pixels: vec![0, 0, 255, 255],
    };
    let bw = Image::to_black_and_white(img);
    assert_eq!(bw.pixels, vec![0, 0, 255, 255]);
}

#[test]
fn run_parameters_carry_over() {
    let cli = Cli {
        image_path: String::from("input.png"),
        output: Some(String::from("out.svg")),
        nodes: 256,
        max_lines: 1000,
        colors: 3,
    };
    assert_eq!(cli.nodes, 256);
    assert_eq!(cli.colors, 3);
    assert_eq!(cli.output.as_deref(), Some("out.svg"));
}
