use vstd::math::min;
use vstd::prelude::*;

verus! {

/// Width and height of a raster, in pixels.
#[derive(Clone, Copy, Debug, PartialEq, Eq, Structural)]
pub struct ImageDimensions {
    pub width: u32,
    pub height: u32,
}

/// A single-channel raster: one intensity sample per pixel, row-major,
/// row 0 at the top. The greedy engine reads it as the source image and
/// mutates a working copy of it as lines are accepted.
#[derive(Clone, Debug)]
pub struct Image {
    pub dimensions: ImageDimensions,
    pub pixels: Vec<u8>,
}

/// What the dither step leaves behind: every sample is either full black
/// or full white.
pub open spec fn bilevel(pixels: Seq<u8>) -> bool {
    forall|i: int| 0 <= i < pixels.len() ==> pixels[i] == 0 || pixels[i] == 255
}

/// Whether a rasterized line point lies on a canvas of the given sides.
/// The point is in line coordinates: x grows to the right, y grows up.
pub open spec fn grid_in_bounds(width: int, height: int, p: (int, int)) -> bool {
    &&& 0 <= p.0 < width
    &&& 0 <= p.1 < height
}

/// Buffer index of a line point on a top-origin row-major raster: the y
/// axis of line coordinates points up, so row `height - 1 - y` holds it.
pub open spec fn grid_index(width: int, height: int, p: (int, int)) -> int {
    (height - 1 - p.1) * width + p.0
}

/// An in-bounds line point indexes inside the buffer.
pub proof fn lemma_grid_index_bounds(width: int, height: int, p: (int, int))
    requires
        grid_in_bounds(width, height, p),
    ensures
        0 <= grid_index(width, height, p) < width * height,
{
    let row = height - 1 - p.1;
    assert(0 <= row * width && row * width + p.0 < width * height) by (nonlinear_arith)
        requires
            0 <= row < height,
            0 <= p.0 < width,
    ;
}

impl Image {
    /// Well-formed: the buffer holds exactly one sample per pixel, and the
    /// sides are small enough that every index computation fits `usize`
    /// and every darkness sum fits `u32`.
    pub open spec fn wf(self) -> bool {
        &&& self.pixels@.len() == self.dimensions.width as int * self.dimensions.height as int
        &&& self.dimensions.width <= 0x8000
        &&& self.dimensions.height <= 0x8000
    }

    /// Whether a rasterized point lies on the canvas.
    pub open spec fn in_bounds(self, p: (int, int)) -> bool {
        grid_in_bounds(self.dimensions.width as int, self.dimensions.height as int, p)
    }

    /// The sample a rasterized line point reads.
    pub open spec fn sample(self, p: (int, int)) -> u8 {
        self.pixels@[grid_index(self.dimensions.width as int, self.dimensions.height as int, p)]
    }

    /// The sample at a raster row and column (both top-origin), as the
    /// cropper sees the raster.
    pub open spec fn at_rc(self, row: int, col: int) -> u8 {
        self.pixels@[row * self.dimensions.width as int + col]
    }

    /// Left edge of the centered square crop.
    pub open spec fn crop_col(self) -> int {
        if self.dimensions.width > self.dimensions.height {
            (self.dimensions.width - self.dimensions.height) as int / 2
        } else {
            0
        }
    }

    /// Top edge of the centered square crop.
    pub open spec fn crop_row(self) -> int {
        if self.dimensions.height > self.dimensions.width {
            (self.dimensions.height - self.dimensions.width) as int / 2
        } else {
            0
        }
    }

    /// Cuts the centered square out of the image: the result is
    /// `min(width, height)` pixels on each side and every sample is the
    /// source sample offset by the crop origin.
    pub fn crop_to_square_from_center(image: Self) -> (r: Self)
        requires
            image.wf(),
        ensures
            r.wf(),
            r.dimensions.width == min(
                image.dimensions.width as int,
                image.dimensions.height as int,
            ),
            r.dimensions.height == r.dimensions.width,
            forall|row: int, col: int|
                0 <= row < r.dimensions.height as int && 0 <= col < r.dimensions.width as int
                    ==> #[trigger] r.at_rc(row, col) == image.at_rc(
                    row + image.crop_row(),
                    col + image.crop_col(),
                ),
    {
        let width: u32 = image.dimensions.width;
        let height: u32 = image.dimensions.height;
        if width == height {
            return image;
        }
        let side: u32 = if width < height {
            width
        } else {
            height
        };
        let crop_x: u32 = if width > height {
            (width - height) / 2
        } else {
            0
        };
        let crop_y: u32 = if height > width {
            (height - width) / 2
        } else {
            0
        };
        let mut out: Vec<u8> = Vec::new();
        let mut row: u32 = 0;
        while row < side
            invariant
                image.wf(),
                side == min(image.dimensions.width as int, image.dimensions.height as int),
                width == image.dimensions.width,
                height == image.dimensions.height,
                crop_x as int == image.crop_col(),
                crop_y as int == image.crop_row(),
                crop_x as int + side as int <= width as int,
                crop_y as int + side as int <= height as int,
                row <= side,
                out@.len() == row as int * side as int,
                forall|i: int, j: int|
                    0 <= i < row as int && 0 <= j < side as int ==> #[trigger] out@[i * side as int
                        + j] == image.at_rc(i + crop_y as int, j + crop_x as int),
            decreases side - row,
        {
            let mut col: u32 = 0;
            while col < side
                invariant
                    image.wf(),
                    side == min(image.dimensions.width as int, image.dimensions.height as int),
                    width == image.dimensions.width,
                    height == image.dimensions.height,
                    crop_x as int + side as int <= width as int,
                    crop_y as int + side as int <= height as int,
                    row < side,
                    col <= side,
                    out@.len() == row as int * side as int + col as int,
                    forall|i: int, j: int|
                        0 <= i < row as int && 0 <= j < side as int ==> #[trigger] out@[i
                            * side as int + j] == image.at_rc(i + crop_y as int, j + crop_x as int),
                    forall|j: int|
                        0 <= j < col as int ==> #[trigger] out@[row as int * side as int + j]
                            == image.at_rc(row as int + crop_y as int, j + crop_x as int),
                decreases side - col,
            {
                let src_row: u32 = row + crop_y;
                let src_col: u32 = col + crop_x;
                proof {
                    let sr = src_row as int;
                    let sc = src_col as int;
                    let w = width as int;
                    let h = height as int;
                    assert(0 <= sr * w && sr * w + sc < h * w && sr * w + sc < 0x4000_0000)
                        by (nonlinear_arith)
                        requires
                            0 <= sr < h <= 0x8000,
                            0 <= sc < w <= 0x8000,
                    ;
                }
                let idx: usize = src_row as usize * width as usize + src_col as usize;
                let ghost before = out@;
                out.push(image.pixels[idx]);
                proof {
                    assert forall|i: int, j: int|
                        0 <= i < row as int && 0 <= j < side as int implies #[trigger] out@[i
                        * side as int + j] == image.at_rc(i + crop_y as int, j + crop_x as int) by {
                        assert(i * side as int + j < row as int * side as int) by (nonlinear_arith)
                            requires
                                0 <= i < row as int,
                                0 <= j < side as int,
                        ;
                        assert(out@[i * side as int + j] == before[i * side as int + j]);
                    }
                }
                col = col + 1;
            }
            row = row + 1;
            proof {
                assert(row as int * side as int == (row as int - 1) * side as int + side as int)
                    by (nonlinear_arith);
            }
        }
        Self {
            dimensions: ImageDimensions { width: side, height: side },
            pixels: out,
        }
    }
}

/// The grayscale resampling that the imaging library computes; a pure
/// function of the source samples and the bounding sides.
pub uninterp spec fn resized_luma(
    pixels: Seq<u8>,
    width: u32,
    height: u32,
    new_width: u32,
    new_height: u32,
) -> Seq<u8>;

/// The bilevel error-diffusion dithering that the imaging library
/// computes; a pure function of the source samples and the sides.
pub uninterp spec fn dithered_bilevel(pixels: Seq<u8>, width: u32, height: u32) -> Seq<u8>;

/// Relies on image::DynamicImage::resize with the CatmullRom filter: it
/// scales the raster to the largest size that fits the given bounds while
/// keeping the aspect ratio, so both result sides are at least one and at
/// most the bound, and the result buffer holds one sample per pixel.
#[verifier::external_body]
fn resize_luma(pixels: &Vec<u8>, width: u32, height: u32, new_width: u32, new_height: u32) -> (r: (
    Vec<u8>,
    u32,
    u32,
))
    requires
        pixels@.len() == width as int * height as int,
        width >= 1,
        height >= 1,
        new_width >= 1,
        new_height >= 1,
    ensures
        r.0@.len() == r.1 as int * r.2 as int,
        1 <= r.1 <= new_width,
        1 <= r.2 <= new_height,
        r.0@ == resized_luma(pixels@, width, height, new_width, new_height),
{
    let buf = image::GrayImage::from_raw(width, height, pixels.clone()).expect("buffer fits");
    let resized = image::DynamicImage::ImageLuma8(buf).resize(
        new_width,
        new_height,
        image::imageops::FilterType::CatmullRom,
    );
    let out = resized.into_luma8();
    let (w, h) = (out.width(), out.height());
    (out.into_raw(), w, h)
}

/// Relies on image::imageops::dither with the image::imageops::BiLevel
/// color map: it dithers the raster in place, leaving every sample either
/// 0 or 255. The width bound keeps its error-diffusion indexing in range.
#[verifier::external_body]
fn dither_luma(pixels: &Vec<u8>, width: u32, height: u32) -> (r: Vec<u8>)
    requires
        pixels@.len() == width as int * height as int,
        width >= 2,
        height >= 1,
    ensures
        r@.len() == pixels@.len(),
        r@ == dithered_bilevel(pixels@, width, height),
        bilevel(r@),
{
    let mut buf = image::GrayImage::from_raw(width, height, pixels.clone()).expect("buffer fits");
    image::imageops::dither(&mut buf, &image::imageops::BiLevel);
    buf.into_raw()
}

impl Image {
    /// Scales the image down (or up) to fit inside `new_size`, keeping the
    /// aspect ratio; the samples are the library's CatmullRom resampling.
    pub fn resize_image(image: Self, new_size: ImageDimensions) -> (r: Self)
        requires
            image.wf(),
            image.dimensions.width >= 1,
            image.dimensions.height >= 1,
            1 <= new_size.width <= 0x8000,
            1 <= new_size.height <= 0x8000,
        ensures
            r.wf(),
            1 <= r.dimensions.width <= new_size.width,
            1 <= r.dimensions.height <= new_size.height,
            r.pixels@ == resized_luma(
                image.pixels@,
                image.dimensions.width,
                image.dimensions.height,
                new_size.width,
                new_size.height,
            ),
    {
        let (data, w, h) = resize_luma(
            &image.pixels,
            image.dimensions.width,
            image.dimensions.height,
            new_size.width,
            new_size.height,
        );
        Self { dimensions: ImageDimensions { width: w, height: h }, pixels: data }
    }

    /// Dithers the image to pure black and white; the sample pattern is
    /// the library's bilevel error diffusion.
    pub fn to_black_and_white(image: Self) -> (r: Self)
        requires
            image.wf(),
            image.dimensions.width >= 2,
            image.dimensions.height >= 1,
        ensures
            r.wf(),
            r.dimensions == image.dimensions,
            r.pixels@ == dithered_bilevel(
                image.pixels@,
                image.dimensions.width,
                image.dimensions.height,
            ),
            bilevel(r.pixels@),
    {
        let data = dither_luma(&image.pixels, image.dimensions.width, image.dimensions.height);
        Self { dimensions: image.dimensions, pixels: data }
    }
}

} // verus!
