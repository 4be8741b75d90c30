use vstd::prelude::*;

use crate::circle::IntegerPoint;
use crate::image::grid_in_bounds;
use crate::image::grid_index;
use crate::image::lemma_grid_index_bounds;
use crate::image::Image;
use crate::rasterizer::seq_pairs;

verus! {

/// The canonical slot of the unordered pin pair `{i, j}` in a dense
/// triangular table: both orders of the same pair map to the same slot,
/// and distinct pairs of `0..n` fill exactly the range `0..n*(n-1)/2`.
pub open spec fn pair_index(n: int, i: int, j: int) -> int {
    let lo = if i < j {
        i
    } else {
        j
    };
    let hi = if i < j {
        j
    } else {
        i
    };
    lo * (n - 1) - lo * (lo + 1) / 2 + hi - 1
}

/// The product of two consecutive integers is even, so halving the
/// triangular term loses nothing.
proof fn lemma_consecutive_even(l: int)
    requires
        l >= 0,
    ensures
        l * (l + 1) % 2 == 0,
        2 * (l * (l + 1) / 2) == l * (l + 1),
    decreases l,
{
    if l > 0 {
        lemma_consecutive_even(l - 1);
        assert((l - 1) * l + 2 * l == l * (l + 1)) by (nonlinear_arith);
    }
}

/// The pair slot is well placed: non-negative, below the table size, and
/// identical for both orders of the pair.
pub proof fn lemma_pair_index_bounds(n: int, i: int, j: int)
    requires
        0 <= i < n,
        0 <= j < n,
        i != j,
    ensures
        0 <= pair_index(n, i, j) < n * (n - 1) / 2,
        pair_index(n, i, j) == pair_index(n, j, i),
{
    let lo = if i < j {
        i
    } else {
        j
    };
    let hi = if i < j {
        j
    } else {
        i
    };
    lemma_consecutive_even(lo);
    lemma_consecutive_even(n - 1);
    let t = lo * (lo + 1) / 2;
    assert(2 * t == lo * (lo + 1));
    let half = n * (n - 1) / 2;
    assert(2 * half == (n - 1) * n);
    assert(lo * (lo + 1) <= 2 * (lo * (n - 1))) by (nonlinear_arith)
        requires
            0 <= lo,
            lo + 1 <= n - 1,
    ;
    assert(2 * (lo * (n - 1)) - lo * (lo + 1) + 2 * hi - 2 < (n - 1) * n) by (nonlinear_arith)
        requires
            0 <= lo <= n - 2,
            lo < hi <= n - 1,
    ;
}

/// What one rasterized point contributes to the darkness score of a
/// pixel buffer: the inverted intensity of the sample under it, or
/// nothing when it falls off the canvas.
pub open spec fn point_darkness_at(pixels: Seq<u8>, width: int, height: int, p: (int, int)) -> int {
    if grid_in_bounds(width, height, p) {
        255 - pixels[grid_index(width, height, p)]
    } else {
        0
    }
}

/// The darkness-sum score of a rasterized line against a pixel buffer:
/// the sum of inverted intensities under its in-bounds points.
pub open spec fn line_darkness_at(
    pixels: Seq<u8>,
    width: int,
    height: int,
    line: Seq<(int, int)>,
) -> int
    decreases line.len(),
{
    if line.len() == 0 {
        0
    } else {
        line_darkness_at(pixels, width, height, line.drop_last()) + point_darkness_at(
            pixels,
            width,
            height,
            line.last(),
        )
    }
}

/// What one rasterized point contributes to an image's darkness score.
pub open spec fn point_darkness(img: Image, p: (int, int)) -> int {
    point_darkness_at(
        img.pixels@,
        img.dimensions.width as int,
        img.dimensions.height as int,
        p,
    )
}

/// The darkness-sum score of a rasterized line against an image.
pub open spec fn line_darkness(img: Image, line: Seq<(int, int)>) -> int {
    line_darkness_at(
        img.pixels@,
        img.dimensions.width as int,
        img.dimensions.height as int,
        line,
    )
}

/// Darkness-sum scoring is non-negative, and bounded by full darkness on
/// every point of the line.
pub proof fn lemma_line_darkness_at_bounds(
    pixels: Seq<u8>,
    width: int,
    height: int,
    line: Seq<(int, int)>,
)
    ensures
        0 <= line_darkness_at(pixels, width, height, line) <= 255 * line.len(),
    decreases line.len(),
{
    if line.len() > 0 {
        lemma_line_darkness_at_bounds(pixels, width, height, line.drop_last());
    }
}

/// Darkness-sum scoring of an image is non-negative and bounded by full
/// darkness on every point of the line.
pub proof fn lemma_line_darkness_bounds(img: Image, line: Seq<(int, int)>)
    ensures
        0 <= line_darkness(img, line) <= 255 * line.len(),
{
    lemma_line_darkness_at_bounds(
        img.pixels@,
        img.dimensions.width as int,
        img.dimensions.height as int,
        line,
    );
}

/// A line whose points all fall off the canvas scores exactly zero under
/// the darkness-sum policy.
pub proof fn lemma_line_darkness_out_of_bounds(img: Image, line: Seq<(int, int)>)
    requires
        forall|k: int| 0 <= k < line.len() ==> !img.in_bounds(#[trigger] line[k]),
    ensures
        line_darkness(img, line) == 0,
{
    lemma_line_darkness_at_out_of_bounds(
        img.pixels@,
        img.dimensions.width as int,
        img.dimensions.height as int,
        line,
    );
}

/// The pixel-buffer form of the same law.
pub proof fn lemma_line_darkness_at_out_of_bounds(
    pixels: Seq<u8>,
    width: int,
    height: int,
    line: Seq<(int, int)>,
)
    requires
        forall|k: int| 0 <= k < line.len() ==> !grid_in_bounds(width, height, #[trigger] line[k]),
    ensures
        line_darkness_at(pixels, width, height, line) == 0,
    decreases line.len(),
{
    if line.len() > 0 {
        lemma_line_darkness_at_out_of_bounds(pixels, width, height, line.drop_last());
    }
}

/// Computes the canonical table slot of the unordered pin pair `{i, j}`
/// among `n` pins.
pub fn point_to_index(n: usize, i: usize, j: usize) -> (r: usize)
    requires
        i < n,
        j < n,
        i != j,
        n <= 0x8000,
    ensures
        r == pair_index(n as int, i as int, j as int),
        r < n as int * (n as int - 1) / 2,
{
    proof {
        lemma_pair_index_bounds(n as int, i as int, j as int);
        lemma_consecutive_even(i as int);
        lemma_consecutive_even(j as int);
        assert(i as int * (i as int + 1) <= 2 * (i as int * (n as int - 1)) && (i as int
            * (n as int - 1)) < 0x4000_0000) by (nonlinear_arith)
            requires
                0 <= i as int <= n as int - 1,
                2 <= n as int <= 0x8000,
        ;
        assert(j as int * (j as int + 1) <= 2 * (j as int * (n as int - 1)) && (j as int
            * (n as int - 1)) < 0x4000_0000) by (nonlinear_arith)
            requires
                0 <= j as int <= n as int - 1,
                2 <= n as int <= 0x8000,
        ;
    }
    if i < j {
        i * (n - 1) - i * (i + 1) / 2 + j - 1
    } else {
        j * (n - 1) - j * (j + 1) / 2 + i - 1
    }
}

/// Computes the darkness-sum score of a rasterized candidate line against
/// the remaining-darkness image: out-of-canvas points are skipped.
pub fn get_line_darkness(line: &Vec<IntegerPoint>, image: &Image) -> (darkness: u32)
    requires
        image.wf(),
        line@.len() <= 0x80_0000,
    ensures
        darkness == line_darkness(*image, seq_pairs(line@)),
{
    let width: u32 = image.dimensions.width;
    let height: u32 = image.dimensions.height;
    let mut darkness: u32 = 0;
    let mut k: usize = 0;
    while k < line.len()
        invariant
            image.wf(),
            width == image.dimensions.width,
            height == image.dimensions.height,
            line@.len() <= 0x80_0000,
            k <= line@.len(),
            darkness == line_darkness(*image, seq_pairs(line@).take(k as int)),
            darkness <= 255 * k,
        decreases line@.len() - k,
    {
        let ghost prefix = seq_pairs(line@).take(k as int);
        let p = line[k];
        if p.x >= 0 && p.y >= 0 && p.x < width as i32 && p.y < height as i32 {
            proof {
                lemma_grid_index_bounds(width as int, height as int, (p.x as int, p.y as int));
                let rowi = height as int - 1 - p.y as int;
                assert(0 <= rowi * (width as int) && rowi * (width as int) + (p.x as int)
                    < 0x4000_0000) by (nonlinear_arith)
                    requires
                        0 <= rowi < height as int <= 0x8000,
                        0 <= (p.x as int) < width as int <= 0x8000,
                ;
            }
            let row: usize = (height as usize - 1) - (p.y as usize);
            let idx: usize = row * width as usize + p.x as usize;
            let pixel: u8 = image.pixels[idx];
            darkness = darkness + (255 - pixel as u32);
        }
        proof {
            assert(seq_pairs(line@).take(k as int + 1).drop_last() =~= prefix);
            assert(seq_pairs(line@).take(k as int + 1).last() == (p.x as int, p.y as int));
        }
        k = k + 1;
    }
    proof {
        assert(seq_pairs(line@).take(line@.len() as int) =~= seq_pairs(line@));
    }
    darkness
}

/// What one rasterized point contributes to the accuracy and error counts
/// of the binary classification policy: an in-bounds point lands either
/// on ink (any sample but pure white) or on blank (pure white).
pub open spec fn point_ink(img: Image, p: (int, int)) -> (int, int) {
    if img.in_bounds(p) {
        if img.sample(p) != 255 {
            (1, 0)
        } else {
            (0, 1)
        }
    } else {
        (0, 0)
    }
}

/// The accuracy and error counts of a rasterized line under the binary
/// classification policy.
pub open spec fn line_accuracy(img: Image, line: Seq<(int, int)>) -> (int, int)
    decreases line.len(),
{
    if line.len() == 0 {
        (0, 0)
    } else {
        let rest = line_accuracy(img, line.drop_last());
        let here = point_ink(img, line.last());
        (rest.0 + here.0, rest.1 + here.1)
    }
}

/// Computes the accuracy and error counts of a rasterized candidate line
/// against the already-drawn raster: in-bounds ink points count toward
/// accuracy, in-bounds blank points toward error.
pub fn get_line_accuracy(line: &Vec<IntegerPoint>, image: &Image) -> (counts: (u32, u32))
    requires
        image.wf(),
        line@.len() <= 0x80_0000,
    ensures
        counts.0 == line_accuracy(*image, seq_pairs(line@)).0,
        counts.1 == line_accuracy(*image, seq_pairs(line@)).1,
        counts.0 as int + counts.1 as int <= line@.len(),
{
    let width: u32 = image.dimensions.width;
    let height: u32 = image.dimensions.height;
    let mut accuracy: u32 = 0;
    let mut error: u32 = 0;
    let mut k: usize = 0;
    while k < line.len()
        invariant
            image.wf(),
            width == image.dimensions.width,
            height == image.dimensions.height,
            line@.len() <= 0x80_0000,
            k <= line@.len(),
            accuracy == line_accuracy(*image, seq_pairs(line@).take(k as int)).0,
            error == line_accuracy(*image, seq_pairs(line@).take(k as int)).1,
            accuracy as int + error as int <= k as int,
        decreases line@.len() - k,
    {
        let ghost prefix = seq_pairs(line@).take(k as int);
        let p = line[k];
        if p.x >= 0 && p.y >= 0 && p.x < width as i32 && p.y < height as i32 {
            proof {
                lemma_grid_index_bounds(width as int, height as int, (p.x as int, p.y as int));
                let rowi = height as int - 1 - p.y as int;
                assert(0 <= rowi * (width as int) && rowi * (width as int) + (p.x as int)
                    < 0x4000_0000) by (nonlinear_arith)
                    requires
                        0 <= rowi < height as int <= 0x8000,
                        0 <= (p.x as int) < width as int <= 0x8000,
                ;
            }
            let row: usize = (height as usize - 1) - (p.y as usize);
            let idx: usize = row * width as usize + p.x as usize;
            let pixel: u8 = image.pixels[idx];
            if pixel != 255 {
                accuracy = accuracy + 1;
            } else {
                error = error + 1;
            }
        }
        proof {
            assert(seq_pairs(line@).take(k as int + 1).drop_last() =~= prefix);
            assert(seq_pairs(line@).take(k as int + 1).last() == (p.x as int, p.y as int));
        }
        k = k + 1;
    }
    proof {
        assert(seq_pairs(line@).take(line@.len() as int) =~= seq_pairs(line@));
    }
    (accuracy, error)
}

/// The preference order of the binary classification policy: strictly
/// more ink hits win, and on equal ink hits strictly fewer blank hits.
pub open spec fn prefer_counts(acc_a: int, err_a: int, acc_b: int, err_b: int) -> bool {
    acc_a > acc_b || (acc_a == acc_b && err_a < err_b)
}

/// Decides whether the counts of candidate `a` beat those of candidate
/// `b` under the binary classification policy.
pub fn is_better_candidate(acc_a: u32, err_a: u32, acc_b: u32, err_b: u32) -> (r: bool)
    ensures
        r == prefer_counts(acc_a as int, err_a as int, acc_b as int, err_b as int),
{
    acc_a > acc_b || (acc_a == acc_b && err_a < err_b)
}

/// Decides the quality-floor stopping rule of the binary classification
/// policy: whether `accuracy / (accuracy + error)` has fallen strictly
/// below the threshold fraction `num / den`.
pub fn below_quality_threshold(accuracy: u32, error: u32, num: u32, den: u32) -> (r: bool)
    requires
        accuracy <= 0x80_0000,
        error <= 0x80_0000,
        num <= 1000,
        den <= 1000,
    ensures
        r == ((accuracy as int * den as int) < num as int * (accuracy as int + error as int)),
{
    proof {
        assert((accuracy as int * den as int) < 0x8000_0000_0000 && (num as int * (accuracy as int
            + error as int)) < 0x8000_0000_0000) by (nonlinear_arith)
            requires
                0 <= accuracy as int <= 0x80_0000,
                0 <= error as int <= 0x80_0000,
                0 <= num as int <= 1000,
                0 <= den as int <= 1000,
        ;
    }
    (accuracy as u64) * (den as u64) < (num as u64) * (accuracy as u64 + error as u64)
}

} // verus!
