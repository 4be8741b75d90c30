use vstd::prelude::*;

use crate::circle::IntegerPoint;
use crate::image::grid_in_bounds;
use crate::image::grid_index;
use crate::image::lemma_grid_index_bounds;
use crate::image::ImageDimensions;
use crate::rasterizer::bresenham;
use crate::rasterizer::coord_ok;
use crate::rasterizer::raster_seq;
use crate::rasterizer::seq_pairs;

verus! {

/// One color sample: red, green and blue channels.
#[derive(Clone, Copy, Debug, PartialEq, Eq, Structural)]
pub struct Rgb {
    pub r: u8,
    pub g: u8,
    pub b: u8,
}

/// A three-channel raster: one color sample per pixel, row-major, row 0
/// at the top. In multi-color mode one immutable instance holds the
/// source and a mutable instance holds the canvas built so far.
#[derive(Clone, Debug)]
pub struct ColorImage {
    pub dimensions: ImageDimensions,
    pub pixels: Vec<Rgb>,
}

impl ColorImage {
    /// Well-formed: one sample per pixel, with sides small enough for
    /// every index computation.
    pub open spec fn wf(self) -> bool {
        &&& self.pixels@.len() == self.dimensions.width as int * self.dimensions.height as int
        &&& self.dimensions.width <= 0x8000
        &&& self.dimensions.height <= 0x8000
    }

    /// Whether a rasterized point lies on the canvas.
    pub open spec fn in_bounds(self, p: (int, int)) -> bool {
        grid_in_bounds(self.dimensions.width as int, self.dimensions.height as int, p)
    }

    /// The color sample a rasterized line point reads.
    pub open spec fn sample(self, p: (int, int)) -> Rgb {
        self.pixels@[grid_index(self.dimensions.width as int, self.dimensions.height as int, p)]
    }
}

/// One channel after alpha-blending a stroke over a canvas sample:
/// `round(old * (1 - opacity) + stroke * opacity)` with the opacity
/// expressed as `alpha / 255`.
pub open spec fn blend_channel(old_v: u8, stroke: u8, alpha: u8) -> u8 {
    ((old_v as int * (255 - alpha as int) + stroke as int * alpha as int + 127) / 255) as u8
}

/// A color sample after alpha-blending a stroke over it, channel by
/// channel.
pub open spec fn blend_rgb(old_v: Rgb, stroke: Rgb, alpha: u8) -> Rgb {
    Rgb {
        r: blend_channel(old_v.r, stroke.r, alpha),
        g: blend_channel(old_v.g, stroke.g, alpha),
        b: blend_channel(old_v.b, stroke.b, alpha),
    }
}

/// The blended channel value stays a valid sample: the rounding never
/// leaves the channel range.
pub proof fn lemma_blend_channel_range(old_v: u8, stroke: u8, alpha: u8)
    ensures
        0 <= old_v as int * (255 - alpha as int) + stroke as int * alpha as int + 127 <= 65152,
        blend_channel(old_v, stroke, alpha) as int == (old_v as int * (255 - alpha as int)
            + stroke as int * alpha as int + 127) / 255,
{
    let o = old_v as int;
    let s = stroke as int;
    let a = alpha as int;
    assert(0 <= o * (255 - a) + s * a && o * (255 - a) + s * a <= 65025) by (nonlinear_arith)
        requires
            0 <= o <= 255,
            0 <= s <= 255,
            0 <= a <= 255,
    ;
    assert((o * (255 - a) + s * a + 127) / 255 <= 255);
}

/// The squared Euclidean distance of two color samples in RGB space.
pub open spec fn sq_err(a: Rgb, b: Rgb) -> int {
    let dr = a.r as int - b.r as int;
    let dg = a.g as int - b.g as int;
    let db = a.b as int - b.b as int;
    dr * dr + dg * dg + db * db
}

/// The squared color error is non-negative and bounded by three
/// full-range channels.
pub proof fn lemma_sq_err_range(a: Rgb, b: Rgb)
    ensures
        0 <= sq_err(a, b) <= 195075,
{
    let dr = a.r as int - b.r as int;
    let dg = a.g as int - b.g as int;
    let db = a.b as int - b.b as int;
    assert(0 <= dr * dr <= 65025 && 0 <= dg * dg <= 65025 && 0 <= db * db <= 65025)
        by (nonlinear_arith)
        requires
            -255 <= dr <= 255,
            -255 <= dg <= 255,
            -255 <= db <= 255,
    ;
}

/// What one rasterized point contributes to the error-reduction score of
/// a candidate stroke: how much closer to the source the blended canvas
/// sample would be, in squared color error. Out-of-canvas points
/// contribute nothing.
pub open spec fn point_gain(
    source: ColorImage,
    canvas: Seq<Rgb>,
    p: (int, int),
    stroke: Rgb,
    alpha: u8,
) -> int {
    if source.in_bounds(p) {
        let idx = grid_index(
            source.dimensions.width as int,
            source.dimensions.height as int,
            p,
        );
        let before = sq_err(source.sample(p), canvas[idx]);
        let after = sq_err(source.sample(p), blend_rgb(canvas[idx], stroke, alpha));
        before - after
    } else {
        0
    }
}

/// The error-reduction score of a rasterized candidate line: the summed
/// gain of its in-bounds points. A score of zero or less means the
/// stroke is not an improvement.
pub open spec fn line_gain(
    source: ColorImage,
    canvas: Seq<Rgb>,
    line: Seq<(int, int)>,
    stroke: Rgb,
    alpha: u8,
) -> int
    decreases line.len(),
{
    if line.len() == 0 {
        0
    } else {
        line_gain(source, canvas, line.drop_last(), stroke, alpha) + point_gain(
            source,
            canvas,
            line.last(),
            stroke,
            alpha,
        )
    }
}

/// A line whose points all fall off the canvas scores exactly zero under
/// the error-reduction policy.
pub proof fn lemma_line_gain_out_of_bounds(
    source: ColorImage,
    canvas: Seq<Rgb>,
    line: Seq<(int, int)>,
    stroke: Rgb,
    alpha: u8,
)
    requires
        forall|k: int| 0 <= k < line.len() ==> !source.in_bounds(#[trigger] line[k]),
    ensures
        line_gain(source, canvas, line, stroke, alpha) == 0,
    decreases line.len(),
{
    if line.len() > 0 {
        lemma_line_gain_out_of_bounds(source, canvas, line.drop_last(), stroke, alpha);
    }
}

/// Blends one channel of a stroke over a canvas channel at the given
/// opacity.
fn blend_channel_exec(old_v: u8, stroke: u8, alpha: u8) -> (v: u8)
    ensures
        v == blend_channel(old_v, stroke, alpha),
{
    proof {
        lemma_blend_channel_range(old_v, stroke, alpha);
    }
    let num: u32 = old_v as u32 * (255 - alpha as u32) + stroke as u32 * alpha as u32 + 127;
    (num / 255) as u8
}

/// Blends a stroke color over a canvas sample at the given opacity.
fn blend_rgb_exec(old_v: Rgb, stroke: Rgb, alpha: u8) -> (v: Rgb)
    ensures
        v == blend_rgb(old_v, stroke, alpha),
{
    Rgb {
        r: blend_channel_exec(old_v.r, stroke.r, alpha),
        g: blend_channel_exec(old_v.g, stroke.g, alpha),
        b: blend_channel_exec(old_v.b, stroke.b, alpha),
    }
}

/// Computes the error-reduction score of a rasterized candidate line:
/// the summed difference between the canvas's squared color error
/// against the source before and after blending the stroke, over the
/// line's in-bounds points.
pub fn get_line_error_reduction(
    line: &Vec<IntegerPoint>,
    source: &ColorImage,
    canvas: &ColorImage,
    stroke: Rgb,
    alpha: u8,
) -> (score: i64)
    requires
        source.wf(),
        canvas.wf(),
        canvas.dimensions == source.dimensions,
        line@.len() <= 0x80_0000,
    ensures
        score == line_gain(*source, canvas.pixels@, seq_pairs(line@), stroke, alpha),
{
    let width: u32 = source.dimensions.width;
    let height: u32 = source.dimensions.height;
    let mut score: i64 = 0;
    let mut k: usize = 0;
    while k < line.len()
        invariant
            source.wf(),
            canvas.wf(),
            canvas.dimensions == source.dimensions,
            width == source.dimensions.width,
            height == source.dimensions.height,
            line@.len() <= 0x80_0000,
            k <= line@.len(),
            score == line_gain(*source, canvas.pixels@, seq_pairs(line@).take(k as int), stroke, alpha),
            -195075 * (k as int) <= score as int <= 195075 * (k as int),
        decreases line@.len() - k,
    {
        let ghost prefix = seq_pairs(line@).take(k as int);
        let p = line[k];
        let ghost pt = (p.x as int, p.y as int);
        if p.x >= 0 && p.y >= 0 && p.x < width as i32 && p.y < height as i32 {
            proof {
                lemma_grid_index_bounds(width as int, height as int, pt);
                let rowi = height as int - 1 - p.y as int;
                assert(0 <= rowi * (width as int) && rowi * (width as int) + (p.x as int)
                    < 0x4000_0000) by (nonlinear_arith)
                    requires
                        0 <= rowi < height as int <= 0x8000,
                        0 <= (p.x as int) < width as int <= 0x8000,
                ;
            }
            let row: usize = (height as usize - 1) - (p.y as usize);
            let idx: usize = row * width as usize + p.x as usize;
            let src_px: Rgb = source.pixels[idx];
            let cur: Rgb = canvas.pixels[idx];
            let blended: Rgb = blend_rgb_exec(cur, stroke, alpha);
            let before: i64 = sq_err_exec(src_px, cur);
            let after: i64 = sq_err_exec(src_px, blended);
            proof {
                lemma_sq_err_range(src_px, cur);
                lemma_sq_err_range(src_px, blended);
            }
            score = score + (before - after);
        }
        proof {
            assert(seq_pairs(line@).take(k as int + 1).drop_last() =~= prefix);
            assert(seq_pairs(line@).take(k as int + 1).last() == pt);
        }
        k = k + 1;
    }
    proof {
        assert(seq_pairs(line@).take(line@.len() as int) =~= seq_pairs(line@));
    }
    score
}

/// Computes the squared Euclidean distance of two color samples.
fn sq_err_exec(a: Rgb, b: Rgb) -> (e: i64)
    ensures
        e == sq_err(a, b),
        0 <= e <= 195075,
{
    proof {
        lemma_sq_err_range(a, b);
    }
    let dr: i64 = a.r as i64 - b.r as i64;
    let dg: i64 = a.g as i64 - b.g as i64;
    let db: i64 = a.b as i64 - b.b as i64;
    proof {
        assert(0 <= dr as int * dr as int <= 65025 && 0 <= dg as int * dg as int <= 65025 && 0
            <= db as int * db as int <= 65025) by (nonlinear_arith)
            requires
                -255 <= dr as int <= 255,
                -255 <= dg as int <= 255,
                -255 <= db as int <= 255,
        ;
    }
    dr * dr + dg * dg + db * db
}

/// One raster point's stroke applied to a canvas buffer; a point off the
/// canvas changes nothing.
pub open spec fn blend_px(
    pixels: Seq<Rgb>,
    width: int,
    height: int,
    p: (int, int),
    stroke: Rgb,
    alpha: u8,
) -> Seq<Rgb> {
    if grid_in_bounds(width, height, p) {
        pixels.update(
            grid_index(width, height, p),
            blend_rgb(pixels[grid_index(width, height, p)], stroke, alpha),
        )
    } else {
        pixels
    }
}

/// A whole line's stroke, blended point by point in raster order.
pub open spec fn blend_line(
    pixels: Seq<Rgb>,
    width: int,
    height: int,
    line: Seq<(int, int)>,
    stroke: Rgb,
    alpha: u8,
) -> Seq<Rgb>
    decreases line.len(),
{
    if line.len() == 0 {
        pixels
    } else {
        blend_line(
            blend_px(pixels, width, height, line.first(), stroke, alpha),
            width,
            height,
            line.drop_first(),
            stroke,
            alpha,
        )
    }
}

/// Blending one more point at the end of the line is the same as
/// blending the line and then the point.
proof fn lemma_blend_line_snoc(
    pixels: Seq<Rgb>,
    width: int,
    height: int,
    line: Seq<(int, int)>,
    p: (int, int),
    stroke: Rgb,
    alpha: u8,
)
    ensures
        blend_line(pixels, width, height, line.push(p), stroke, alpha) == blend_px(
            blend_line(pixels, width, height, line, stroke, alpha),
            width,
            height,
            p,
            stroke,
            alpha,
        ),
    decreases line.len(),
{
    if line.len() == 0 {
        assert(line.push(p).first() == p);
        assert(line.push(p).drop_first() =~= Seq::<(int, int)>::empty());
        let stepped = blend_px(pixels, width, height, p, stroke, alpha);
        assert(blend_line(pixels, width, height, line.push(p), stroke, alpha) == blend_line(
            stepped,
            width,
            height,
            line.push(p).drop_first(),
            stroke,
            alpha,
        ));
        assert(blend_line(stepped, width, height, line.push(p).drop_first(), stroke, alpha)
            == stepped);
    } else {
        assert(line.push(p).drop_first() =~= line.drop_first().push(p));
        lemma_blend_line_snoc(
            blend_px(pixels, width, height, line.first(), stroke, alpha),
            width,
            height,
            line.drop_first(),
            p,
            stroke,
            alpha,
        );
    }
}

/// Applies the accepted stroke to the canvas: every in-bounds point of
/// the line is alpha-blended with the stroke color at the given opacity.
pub fn blend_image_with_line(canvas: &mut ColorImage, line: &Vec<IntegerPoint>, stroke: Rgb, alpha: u8)
    requires
        old(canvas).wf(),
    ensures
        final(canvas).wf(),
        final(canvas).dimensions == old(canvas).dimensions,
        final(canvas).pixels@ == blend_line(
            old(canvas).pixels@,
            old(canvas).dimensions.width as int,
            old(canvas).dimensions.height as int,
            seq_pairs(line@),
            stroke,
            alpha,
        ),
{
    let width: u32 = canvas.dimensions.width;
    let height: u32 = canvas.dimensions.height;
    let ghost w = width as int;
    let ghost h = height as int;
    let ghost start = canvas.pixels@;
    let mut k: usize = 0;
    while k < line.len()
        invariant
            canvas.wf(),
            canvas.dimensions == old(canvas).dimensions,
            width == canvas.dimensions.width,
            height == canvas.dimensions.height,
            w == width as int,
            h == height as int,
            start == old(canvas).pixels@,
            k <= line@.len(),
            canvas.pixels@ == blend_line(start, w, h, seq_pairs(line@).take(k as int), stroke, alpha),
        decreases line@.len() - k,
    {
        let ghost prefix = seq_pairs(line@).take(k as int);
        let p = line[k];
        let ghost pt = (p.x as int, p.y as int);
        if p.x >= 0 && p.y >= 0 && p.x < width as i32 && p.y < height as i32 {
            proof {
                lemma_grid_index_bounds(w, h, pt);
                let rowi = h - 1 - p.y as int;
                assert(0 <= rowi * w && rowi * w + (p.x as int) < 0x4000_0000) by (nonlinear_arith)
                    requires
                        0 <= rowi < h <= 0x8000,
                        0 <= (p.x as int) < w <= 0x8000,
                ;
            }
            let row: usize = (height as usize - 1) - (p.y as usize);
            let idx: usize = row * width as usize + p.x as usize;
            let cur: Rgb = canvas.pixels[idx];
            let v: Rgb = blend_rgb_exec(cur, stroke, alpha);
            canvas.pixels[idx] = v;
            proof {
                assert(canvas.pixels@ == blend_px(
                    blend_line(start, w, h, prefix, stroke, alpha),
                    w,
                    h,
                    pt,
                    stroke,
                    alpha,
                ));
            }
        } else {
            proof {
                assert(canvas.pixels@ == blend_px(
                    blend_line(start, w, h, prefix, stroke, alpha),
                    w,
                    h,
                    pt,
                    stroke,
                    alpha,
                ));
            }
        }
        proof {
            assert(seq_pairs(line@).take(k as int + 1) =~= prefix.push(pt));
            lemma_blend_line_snoc(start, w, h, prefix, pt, stroke, alpha);
        }
        k = k + 1;
    }
    proof {
        assert(seq_pairs(line@).take(line@.len() as int) =~= seq_pairs(line@));
    }
}

/// One accepted move of the multi-color optimizer: the path of `color`
/// drew the line from pin `from` to pin `to`.
#[derive(Clone, Copy, Debug, PartialEq, Eq, Structural)]
pub struct Move {
    pub color: usize,
    pub from: usize,
    pub to: usize,
}

/// The canvas that results from replaying a recorded move log, move by
/// move and in recorded order, on a starting canvas buffer.
pub open spec fn replay_color(
    pixels: Seq<Rgb>,
    width: int,
    height: int,
    pins: Seq<IntegerPoint>,
    palette: Seq<Rgb>,
    moves: Seq<Move>,
    alpha: u8,
) -> Seq<Rgb>
    decreases moves.len(),
{
    if moves.len() == 0 {
        pixels
    } else {
        replay_color(
            blend_line(
                pixels,
                width,
                height,
                raster_seq(pins[moves.first().from as int], pins[moves.first().to as int]),
                palette[moves.first().color as int],
                alpha,
            ),
            width,
            height,
            pins,
            palette,
            moves.drop_first(),
            alpha,
        )
    }
}

/// Replaying one more accepted move is the same as replaying the
/// recorded log and then blending that move's line.
proof fn lemma_replay_color_snoc(
    pixels: Seq<Rgb>,
    width: int,
    height: int,
    pins: Seq<IntegerPoint>,
    palette: Seq<Rgb>,
    moves: Seq<Move>,
    m: Move,
    alpha: u8,
)
    ensures
        replay_color(pixels, width, height, pins, palette, moves.push(m), alpha) == blend_line(
            replay_color(pixels, width, height, pins, palette, moves, alpha),
            width,
            height,
            raster_seq(pins[m.from as int], pins[m.to as int]),
            palette[m.color as int],
            alpha,
        ),
    decreases moves.len(),
{
    let p2 = moves.push(m);
    if moves.len() == 0 {
        assert(p2.first() == m);
        assert(p2.drop_first() =~= Seq::<Move>::empty());
        let once = blend_line(
            pixels,
            width,
            height,
            raster_seq(pins[m.from as int], pins[m.to as int]),
            palette[m.color as int],
            alpha,
        );
        assert(replay_color(pixels, width, height, pins, palette, p2, alpha) == replay_color(
            once,
            width,
            height,
            pins,
            palette,
            p2.drop_first(),
            alpha,
        ));
        assert(replay_color(once, width, height, pins, palette, p2.drop_first(), alpha) == once);
    } else {
        assert(p2.first() == moves.first());
        assert(p2.drop_first() =~= moves.drop_first().push(m));
        let once = blend_line(
            pixels,
            width,
            height,
            raster_seq(pins[moves.first().from as int], pins[moves.first().to as int]),
            palette[moves.first().color as int],
            alpha,
        );
        lemma_replay_color_snoc(
            once,
            width,
            height,
            pins,
            palette,
            moves.drop_first(),
            m,
            alpha,
        );
    }
}

/// The error-reduction score of the candidate stroke from pin `from` to
/// pin `j` in the given stroke color, against the current canvas.
pub open spec fn cand_gain(
    source: ColorImage,
    canvas: Seq<Rgb>,
    pins: Seq<IntegerPoint>,
    stroke: Rgb,
    from: int,
    j: int,
    alpha: u8,
) -> int {
    line_gain(source, canvas, raster_seq(pins[from], pins[j]), stroke, alpha)
}

/// The path that a recorded move log gives one color: pin 0 followed by
/// the targets of that color's moves, in recorded order.
pub open spec fn path_of_color(moves: Seq<Move>, k: int) -> Seq<usize>
    decreases moves.len(),
{
    if moves.len() == 0 {
        seq![0usize]
    } else if moves.last().color == k {
        path_of_color(moves.drop_last(), k).push(moves.last().to)
    } else {
        path_of_color(moves.drop_last(), k)
    }
}

/// A color's path in a well-recorded move log starts at pin 0, stays
/// inside the pin range, and never repeats a pin back-to-back.
pub proof fn lemma_path_of_color_props(moves: Seq<Move>, k: int, n: int)
    requires
        n >= 1,
        forall|t: int|
            0 <= t < moves.len() && #[trigger] moves[t].color == k ==> moves[t].to < n
                && moves[t].from != moves[t].to && moves[t].from == path_of_color(
                moves.take(t),
                k,
            ).last(),
    ensures
        path_of_color(moves, k).len() >= 1,
        path_of_color(moves, k)[0] == 0,
        forall|i: int| 0 <= i < path_of_color(moves, k).len() ==> #[trigger] path_of_color(
            moves,
            k,
        )[i] < n,
        forall|i: int|
            0 <= i < path_of_color(moves, k).len() - 1 ==> path_of_color(moves, k)[i]
                != #[trigger] path_of_color(moves, k)[i + 1],
    decreases moves.len(),
{
    if moves.len() > 0 {
        let prev = moves.drop_last();
        assert(forall|t: int| 0 <= t < prev.len() ==> prev.take(t) =~= moves.take(t));
        assert(forall|t: int| 0 <= t < prev.len() ==> #[trigger] prev[t] == moves[t]);
        lemma_path_of_color_props(prev, k, n);
        if moves.last().color == k {
            let t = moves.len() - 1;
            assert(moves[t].color == k);
            assert(moves.take(t) =~= prev);
            assert(moves[t].from == path_of_color(prev, k).last());
            let p = path_of_color(moves, k);
            let q = path_of_color(prev, k);
            assert(p =~= q.push(moves.last().to));
            assert(p[p.len() - 2] == q.last());
        }
    }
}

/// Scans every other pin as the next stroke of one color's path and
/// returns the best error-reduction score with its pin: the first pin
/// attaining the maximum, whatever its sign.
fn best_move_for_color(
    points: &Vec<IntegerPoint>,
    source: &ColorImage,
    canvas: &ColorImage,
    stroke: Rgb,
    current: usize,
    n: usize,
    alpha: u8,
) -> (r: (i64, usize))
    requires
        source.wf(),
        canvas.wf(),
        canvas.dimensions == source.dimensions,
        points@.len() == n,
        2 <= n <= 0x8000,
        current < n,
        forall|kk: int| 0 <= kk < n ==> coord_ok(#[trigger] points@[kk]),
    ensures
        r.1 < n,
        r.1 != current,
        r.0 == cand_gain(*source, canvas.pixels@, points@, stroke, current as int, r.1 as int, alpha),
        forall|j: int|
            0 <= j < n && j != current ==> #[trigger] cand_gain(
                *source,
                canvas.pixels@,
                points@,
                stroke,
                current as int,
                j,
                alpha,
            ) <= r.0,
        forall|j: int|
            0 <= j < n && j != current && j < r.1 ==> #[trigger] cand_gain(
                *source,
                canvas.pixels@,
                points@,
                stroke,
                current as int,
                j,
                alpha,
            ) < r.0,
{
    let first_cand: usize = if current == 0 {
        1
    } else {
        0
    };
    let line0 = bresenham(points[current], points[first_cand]);
    let mut best: i64 = get_line_error_reduction(&line0, source, canvas, stroke, alpha);
    let mut best_next: usize = first_cand;
    let mut j: usize = 0;
    while j < n
        invariant
            source.wf(),
            canvas.wf(),
            canvas.dimensions == source.dimensions,
            points@.len() == n,
            2 <= n <= 0x8000,
            current < n,
            forall|kk: int| 0 <= kk < n ==> coord_ok(#[trigger] points@[kk]),
            j <= n,
            best_next < n,
            best_next != current,
            best == cand_gain(
                *source,
                canvas.pixels@,
                points@,
                stroke,
                current as int,
                best_next as int,
                alpha,
            ),
            forall|jj: int|
                0 <= jj < j && jj != current ==> #[trigger] cand_gain(
                    *source,
                    canvas.pixels@,
                    points@,
                    stroke,
                    current as int,
                    jj,
                    alpha,
                ) <= best,
            forall|jj: int|
                0 <= jj < n && jj != current && jj < best_next ==> #[trigger] cand_gain(
                    *source,
                    canvas.pixels@,
                    points@,
                    stroke,
                    current as int,
                    jj,
                    alpha,
                ) < best,
        decreases n - j,
    {
        if j != current {
            let line = bresenham(points[current], points[j]);
            let score = get_line_error_reduction(&line, source, canvas, stroke, alpha);
            if score > best {
                best = score;
                best_next = j;
            }
        }
        j = j + 1;
    }
    (best, best_next)
}

/// Reduces the per-color best moves of one iteration to the single
/// globally best move: the highest score wins, ties resolved by the
/// first color and then the first pin encountered.
fn best_global_move(
    points: &Vec<IntegerPoint>,
    source: &ColorImage,
    canvas: &ColorImage,
    palette: &Vec<Rgb>,
    frontiers: &Vec<usize>,
    n: usize,
    alpha: u8,
) -> (r: (i64, usize, usize))
    requires
        source.wf(),
        canvas.wf(),
        canvas.dimensions == source.dimensions,
        points@.len() == n,
        2 <= n <= 0x8000,
        palette@.len() >= 1,
        frontiers@.len() == palette@.len(),
        forall|k: int| 0 <= k < frontiers@.len() ==> #[trigger] frontiers@[k] < n,
        forall|kk: int| 0 <= kk < n ==> coord_ok(#[trigger] points@[kk]),
    ensures
        r.1 < palette@.len(),
        r.2 < n,
        r.2 != frontiers@[r.1 as int],
        r.0 == cand_gain(
            *source,
            canvas.pixels@,
            points@,
            palette@[r.1 as int],
            frontiers@[r.1 as int] as int,
            r.2 as int,
            alpha,
        ),
        forall|k: int, j: int|
            0 <= k < palette@.len() && 0 <= j < n && j != frontiers@[k] ==> #[trigger] cand_gain(
                *source,
                canvas.pixels@,
                points@,
                palette@[k],
                frontiers@[k] as int,
                j,
                alpha,
            ) <= r.0,
        forall|k: int, j: int|
            0 <= k < r.1 && 0 <= j < n && j != frontiers@[k] ==> #[trigger] cand_gain(
                *source,
                canvas.pixels@,
                points@,
                palette@[k],
                frontiers@[k] as int,
                j,
                alpha,
            ) < r.0,
        forall|j: int|
            0 <= j < n && j != frontiers@[r.1 as int] && j < r.2 ==> #[trigger] cand_gain(
                *source,
                canvas.pixels@,
                points@,
                palette@[r.1 as int],
                frontiers@[r.1 as int] as int,
                j,
                alpha,
            ) < r.0,
{
    let (mut best, mut best_next) = best_move_for_color(
        points,
        source,
        canvas,
        palette[0],
        frontiers[0],
        n,
        alpha,
    );
    let mut best_color: usize = 0;
    let mut k: usize = 1;
    while k < palette.len()
        invariant
            source.wf(),
            canvas.wf(),
            canvas.dimensions == source.dimensions,
            points@.len() == n,
            2 <= n <= 0x8000,
            palette@.len() >= 1,
            frontiers@.len() == palette@.len(),
            forall|kk: int| 0 <= kk < frontiers@.len() ==> #[trigger] frontiers@[kk] < n,
            forall|kk: int| 0 <= kk < n ==> coord_ok(#[trigger] points@[kk]),
            1 <= k <= palette@.len(),
            best_color < k,
            best_next < n,
            best_next != frontiers@[best_color as int],
            best == cand_gain(
                *source,
                canvas.pixels@,
                points@,
                palette@[best_color as int],
                frontiers@[best_color as int] as int,
                best_next as int,
                alpha,
            ),
            forall|k2: int, j: int|
                0 <= k2 < k && 0 <= j < n && j != frontiers@[k2] ==> #[trigger] cand_gain(
                    *source,
                    canvas.pixels@,
                    points@,
                    palette@[k2],
                    frontiers@[k2] as int,
                    j,
                    alpha,
                ) <= best,
            forall|k2: int, j: int|
                0 <= k2 < best_color && 0 <= j < n && j != frontiers@[k2] ==> #[trigger] cand_gain(
                    *source,
                    canvas.pixels@,
                    points@,
                    palette@[k2],
                    frontiers@[k2] as int,
                    j,
                    alpha,
                ) < best,
            forall|j: int|
                0 <= j < n && j != frontiers@[best_color as int] && j < best_next
                    ==> #[trigger] cand_gain(
                    *source,
                    canvas.pixels@,
                    points@,
                    palette@[best_color as int],
                    frontiers@[best_color as int] as int,
                    j,
                    alpha,
                ) < best,
        decreases palette@.len() - k,
    {
        let (score, next) = best_move_for_color(
            points,
            source,
            canvas,
            palette[k],
            frontiers[k],
            n,
            alpha,
        );
        if score > best {
            best = score;
            best_next = next;
            best_color = k;
        }
        k = k + 1;
    }
    (best, best_color, best_next)
}

/// One accepted move of the multi-color loop is the greedy choice: at
/// the given canvas its stroke's error-reduction score is strictly
/// positive, it leaves from its color's frontier, no candidate of any
/// color scores higher, every candidate of a lower-numbered color scores
/// strictly lower, and so does every smaller-numbered pin of its own
/// color - ties fall to the first color, then the first pin.
pub open spec fn multicolor_step_ok(
    source: ColorImage,
    canvas: Seq<Rgb>,
    pins: Seq<IntegerPoint>,
    palette: Seq<Rgb>,
    prefix: Seq<Move>,
    m: Move,
    alpha: u8,
) -> bool {
    let s = cand_gain(
        source,
        canvas,
        pins,
        palette[m.color as int],
        m.from as int,
        m.to as int,
        alpha,
    );
    &&& m.color < palette.len()
    &&& m.to < pins.len()
    &&& m.from != m.to
    &&& m.from == path_of_color(prefix, m.color as int).last()
    &&& s > 0
    &&& forall|k: int, j: int|
        0 <= k < palette.len() && 0 <= j < pins.len() && j != path_of_color(prefix, k).last()
            ==> #[trigger] cand_gain(
            source,
            canvas,
            pins,
            palette[k],
            path_of_color(prefix, k).last() as int,
            j,
            alpha,
        ) <= s
    &&& forall|k: int, j: int|
        0 <= k < m.color && 0 <= j < pins.len() && j != path_of_color(prefix, k).last()
            ==> #[trigger] cand_gain(
            source,
            canvas,
            pins,
            palette[k],
            path_of_color(prefix, k).last() as int,
            j,
            alpha,
        ) < s
    &&& forall|j: int|
        0 <= j < pins.len() && j != m.from && j < m.to ==> #[trigger] cand_gain(
            source,
            canvas,
            pins,
            palette[m.color as int],
            m.from as int,
            j,
            alpha,
        ) < s
}

/// A palette of size one degenerates the multi-path optimizer to a
/// single evolving path: every certified move belongs to the one color,
/// leaves from that path's frontier, has strictly positive gain, no
/// other pin scores higher from that frontier, and every
/// smaller-numbered pin scores strictly lower - exactly the greedy
/// single-path choice under the color scoring.
pub proof fn lemma_single_palette_single_path(
    source: ColorImage,
    canvas: Seq<Rgb>,
    pins: Seq<IntegerPoint>,
    palette: Seq<Rgb>,
    prefix: Seq<Move>,
    m: Move,
    alpha: u8,
)
    requires
        palette.len() == 1,
        multicolor_step_ok(source, canvas, pins, palette, prefix, m, alpha),
    ensures
        m.color == 0,
        m.from == path_of_color(prefix, 0).last(),
        cand_gain(source, canvas, pins, palette[0], m.from as int, m.to as int, alpha) > 0,
        forall|j: int|
            0 <= j < pins.len() && j != m.from ==> #[trigger] cand_gain(
                source,
                canvas,
                pins,
                palette[0],
                m.from as int,
                j,
                alpha,
            ) <= cand_gain(source, canvas, pins, palette[0], m.from as int, m.to as int, alpha),
        forall|j: int|
            0 <= j < pins.len() && j != m.from && j < m.to ==> #[trigger] cand_gain(
                source,
                canvas,
                pins,
                palette[0],
                m.from as int,
                j,
                alpha,
            ) < cand_gain(source, canvas, pins, palette[0], m.from as int, m.to as int, alpha),
{
    assert(m.color == 0);
    assert forall|j: int| 0 <= j < pins.len() && j != m.from implies #[trigger] cand_gain(
        source,
        canvas,
        pins,
        palette[0],
        m.from as int,
        j,
        alpha,
    ) <= cand_gain(source, canvas, pins, palette[0], m.from as int, m.to as int, alpha) by {
        assert(cand_gain(
            source,
            canvas,
            pins,
            palette[0],
            path_of_color(prefix, 0).last() as int,
            j,
            alpha,
        ) <= cand_gain(source, canvas, pins, palette[m.color as int], m.from as int, m.to as int, alpha));
    }
}

/// The greedy multi-path optimizer: one path per palette color, all
/// starting at pin 0 and sharing one canvas. Each iteration evaluates
/// every color's candidate strokes against the latest canvas, reduces to
/// the single globally best move, and halts as soon as no candidate has
/// a positive error-reduction score; otherwise it blends the winning
/// stroke into the canvas and advances only the winning color's path.
///
/// Returns one path per color and the global move log. Replaying the log
/// in recorded order on the starting canvas reproduces the final canvas;
/// every recorded move was the greedy choice against the canvas it was
/// applied to; and when the loop halted short of the budget, no
/// candidate scored above zero against the final canvas. Fewer than two
/// pins admit no candidate line, so the run halts at once with the
/// trivial one-pin paths; at least one pin must exist for the paths to
/// have a start.
#[verifier::rlimit(100)]
pub fn solve_multicolor(
    points: &Vec<IntegerPoint>,
    source: &ColorImage,
    canvas: &mut ColorImage,
    palette: &Vec<Rgb>,
    n: usize,
    max_lines: usize,
    alpha: u8,
) -> (r: (Vec<Vec<usize>>, Vec<Move>))
    requires
        source.wf(),
        old(canvas).wf(),
        old(canvas).dimensions == source.dimensions,
        points@.len() == n,
        1 <= n <= 0x8000,
        palette@.len() >= 1,
        forall|kk: int| 0 <= kk < n ==> coord_ok(#[trigger] points@[kk]),
    ensures
        final(canvas).wf(),
        final(canvas).dimensions == old(canvas).dimensions,
        final(canvas).pixels@ == replay_color(
            old(canvas).pixels@,
            source.dimensions.width as int,
            source.dimensions.height as int,
            points@,
            palette@,
            r.1@,
            alpha,
        ),
        r.0@.len() == palette@.len(),
        forall|k: int| 0 <= k < palette@.len() ==> #[trigger] r.0@[k]@ == path_of_color(r.1@, k),
        forall|k: int|
            0 <= k < palette@.len() ==> {
                let p = #[trigger] r.0@[k]@;
                &&& p.len() >= 1
                &&& p[0] == 0
                &&& (forall|i: int| 0 <= i < p.len() ==> #[trigger] p[i] < n)
                &&& (forall|i: int| 0 <= i < p.len() - 1 ==> p[i] != #[trigger] p[i + 1])
            },
        r.1@.len() <= max_lines as int,
        forall|t: int|
            0 <= t < r.1@.len() ==> {
                let m = #[trigger] r.1@[t];
                &&& m.color < palette@.len()
                &&& m.from < n
                &&& m.to < n
                &&& m.from != m.to
                &&& m.from == path_of_color(r.1@.take(t), m.color as int).last()
            },
        forall|t: int|
            0 <= t < r.1@.len() ==> #[trigger] multicolor_step_ok(
                *source,
                replay_color(
                    old(canvas).pixels@,
                    source.dimensions.width as int,
                    source.dimensions.height as int,
                    points@,
                    palette@,
                    r.1@.take(t),
                    alpha,
                ),
                points@,
                palette@,
                r.1@.take(t),
                r.1@[t],
                alpha,
            ),
        r.1@.len() < max_lines as int ==> forall|k: int, j: int|
            0 <= k < palette@.len() && 0 <= j < n && j != path_of_color(r.1@, k).last()
                ==> #[trigger] cand_gain(
                *source,
                final(canvas).pixels@,
                points@,
                palette@[k],
                path_of_color(r.1@, k).last() as int,
                j,
                alpha,
            ) <= 0,
{
    let ghost w = source.dimensions.width as int;
    let ghost h = source.dimensions.height as int;
    let ghost start = old(canvas).pixels@;
    if n < 2 {
        let mut trivial: Vec<Vec<usize>> = Vec::new();
        while trivial.len() < palette.len()
            invariant
                trivial@.len() <= palette@.len(),
                forall|k: int| 0 <= k < trivial@.len() ==> #[trigger] trivial@[k]@ == seq![0usize],
            decreases palette@.len() - trivial@.len(),
        {
            let mut pk: Vec<usize> = Vec::new();
            pk.push(0);
            proof {
                assert(pk@ =~= seq![0usize]);
            }
            trivial.push(pk);
        }
        let empty_moves: Vec<Move> = Vec::new();
        proof {
            assert(forall|k: int|
                0 <= k < palette@.len() ==> #[trigger] trivial@[k]@ == path_of_color(
                    empty_moves@,
                    k,
                ));
        }
        return (trivial, empty_moves);
    }
    let mut frontiers: Vec<usize> = Vec::new();
    while frontiers.len() < palette.len()
        invariant
            frontiers@.len() <= palette@.len(),
            forall|k: int| 0 <= k < frontiers@.len() ==> #[trigger] frontiers@[k] == 0,
        decreases palette@.len() - frontiers@.len(),
    {
        frontiers.push(0);
    }
    let mut moves: Vec<Move> = Vec::new();
    let mut iter: usize = 0;
    let mut done: bool = false;
    proof {
        assert(Seq::<Move>::empty().take(0) =~= Seq::<Move>::empty());
    }
    while iter < max_lines && !done
        invariant
            source.wf(),
            canvas.wf(),
            canvas.dimensions == old(canvas).dimensions,
            canvas.dimensions == source.dimensions,
            w == source.dimensions.width as int,
            h == source.dimensions.height as int,
            start == old(canvas).pixels@,
            points@.len() == n,
            2 <= n <= 0x8000,
            palette@.len() >= 1,
            forall|kk: int| 0 <= kk < n ==> coord_ok(#[trigger] points@[kk]),
            frontiers@.len() == palette@.len(),
            forall|k: int| 0 <= k < palette@.len() ==> #[trigger] frontiers@[k] < n,
            forall|k: int|
                0 <= k < palette@.len() ==> #[trigger] frontiers@[k] == path_of_color(
                    moves@,
                    k,
                ).last(),
            iter <= max_lines,
            moves@.len() <= iter as int,
            !done ==> moves@.len() == iter as int,
            canvas.pixels@ == replay_color(start, w, h, points@, palette@, moves@, alpha),
            forall|t: int|
                0 <= t < moves@.len() ==> {
                    let m = #[trigger] moves@[t];
                    &&& m.color < palette@.len()
                    &&& m.from < n
                    &&& m.to < n
                    &&& m.from != m.to
                    &&& m.from == path_of_color(moves@.take(t), m.color as int).last()
                },
            forall|t: int|
                0 <= t < moves@.len() ==> #[trigger] multicolor_step_ok(
                    *source,
                    replay_color(start, w, h, points@, palette@, moves@.take(t), alpha),
                    points@,
                    palette@,
                    moves@.take(t),
                    moves@[t],
                    alpha,
                ),
            done ==> forall|k: int, j: int|
                0 <= k < palette@.len() && 0 <= j < n && j != frontiers@[k] ==> #[trigger] cand_gain(
                    *source,
                    canvas.pixels@,
                    points@,
                    palette@[k],
                    frontiers@[k] as int,
                    j,
                    alpha,
                ) <= 0,
        decreases max_lines - iter,
    {
        let ghost cv0 = *canvas;
        let ghost fr0 = frontiers@;
        let (score, best_color, best_next) = best_global_move(
            points,
            source,
            canvas,
            palette,
            &frontiers,
            n,
            alpha,
        );
        if score <= 0 {
            done = true;
        } else {
            let from: usize = frontiers[best_color];
            let line = bresenham(points[from], points[best_next]);
            let stroke: Rgb = palette[best_color];
            let ghost before = canvas.pixels@;
            let ghost oldmoves = moves@;
            blend_image_with_line(canvas, &line, stroke, alpha);
            let m = Move { color: best_color, from, to: best_next };
            moves.push(m);
            frontiers[best_color] = best_next;
            proof {
                lemma_replay_color_snoc(start, w, h, points@, palette@, oldmoves, m, alpha);
                assert(moves@ =~= oldmoves.push(m));
                assert(moves@.drop_last() =~= oldmoves);
                assert(moves@.take(oldmoves.len() as int) =~= oldmoves);
                assert forall|t: int| 0 <= t < oldmoves.len() implies #[trigger] moves@.take(t)
                    =~= oldmoves.take(t) by {}
                assert forall|k: int| 0 <= k < palette@.len() && k != best_color
                    implies path_of_color(moves@, k) == path_of_color(oldmoves, k) by {}
                assert(path_of_color(moves@, best_color as int) == path_of_color(
                    oldmoves,
                    best_color as int,
                ).push(best_next));
                assert(canvas.pixels@ == replay_color(
                    start,
                    w,
                    h,
                    points@,
                    palette@,
                    moves@,
                    alpha,
                ));
                // Earlier accepted moves keep their greedy certificates.
                assert forall|t: int| 0 <= t < oldmoves.len()
                    implies #[trigger] multicolor_step_ok(
                    *source,
                    replay_color(start, w, h, points@, palette@, moves@.take(t), alpha),
                    points@,
                    palette@,
                    moves@.take(t),
                    moves@[t],
                    alpha,
                ) by {
                    assert(moves@.take(t) =~= oldmoves.take(t));
                    assert(moves@.take(t) == oldmoves.take(t));
                    assert(moves@[t] == oldmoves[t]);
                    assert(multicolor_step_ok(
                        *source,
                        replay_color(start, w, h, points@, palette@, oldmoves.take(t), alpha),
                        points@,
                        palette@,
                        oldmoves.take(t),
                        oldmoves[t],
                        alpha,
                    ));
                }
                // The move just accepted is the globally greedy choice at
                // the canvas the recorded prefix replays to.
                assert(cv0.pixels@ == before);
                assert(before == replay_color(start, w, h, points@, palette@, oldmoves, alpha));
                assert(m.from == fr0[best_color as int]);
                assert forall|k: int, j: int|
                    0 <= k < palette@.len() && 0 <= j < points@.len() && j != path_of_color(
                        oldmoves,
                        k,
                    ).last() implies #[trigger] cand_gain(
                    *source,
                    before,
                    points@,
                    palette@[k],
                    path_of_color(oldmoves, k).last() as int,
                    j,
                    alpha,
                ) <= score as int by {
                    assert(fr0[k] == path_of_color(oldmoves, k).last());
                    assert(cand_gain(
                        *source,
                        cv0.pixels@,
                        points@,
                        palette@[k],
                        fr0[k] as int,
                        j,
                        alpha,
                    ) <= score);
                }
                assert forall|k: int, j: int|
                    0 <= k < m.color && 0 <= j < points@.len() && j != path_of_color(
                        oldmoves,
                        k,
                    ).last() implies #[trigger] cand_gain(
                    *source,
                    before,
                    points@,
                    palette@[k],
                    path_of_color(oldmoves, k).last() as int,
                    j,
                    alpha,
                ) < score as int by {
                    assert(fr0[k] == path_of_color(oldmoves, k).last());
                    assert(cand_gain(
                        *source,
                        cv0.pixels@,
                        points@,
                        palette@[k],
                        fr0[k] as int,
                        j,
                        alpha,
                    ) < score);
                }
                assert forall|j: int|
                    0 <= j < points@.len() && j != m.from && j < m.to implies #[trigger] cand_gain(
                    *source,
                    before,
                    points@,
                    palette@[m.color as int],
                    m.from as int,
                    j,
                    alpha,
                ) < score as int by {
                    assert(cand_gain(
                        *source,
                        cv0.pixels@,
                        points@,
                        palette@[best_color as int],
                        fr0[best_color as int] as int,
                        j,
                        alpha,
                    ) < score);
                }
                assert(multicolor_step_ok(*source, before, points@, palette@, oldmoves, m, alpha));
                assert(moves@.take(oldmoves.len() as int) == oldmoves);
                assert(moves@[oldmoves.len() as int] == m);
            }
        }
        iter = iter + 1;
    }
    let mut paths: Vec<Vec<usize>> = Vec::new();
    let mut k: usize = 0;
    while k < palette.len()
        invariant
            paths@.len() == k as int,
            k <= palette@.len(),
            forall|k2: int| 0 <= k2 < k as int ==> #[trigger] paths@[k2]@ == path_of_color(
                moves@,
                k2,
            ),
        decreases palette@.len() - k,
    {
        let mut pk: Vec<usize> = Vec::new();
        pk.push(0);
        proof {
            assert(moves@.take(0) =~= Seq::<Move>::empty());
            assert(pk@ =~= path_of_color(moves@.take(0), k as int));
        }
        let mut t: usize = 0;
        while t < moves.len()
            invariant
                t <= moves@.len(),
                pk@ == path_of_color(moves@.take(t as int), k as int),
            decreases moves@.len() - t,
        {
            let m = moves[t];
            if m.color == k {
                pk.push(m.to);
            }
            proof {
                assert(moves@.take(t as int + 1).drop_last() =~= moves@.take(t as int));
                assert(moves@.take(t as int + 1).last() == moves@[t as int]);
            }
            t = t + 1;
        }
        proof {
            assert(moves@.take(moves@.len() as int) =~= moves@);
        }
        paths.push(pk);
        k = k + 1;
    }
    proof {
        assert forall|k2: int| 0 <= k2 < palette@.len() implies {
            let p = #[trigger] paths@[k2]@;
            &&& p.len() >= 1
            &&& p[0] == 0
            &&& (forall|i: int| 0 <= i < p.len() ==> #[trigger] p[i] < n)
            &&& (forall|i: int| 0 <= i < p.len() - 1 ==> p[i] != #[trigger] p[i + 1])
        } by {
            lemma_path_of_color_props(moves@, k2, n as int);
        }
        if moves@.len() < max_lines as int {
            assert(done);
            assert forall|k2: int, j: int|
                0 <= k2 < palette@.len() && 0 <= j < n && j != path_of_color(
                    moves@,
                    k2,
                ).last() implies #[trigger] cand_gain(
                *source,
                canvas.pixels@,
                points@,
                palette@[k2],
                path_of_color(moves@, k2).last() as int,
                j,
                alpha,
            ) <= 0 by {
                assert(frontiers@[k2] == path_of_color(moves@, k2).last());
                assert(cand_gain(
                    *source,
                    canvas.pixels@,
                    points@,
                    palette@[k2],
                    frontiers@[k2] as int,
                    j,
                    alpha,
                ) <= 0);
            }
        }
    }
    (paths, moves)
}

} // verus!
