use vstd::prelude::*;

use crate::circle::IntegerPoint;
use crate::image::grid_in_bounds;
use crate::image::grid_index;
use crate::image::lemma_grid_index_bounds;
use crate::image::Image;
use crate::rasterizer::bresenham;
use crate::rasterizer::coord_ok;
use crate::rasterizer::raster_seq;
use crate::rasterizer::seq_pairs;
use crate::scoring::below_quality_threshold;
use crate::scoring::get_line_accuracy;
use crate::scoring::get_line_darkness;
use crate::scoring::is_better_candidate;
use crate::scoring::lemma_line_darkness_bounds;
use crate::scoring::lemma_pair_index_bounds;
use crate::scoring::line_accuracy;
use crate::scoring::line_darkness;
use crate::scoring::line_darkness_at;
use crate::scoring::pair_index;
use crate::scoring::point_to_index;
use crate::scoring::prefer_counts;

verus! {

/// A sample after lightening: the intensity raised by `amount`, saturating
/// at full white instead of wrapping.
pub open spec fn sat_add(a: u8, amount: u8) -> u8 {
    if a + amount > 255 {
        255
    } else {
        (a + amount) as u8
    }
}

/// One raster point's lightening applied to a pixel buffer; a point off
/// the canvas changes nothing.
pub open spec fn lighten_px(
    pixels: Seq<u8>,
    width: int,
    height: int,
    p: (int, int),
    amount: u8,
) -> Seq<u8> {
    if grid_in_bounds(width, height, p) {
        pixels.update(
            grid_index(width, height, p),
            sat_add(pixels[grid_index(width, height, p)], amount),
        )
    } else {
        pixels
    }
}

/// A whole line's lightening, applied point by point in raster order.
pub open spec fn lighten_line(
    pixels: Seq<u8>,
    width: int,
    height: int,
    line: Seq<(int, int)>,
    amount: u8,
) -> Seq<u8>
    decreases line.len(),
{
    if line.len() == 0 {
        pixels
    } else {
        lighten_line(
            lighten_px(pixels, width, height, line.first(), amount),
            width,
            height,
            line.drop_first(),
            amount,
        )
    }
}

/// Lightening one more point at the end of the line is the same as
/// lightening the line and then the point.
proof fn lemma_lighten_line_snoc(
    pixels: Seq<u8>,
    width: int,
    height: int,
    line: Seq<(int, int)>,
    p: (int, int),
    amount: u8,
)
    ensures
        lighten_line(pixels, width, height, line.push(p), amount) == lighten_px(
            lighten_line(pixels, width, height, line, amount),
            width,
            height,
            p,
            amount,
        ),
    decreases line.len(),
{
    if line.len() == 0 {
        assert(line.push(p).first() == p);
        assert(line.push(p).drop_first() =~= Seq::<(int, int)>::empty());
        let stepped = lighten_px(pixels, width, height, p, amount);
        assert(lighten_line(pixels, width, height, line.push(p), amount) == lighten_line(
            stepped,
            width,
            height,
            line.push(p).drop_first(),
            amount,
        ));
        assert(lighten_line(stepped, width, height, line.push(p).drop_first(), amount)
            == stepped);
    } else {
        assert(line.push(p).drop_first() =~= line.drop_first().push(p));
        lemma_lighten_line_snoc(
            lighten_px(pixels, width, height, line.first(), amount),
            width,
            height,
            line.drop_first(),
            p,
            amount,
        );
    }
}

/// Lightening never darkens: every sample of the lightened buffer is at
/// least the sample it replaces.
pub proof fn lemma_lighten_line_pointwise(
    pixels: Seq<u8>,
    width: int,
    height: int,
    line: Seq<(int, int)>,
    amount: u8,
)
    requires
        pixels.len() == width * height,
    ensures
        lighten_line(pixels, width, height, line, amount).len() == pixels.len(),
        forall|i: int|
            0 <= i < pixels.len() ==> #[trigger] lighten_line(
                pixels,
                width,
                height,
                line,
                amount,
            )[i] >= pixels[i],
    decreases line.len(),
{
    if line.len() > 0 {
        let stepped = lighten_px(pixels, width, height, line.first(), amount);
        if grid_in_bounds(width, height, line.first()) {
            lemma_grid_index_bounds(width, height, line.first());
        }
        assert(stepped.len() == pixels.len());
        assert(forall|i: int| 0 <= i < pixels.len() ==> #[trigger] stepped[i] >= pixels[i]);
        lemma_lighten_line_pointwise(stepped, width, height, line.drop_first(), amount);
    }
}

/// The total darkness still unaccounted for in a pixel buffer: the sum of
/// inverted intensities over every sample.
pub open spec fn total_darkness(pixels: Seq<u8>) -> int
    decreases pixels.len(),
{
    if pixels.len() == 0 {
        0
    } else {
        total_darkness(pixels.drop_last()) + (255 - pixels.last())
    }
}

/// A buffer that is pointwise at least as light has at most the total
/// darkness.
proof fn lemma_total_darkness_pointwise(a: Seq<u8>, b: Seq<u8>)
    requires
        a.len() == b.len(),
        forall|i: int| 0 <= i < a.len() ==> #[trigger] b[i] >= a[i],
    ensures
        total_darkness(b) <= total_darkness(a),
    decreases a.len(),
{
    if a.len() > 0 {
        assert(forall|i: int|
            0 <= i < a.drop_last().len() ==> #[trigger] b.drop_last()[i] >= a.drop_last()[i]);
        lemma_total_darkness_pointwise(a.drop_last(), b.drop_last());
    }
}

/// Accepting a line drives the total remaining darkness downward: the
/// lightened buffer never has more total darkness than before.
pub proof fn lemma_lighten_line_darkness(
    pixels: Seq<u8>,
    width: int,
    height: int,
    line: Seq<(int, int)>,
    amount: u8,
)
    requires
        pixels.len() == width * height,
    ensures
        total_darkness(lighten_line(pixels, width, height, line, amount)) <= total_darkness(
            pixels,
        ),
{
    lemma_lighten_line_pointwise(pixels, width, height, line, amount);
    lemma_total_darkness_pointwise(pixels, lighten_line(pixels, width, height, line, amount));
}

/// Applies the accepted line to the remaining-darkness image: every
/// in-bounds point of the line is lightened by `lighten_amount`,
/// saturating at full white.
pub fn lighten_image_with_line(image: &mut Image, line: &Vec<IntegerPoint>, lighten_amount: u8)
    requires
        old(image).wf(),
    ensures
        final(image).wf(),
        final(image).dimensions == old(image).dimensions,
        final(image).pixels@ == lighten_line(
            old(image).pixels@,
            old(image).dimensions.width as int,
            old(image).dimensions.height as int,
            seq_pairs(line@),
            lighten_amount,
        ),
{
    let width: u32 = image.dimensions.width;
    let height: u32 = image.dimensions.height;
    let ghost w = width as int;
    let ghost h = height as int;
    let ghost start = image.pixels@;
    let mut k: usize = 0;
    while k < line.len()
        invariant
            image.wf(),
            image.dimensions == old(image).dimensions,
            width == image.dimensions.width,
            height == image.dimensions.height,
            w == width as int,
            h == height as int,
            start == old(image).pixels@,
            k <= line@.len(),
            image.pixels@ == lighten_line(
                start,
                w,
                h,
                seq_pairs(line@).take(k as int),
                lighten_amount,
            ),
        decreases line@.len() - k,
    {
        let ghost prefix = seq_pairs(line@).take(k as int);
        let p = line[k];
        let ghost pt = (p.x as int, p.y as int);
        if p.x >= 0 && p.y >= 0 && p.x < width as i32 && p.y < height as i32 {
            proof {
                lemma_grid_index_bounds(w, h, pt);
                let rowi = h - 1 - p.y as int;
                assert(0 <= rowi * w && rowi * w + (p.x as int) < 0x4000_0000) by (nonlinear_arith)
                    requires
                        0 <= rowi < h <= 0x8000,
                        0 <= (p.x as int) < w <= 0x8000,
                ;
            }
            let row: usize = (height as usize - 1) - (p.y as usize);
            let idx: usize = row * width as usize + p.x as usize;
            let cur: u8 = image.pixels[idx];
            let lifted: u32 = cur as u32 + lighten_amount as u32;
            let v: u8 = if lifted > 255 {
                255
            } else {
                lifted as u8
            };
            image.pixels[idx] = v;
            proof {
                assert(image.pixels@ == lighten_px(
                    lighten_line(start, w, h, prefix, lighten_amount),
                    w,
                    h,
                    pt,
                    lighten_amount,
                ));
            }
        } else {
            proof {
                assert(image.pixels@ == lighten_px(
                    lighten_line(start, w, h, prefix, lighten_amount),
                    w,
                    h,
                    pt,
                    lighten_amount,
                ));
            }
        }
        proof {
            assert(seq_pairs(line@).take(k as int + 1) =~= prefix.push(pt));
            lemma_lighten_line_snoc(start, w, h, prefix, pt, lighten_amount);
        }
        k = k + 1;
    }
    proof {
        assert(seq_pairs(line@).take(line@.len() as int) =~= seq_pairs(line@));
    }
}

/// The canvas that results from replaying a recorded path, move by move
/// and in recorded order, on a starting pixel buffer.
pub open spec fn replay_gray(
    pixels: Seq<u8>,
    width: int,
    height: int,
    pins: Seq<IntegerPoint>,
    path: Seq<usize>,
    amount: u8,
) -> Seq<u8>
    decreases path.len(),
{
    if path.len() <= 1 {
        pixels
    } else {
        replay_gray(
            lighten_line(
                pixels,
                width,
                height,
                raster_seq(pins[path[0] as int], pins[path[1] as int]),
                amount,
            ),
            width,
            height,
            pins,
            path.drop_first(),
            amount,
        )
    }
}

/// Replaying one more accepted move is the same as replaying the recorded
/// path and then lightening that move's line.
proof fn lemma_replay_gray_snoc(
    pixels: Seq<u8>,
    width: int,
    height: int,
    pins: Seq<IntegerPoint>,
    path: Seq<usize>,
    next: usize,
    amount: u8,
)
    requires
        path.len() >= 1,
    ensures
        replay_gray(pixels, width, height, pins, path.push(next), amount) == lighten_line(
            replay_gray(pixels, width, height, pins, path, amount),
            width,
            height,
            raster_seq(pins[path.last() as int], pins[next as int]),
            amount,
        ),
    decreases path.len(),
{
    let p2 = path.push(next);
    if path.len() == 1 {
        assert(p2[0] == path[0]);
        assert(p2[1] == next);
        assert(p2.drop_first().len() == 1);
        let once = lighten_line(
            pixels,
            width,
            height,
            raster_seq(pins[p2[0] as int], pins[p2[1] as int]),
            amount,
        );
        assert(replay_gray(pixels, width, height, pins, p2, amount) == replay_gray(
            once,
            width,
            height,
            pins,
            p2.drop_first(),
            amount,
        ));
        assert(replay_gray(once, width, height, pins, p2.drop_first(), amount) == once);
        assert(path.last() == path[0]);
    } else {
        assert(p2.drop_first() =~= path.drop_first().push(next));
        let once = lighten_line(
            pixels,
            width,
            height,
            raster_seq(pins[path[0] as int], pins[path[1] as int]),
            amount,
        );
        assert(p2[0] == path[0] && p2[1] == path[1]);
        assert(replay_gray(pixels, width, height, pins, p2, amount) == replay_gray(
            once,
            width,
            height,
            pins,
            path.drop_first().push(next),
            amount,
        ));
        lemma_replay_gray_snoc(once, width, height, pins, path.drop_first(), next, amount);
        assert(path.drop_first().last() == path.last());
        assert(replay_gray(pixels, width, height, pins, path, amount) == replay_gray(
            once,
            width,
            height,
            pins,
            path.drop_first(),
            amount,
        ));
    }
}

/// Replaying a recorded path never raises the total remaining darkness:
/// after any number of accepted moves the canvas-wide darkness sum is at
/// most what it was before them.
pub proof fn lemma_replay_gray_darkness(
    pixels: Seq<u8>,
    width: int,
    height: int,
    pins: Seq<IntegerPoint>,
    path: Seq<usize>,
    amount: u8,
)
    requires
        pixels.len() == width * height,
    ensures
        replay_gray(pixels, width, height, pins, path, amount).len() == pixels.len(),
        total_darkness(replay_gray(pixels, width, height, pins, path, amount)) <= total_darkness(
            pixels,
        ),
    decreases path.len(),
{
    if path.len() > 1 {
        let seg = raster_seq(pins[path[0] as int], pins[path[1] as int]);
        let once = lighten_line(pixels, width, height, seg, amount);
        lemma_lighten_line_pointwise(pixels, width, height, seg, amount);
        lemma_total_darkness_pointwise(pixels, once);
        lemma_replay_gray_darkness(once, width, height, pins, path.drop_first(), amount);
    }
}

/// Each accepted iteration drives the canvas-wide remaining darkness
/// down: replaying one more recorded move never increases the total
/// darkness of the replayed canvas.
pub proof fn lemma_replay_gray_step_darkness(
    pixels: Seq<u8>,
    width: int,
    height: int,
    pins: Seq<IntegerPoint>,
    path: Seq<usize>,
    k: int,
    amount: u8,
)
    requires
        pixels.len() == width * height,
        1 <= k < path.len(),
    ensures
        total_darkness(replay_gray(pixels, width, height, pins, path.take(k + 1), amount))
            <= total_darkness(replay_gray(pixels, width, height, pins, path.take(k), amount)),
{
    assert(path.take(k + 1) =~= path.take(k).push(path[k]));
    lemma_replay_gray_snoc(pixels, width, height, pins, path.take(k), path[k], amount);
    lemma_replay_gray_darkness(pixels, width, height, pins, path.take(k), amount);
    lemma_lighten_line_darkness(
        replay_gray(pixels, width, height, pins, path.take(k), amount),
        width,
        height,
        raster_seq(pins[path.take(k).last() as int], pins[path[k] as int]),
        amount,
    );
}

/// Whether pin `j` is a legal next candidate from pin `current`: another
/// pin whose connecting line has not been drawn yet.
pub open spec fn cand_ok(n: int, visited: Seq<bool>, current: int, j: int) -> bool {
    &&& 0 <= j < n
    &&& j != current
    &&& !visited[pair_index(n, current, j)]
}

/// The darkness-sum score of the candidate line from `current` to `j`.
pub open spec fn cand_score(pins: Seq<IntegerPoint>, img: Image, current: int, j: int) -> int {
    line_darkness(img, raster_seq(pins[current], pins[j]))
}

/// Scans every legal candidate from `current` and returns the best
/// darkness score with its pin. Exactly the greedy choice: the returned
/// pin is the first candidate attaining the maximum score, and the scan
/// falls back to `current` itself exactly when no candidate scores above
/// zero.
pub fn best_candidate(
    points: &Vec<IntegerPoint>,
    image: &Image,
    n: usize,
    current: usize,
    visited: &Vec<bool>,
) -> (r: (u32, usize))
    requires
        image.wf(),
        points@.len() == n,
        n <= 0x8000,
        current < n,
        visited@.len() == n as int * (n as int - 1) / 2,
        forall|k: int| 0 <= k < n ==> coord_ok(#[trigger] points@[k]),
    ensures
        r.1 < n,
        r.1 != current ==> {
            &&& cand_ok(n as int, visited@, current as int, r.1 as int)
            &&& r.0 == cand_score(points@, *image, current as int, r.1 as int)
            &&& r.0 > 0
            &&& forall|j: int|
                cand_ok(n as int, visited@, current as int, j) ==> #[trigger] cand_score(
                    points@,
                    *image,
                    current as int,
                    j,
                ) <= r.0
            &&& forall|j: int|
                cand_ok(n as int, visited@, current as int, j) && j < r.1 ==> #[trigger] cand_score(
                    points@,
                    *image,
                    current as int,
                    j,
                ) < r.0
        },
        r.1 == current ==> r.0 == 0 && forall|j: int|
            cand_ok(n as int, visited@, current as int, j) ==> #[trigger] cand_score(
                points@,
                *image,
                current as int,
                j,
            ) == 0,
{
    let mut best_darkness: u32 = 0;
    let mut best_next: usize = current;
    let mut j: usize = 0;
    while j < n
        invariant
            image.wf(),
            points@.len() == n,
            n <= 0x8000,
            current < n,
            visited@.len() == n as int * (n as int - 1) / 2,
            forall|k: int| 0 <= k < n ==> coord_ok(#[trigger] points@[k]),
            j <= n,
            best_next < n,
            best_next != current ==> {
                &&& cand_ok(n as int, visited@, current as int, best_next as int)
                &&& best_darkness == cand_score(points@, *image, current as int, best_next as int)
                &&& best_darkness > 0
                &&& best_next < j
                &&& forall|jj: int|
                    cand_ok(n as int, visited@, current as int, jj) && jj < j
                        ==> #[trigger] cand_score(points@, *image, current as int, jj)
                        <= best_darkness
                &&& forall|jj: int|
                    cand_ok(n as int, visited@, current as int, jj) && jj < best_next
                        ==> #[trigger] cand_score(points@, *image, current as int, jj)
                        < best_darkness
            },
            best_next == current ==> best_darkness == 0 && forall|jj: int|
                cand_ok(n as int, visited@, current as int, jj) && jj < j
                    ==> #[trigger] cand_score(points@, *image, current as int, jj) == 0,
        decreases n - j,
    {
        if j != current {
            let line_id: usize = point_to_index(n, current, j);
            proof {
                lemma_pair_index_bounds(n as int, current as int, j as int);
            }
            if !visited[line_id] {
                let line = bresenham(points[current], points[j]);
                let darkness = get_line_darkness(&line, image);
                proof {
                    lemma_line_darkness_bounds(*image, raster_seq(points@[current as int], points@[j as int]));
                }
                if darkness > best_darkness {
                    best_darkness = darkness;
                    best_next = j;
                }
            }
        }
        j = j + 1;
    }
    (best_darkness, best_next)
}

/// The classification counts of the candidate line from `current` to
/// `j`: in-bounds ink points and in-bounds blank points.
pub open spec fn cand_counts(pins: Seq<IntegerPoint>, img: Image, current: int, j: int) -> (
    int,
    int,
) {
    line_accuracy(img, raster_seq(pins[current], pins[j]))
}

/// Scans every legal candidate from `current` under the binary
/// classification policy and returns the preferred counts with their
/// pin: strictly more ink hits win, ties fall to strictly fewer blank
/// hits, and the scan falls back to `current` itself exactly when no
/// candidate lands on any ink at all.
pub fn best_candidate_accuracy(
    points: &Vec<IntegerPoint>,
    image: &Image,
    n: usize,
    current: usize,
    visited: &Vec<bool>,
) -> (r: (u32, u32, usize))
    requires
        image.wf(),
        points@.len() == n,
        n <= 0x8000,
        current < n,
        visited@.len() == n as int * (n as int - 1) / 2,
        forall|k: int| 0 <= k < n ==> coord_ok(#[trigger] points@[k]),
    ensures
        r.2 < n,
        r.0 as int + r.1 as int <= 0x80_0000,
        r.2 != current ==> {
            &&& cand_ok(n as int, visited@, current as int, r.2 as int)
            &&& r.0 == cand_counts(points@, *image, current as int, r.2 as int).0
            &&& r.1 == cand_counts(points@, *image, current as int, r.2 as int).1
            &&& r.0 > 0
            &&& forall|j: int|
                cand_ok(n as int, visited@, current as int, j) ==> !prefer_counts(
                    #[trigger] cand_counts(points@, *image, current as int, j).0,
                    cand_counts(points@, *image, current as int, j).1,
                    r.0 as int,
                    r.1 as int,
                )
            &&& forall|j: int|
                cand_ok(n as int, visited@, current as int, j) && j < r.2 ==> prefer_counts(
                    r.0 as int,
                    r.1 as int,
                    #[trigger] cand_counts(points@, *image, current as int, j).0,
                    cand_counts(points@, *image, current as int, j).1,
                )
        },
        r.2 == current ==> r.0 == 0 && r.1 == 0 && forall|j: int|
            cand_ok(n as int, visited@, current as int, j) ==> #[trigger] cand_counts(
                points@,
                *image,
                current as int,
                j,
            ).0 == 0,
{
    let mut best_acc: u32 = 0;
    let mut best_err: u32 = 0;
    let mut best_next: usize = current;
    let mut j: usize = 0;
    while j < n
        invariant
            image.wf(),
            points@.len() == n,
            n <= 0x8000,
            current < n,
            visited@.len() == n as int * (n as int - 1) / 2,
            forall|k: int| 0 <= k < n ==> coord_ok(#[trigger] points@[k]),
            j <= n,
            best_next < n,
            best_acc as int + best_err as int <= 0x80_0000,
            best_next != current ==> {
                &&& cand_ok(n as int, visited@, current as int, best_next as int)
                &&& best_acc == cand_counts(points@, *image, current as int, best_next as int).0
                &&& best_err == cand_counts(points@, *image, current as int, best_next as int).1
                &&& best_acc > 0
                &&& best_next < j
                &&& forall|jj: int|
                    cand_ok(n as int, visited@, current as int, jj) && jj < j ==> !prefer_counts(
                        #[trigger] cand_counts(points@, *image, current as int, jj).0,
                        cand_counts(points@, *image, current as int, jj).1,
                        best_acc as int,
                        best_err as int,
                    )
                &&& forall|jj: int|
                    cand_ok(n as int, visited@, current as int, jj) && jj < best_next
                        ==> prefer_counts(
                        best_acc as int,
                        best_err as int,
                        #[trigger] cand_counts(points@, *image, current as int, jj).0,
                        cand_counts(points@, *image, current as int, jj).1,
                    )
            },
            best_next == current ==> best_acc == 0 && best_err == 0 && forall|jj: int|
                cand_ok(n as int, visited@, current as int, jj) && jj < j
                    ==> #[trigger] cand_counts(points@, *image, current as int, jj).0 == 0,
        decreases n - j,
    {
        if j != current {
            let line_id: usize = point_to_index(n, current, j);
            proof {
                lemma_pair_index_bounds(n as int, current as int, j as int);
            }
            if !visited[line_id] {
                let line = bresenham(points[current], points[j]);
                let (acc, err) = get_line_accuracy(&line, image);
                if is_better_candidate(acc, err, best_acc, best_err) {
                    best_acc = acc;
                    best_err = err;
                    best_next = j;
                }
            }
        }
        j = j + 1;
    }
    (best_acc, best_err, best_next)
}

/// One accepted move of the binary classification loop is the greedy
/// choice: the accepted pin is a legal candidate after the recorded
/// `prefix`, lands on at least one ink point, is not below the quality
/// floor, no other legal candidate is strictly preferred over it, and it
/// is strictly preferred over every smaller-numbered candidate.
pub open spec fn accuracy_step_ok(
    pins: Seq<IntegerPoint>,
    img: Image,
    n: int,
    prefix: Seq<usize>,
    next: usize,
    num: u32,
    den: u32,
) -> bool {
    let c = cand_counts(pins, img, prefix.last() as int, next as int);
    &&& path_cand_ok(n, prefix, next as int)
    &&& c.0 > 0
    &&& !((c.0 * den as int) < num as int * (c.0 + c.1))
    &&& forall|j: int|
        path_cand_ok(n, prefix, j) ==> !prefer_counts(
            #[trigger] cand_counts(pins, img, prefix.last() as int, j).0,
            cand_counts(pins, img, prefix.last() as int, j).1,
            c.0,
            c.1,
        )
    &&& forall|j: int|
        path_cand_ok(n, prefix, j) && j < next ==> prefer_counts(
            c.0,
            c.1,
            #[trigger] cand_counts(pins, img, prefix.last() as int, j).0,
            cand_counts(pins, img, prefix.last() as int, j).1,
        )
}

/// Why the binary classification mode stopped short of its budget:
/// either no remaining candidate lands on any ink, or some candidate is
/// preferred over every other and its ink ratio still falls strictly
/// below the quality floor `num / den`.
pub open spec fn accuracy_halted(
    pins: Seq<IntegerPoint>,
    img: Image,
    n: int,
    path: Seq<usize>,
    num: u32,
    den: u32,
) -> bool {
    ||| forall|j: int|
        path_cand_ok(n, path, j) ==> #[trigger] cand_counts(pins, img, path.last() as int, j).0
            == 0
    ||| exists|j0: int|
        {
            &&& #[trigger] path_cand_ok(n, path, j0)
            &&& (forall|j: int|
                path_cand_ok(n, path, j) ==> !prefer_counts(
                    #[trigger] cand_counts(pins, img, path.last() as int, j).0,
                    cand_counts(pins, img, path.last() as int, j).1,
                    cand_counts(pins, img, path.last() as int, j0).0,
                    cand_counts(pins, img, path.last() as int, j0).1,
                ))
            &&& (cand_counts(pins, img, path.last() as int, j0).0 * den as int) < num as int
                * (cand_counts(pins, img, path.last() as int, j0).0 + cand_counts(
                pins,
                img,
                path.last() as int,
                j0,
            ).1)
        }
}

/// The greedy single-path optimizer of the binary classification mode:
/// starting from pin 0, repeatedly picks the unused line out of the
/// current pin that lands on the most ink (ties to the fewest blank
/// points), and halts when no candidate lands on ink, when the best
/// candidate's ink ratio falls strictly below the quality floor
/// `threshold_num / threshold_den`, or when the line budget runs out.
/// The raster itself is only read. A run with no pins at all does
/// nothing and yields the empty path.
pub fn solve_accuracy(
    points: &Vec<IntegerPoint>,
    image: &Image,
    n: usize,
    max_lines: usize,
    threshold_num: u32,
    threshold_den: u32,
) -> (path: Vec<usize>)
    requires
        image.wf(),
        points@.len() == n,
        n <= 0x8000,
        threshold_num <= 1000,
        threshold_den <= 1000,
        forall|k: int| 0 <= k < n ==> coord_ok(#[trigger] points@[k]),
    ensures
        n == 0 ==> path@.len() == 0,
        n >= 1 ==> path@.len() >= 1 && path@[0] == 0,
        path@.len() <= max_lines as int + 1,
        forall|k: int|
            1 <= k < path@.len() ==> #[trigger] accuracy_step_ok(
                points@,
                *image,
                n as int,
                path@.take(k),
                path@[k],
                threshold_num,
                threshold_den,
            ),
        forall|i: int| 0 <= i < path@.len() ==> #[trigger] path@[i] < n,
        forall|i: int| 0 <= i < path@.len() - 1 ==> path@[i] != #[trigger] path@[i + 1],
        forall|i: int, j: int|
            #![trigger path_line_id(n as int, path@, i), path_line_id(n as int, path@, j)]
            0 <= i < j < path@.len() - 1 ==> path_line_id(n as int, path@, i) != path_line_id(
                n as int,
                path@,
                j,
            ),
        path@.len() < max_lines as int + 1 ==> accuracy_halted(
            points@,
            *image,
            n as int,
            path@,
            threshold_num,
            threshold_den,
        ),
{
    if n == 0 {
        let empty: Vec<usize> = Vec::new();
        return empty;
    }
    let mut current: usize = 0;
    let mut path: Vec<usize> = Vec::new();
    path.push(0);
    proof {
        assert((n * (n - 1)) < 0x4000_0000) by (nonlinear_arith)
            requires
                1 <= n <= 0x8000,
        ;
    }
    let table: usize = n * (n - 1) / 2;
    let mut visited: Vec<bool> = Vec::new();
    while visited.len() < table
        invariant
            visited@.len() <= table,
            forall|i: int| 0 <= i < visited@.len() ==> #[trigger] visited@[i] == false,
        decreases table - visited@.len(),
    {
        visited.push(false);
    }
    let mut iter: usize = 0;
    let mut done: bool = false;
    while iter < max_lines && !done
        invariant
            image.wf(),
            points@.len() == n,
            1 <= n <= 0x8000,
            threshold_num <= 1000,
            threshold_den <= 1000,
            forall|k: int| 0 <= k < n ==> coord_ok(#[trigger] points@[k]),
            visited@.len() == n as int * (n as int - 1) / 2,
            current < n,
            iter <= max_lines,
            path@.len() >= 1,
            path@[0] == 0,
            path@.last() == current,
            path@.len() <= iter as int + 1,
            forall|i: int| 0 <= i < path@.len() ==> #[trigger] path@[i] < n,
            forall|i: int| 0 <= i < path@.len() - 1 ==> path@[i] != #[trigger] path@[i + 1],
            forall|i: int|
                0 <= i < path@.len() - 1 ==> visited@[#[trigger] path_line_id(n as int, path@, i)],
            forall|i: int|
                0 <= i < path@.len() - 1 ==> 0 <= #[trigger] path_line_id(n as int, path@, i)
                    < visited@.len(),
            forall|i: int, j: int|
                #![trigger path_line_id(n as int, path@, i), path_line_id(n as int, path@, j)]
                0 <= i < j < path@.len() - 1 ==> path_line_id(n as int, path@, i) != path_line_id(
                    n as int,
                    path@,
                    j,
                ),
            !done ==> path@.len() == iter as int + 1,
            forall|s: int|
                0 <= s < visited@.len() ==> (#[trigger] visited@[s] <==> exists|t: int|
                    0 <= t < path@.len() - 1 && #[trigger] path_line_id(n as int, path@, t) == s),
            forall|k: int|
                1 <= k < path@.len() ==> #[trigger] accuracy_step_ok(
                    points@,
                    *image,
                    n as int,
                    path@.take(k),
                    path@[k],
                    threshold_num,
                    threshold_den,
                ),
            done ==> accuracy_halted(points@, *image, n as int, path@, threshold_num, threshold_den),
        decreases max_lines - iter,
    {
        let (acc, err, next) = best_candidate_accuracy(points, image, n, current, &visited);
        if next == current {
            proof {
                assert forall|j: int| path_cand_ok(n as int, path@, j) implies #[trigger] cand_counts(
                    points@,
                    *image,
                    path@.last() as int,
                    j,
                ).0 == 0 by {
                    lemma_pair_index_bounds(n as int, current as int, j);
                    let pid = pair_index(n as int, current as int, j);
                    if visited@[pid] {
                        let t = choose|t: int|
                            0 <= t < path@.len() - 1 && #[trigger] path_line_id(
                                n as int,
                                path@,
                                t,
                            ) == pid;
                        assert(false);
                    }
                    assert(cand_ok(n as int, visited@, current as int, j));
                }
            }
            done = true;
        } else if below_quality_threshold(acc, err, threshold_num, threshold_den) {
            proof {
                assert(path_cand_ok(n as int, path@, next as int)) by {
                    assert forall|t: int| 0 <= t < path@.len() - 1 implies pair_index(
                        n as int,
                        path@.last() as int,
                        next as int,
                    ) != #[trigger] path_line_id(n as int, path@, t) by {
                        assert(visited@[path_line_id(n as int, path@, t)]);
                    }
                }
                assert forall|j: int| path_cand_ok(n as int, path@, j) implies !prefer_counts(
                    #[trigger] cand_counts(points@, *image, path@.last() as int, j).0,
                    cand_counts(points@, *image, path@.last() as int, j).1,
                    cand_counts(points@, *image, path@.last() as int, next as int).0,
                    cand_counts(points@, *image, path@.last() as int, next as int).1,
                ) by {
                    lemma_pair_index_bounds(n as int, current as int, j);
                    let pid = pair_index(n as int, current as int, j);
                    if visited@[pid] {
                        let t = choose|t: int|
                            0 <= t < path@.len() - 1 && #[trigger] path_line_id(
                                n as int,
                                path@,
                                t,
                            ) == pid;
                        assert(false);
                    }
                    assert(cand_ok(n as int, visited@, current as int, j));
                }
                assert(accuracy_halted(
                    points@,
                    *image,
                    n as int,
                    path@,
                    threshold_num,
                    threshold_den,
                ));
            }
            done = true;
        } else {
            let ghost oldp = path@;
            let ghost vis_before = visited@;
            let line_id: usize = point_to_index(n, current, next);
            visited[line_id] = true;
            path.push(next);
            proof {
                lemma_pair_index_bounds(n as int, current as int, next as int);
                assert(path@ =~= oldp.push(next));
                assert forall|i: int| 0 <= i < oldp.len() - 1 implies #[trigger] path_line_id(
                    n as int,
                    path@,
                    i,
                ) == path_line_id(n as int, oldp, i) by {
                    assert(path@[i] == oldp[i] && path@[i + 1] == oldp[i + 1]);
                }
                assert(path_line_id(n as int, path@, oldp.len() - 1) == line_id as int);
                assert(forall|i: int|
                    0 <= i < oldp.len() - 1 ==> vis_before[#[trigger] path_line_id(
                        n as int,
                        oldp,
                        i,
                    )]);
                assert(!vis_before[line_id as int]);
                assert forall|s: int| 0 <= s < visited@.len() implies (#[trigger] visited@[s]
                    <==> exists|t: int|
                    0 <= t < path@.len() - 1 && #[trigger] path_line_id(n as int, path@, t)
                        == s) by {
                    if s == line_id as int {
                        assert(path_line_id(n as int, path@, oldp.len() - 1) == s);
                        assert(visited@[s]);
                    } else {
                        assert(visited@[s] == vis_before[s]);
                        if vis_before[s] {
                            let t = choose|t: int|
                                0 <= t < oldp.len() - 1 && #[trigger] path_line_id(
                                    n as int,
                                    oldp,
                                    t,
                                ) == s;
                            assert(path@[t] == oldp[t] && path@[t + 1] == oldp[t + 1]);
                            assert(path_line_id(n as int, path@, t) == s);
                        }
                        if exists|t: int|
                            0 <= t < path@.len() - 1 && #[trigger] path_line_id(
                                n as int,
                                path@,
                                t,
                            ) == s {
                            let t = choose|t: int|
                                0 <= t < path@.len() - 1 && #[trigger] path_line_id(
                                    n as int,
                                    path@,
                                    t,
                                ) == s;
                            if t < oldp.len() - 1 {
                                assert(path@[t] == oldp[t] && path@[t + 1] == oldp[t + 1]);
                                assert(path_line_id(n as int, oldp, t) == s);
                                assert(vis_before[s]);
                            } else {
                                assert(path_line_id(n as int, path@, oldp.len() - 1) == s);
                                assert(false);
                            }
                        }
                    }
                }
                // Earlier accepted moves keep their greedy certificates.
                assert forall|k: int| 1 <= k < oldp.len() implies #[trigger] accuracy_step_ok(
                    points@,
                    *image,
                    n as int,
                    path@.take(k),
                    path@[k],
                    threshold_num,
                    threshold_den,
                ) by {
                    assert(path@.take(k) =~= oldp.take(k));
                    assert(path@.take(k) == oldp.take(k));
                    assert(path@[k] == oldp[k]);
                    assert(accuracy_step_ok(
                        points@,
                        *image,
                        n as int,
                        oldp.take(k),
                        oldp[k],
                        threshold_num,
                        threshold_den,
                    ));
                }
                // The move just accepted is the greedy choice under the
                // classification preference, at or above the quality floor.
                assert(oldp.last() == current);
                assert forall|t: int| 0 <= t < oldp.len() - 1 implies pair_index(
                    n as int,
                    oldp.last() as int,
                    next as int,
                ) != #[trigger] path_line_id(n as int, oldp, t) by {
                    assert(vis_before[path_line_id(n as int, oldp, t)]);
                }
                assert(path_cand_ok(n as int, oldp, next as int));
                assert forall|j: int| path_cand_ok(n as int, oldp, j) implies !prefer_counts(
                    #[trigger] cand_counts(points@, *image, oldp.last() as int, j).0,
                    cand_counts(points@, *image, oldp.last() as int, j).1,
                    cand_counts(points@, *image, oldp.last() as int, next as int).0,
                    cand_counts(points@, *image, oldp.last() as int, next as int).1,
                ) by {
                    lemma_pair_index_bounds(n as int, current as int, j);
                    let pid = pair_index(n as int, current as int, j);
                    if vis_before[pid] {
                        let t = choose|t: int|
                            0 <= t < oldp.len() - 1 && #[trigger] path_line_id(
                                n as int,
                                oldp,
                                t,
                            ) == pid;
                        assert(false);
                    }
                    assert(cand_ok(n as int, vis_before, current as int, j));
                }
                assert forall|j: int| path_cand_ok(n as int, oldp, j) && j < next
                    implies prefer_counts(
                    cand_counts(points@, *image, oldp.last() as int, next as int).0,
                    cand_counts(points@, *image, oldp.last() as int, next as int).1,
                    #[trigger] cand_counts(points@, *image, oldp.last() as int, j).0,
                    cand_counts(points@, *image, oldp.last() as int, j).1,
                ) by {
                    lemma_pair_index_bounds(n as int, current as int, j);
                    let pid = pair_index(n as int, current as int, j);
                    if vis_before[pid] {
                        let t = choose|t: int|
                            0 <= t < oldp.len() - 1 && #[trigger] path_line_id(
                                n as int,
                                oldp,
                                t,
                            ) == pid;
                        assert(false);
                    }
                    assert(cand_ok(n as int, vis_before, current as int, j));
                }
                assert(accuracy_step_ok(
                    points@,
                    *image,
                    n as int,
                    oldp,
                    next,
                    threshold_num,
                    threshold_den,
                ));
                assert(path@.take(oldp.len() as int) =~= oldp);
                assert(path@.take(oldp.len() as int) == oldp);
                assert(path@[oldp.len() as int] == next);
            }
            current = next;
        }
        iter = iter + 1;
    }
    proof {
        if path@.len() < max_lines as int + 1 {
            assert(done);
        }
    }
    path
}

/// The canonical slot of the `i`-th line of a recorded path: the pair
/// slot of its two consecutive pins.
pub open spec fn path_line_id(n: int, path: Seq<usize>, i: int) -> int {
    pair_index(n, path[i] as int, path[i + 1] as int)
}

/// Whether pin `j` is still a legal next candidate once a recorded path
/// ends: another pin than the path's last, whose connecting line none of
/// the recorded moves has drawn.
pub open spec fn path_cand_ok(n: int, path: Seq<usize>, j: int) -> bool {
    &&& 0 <= j < n
    &&& j != path.last()
    &&& forall|t: int|
        0 <= t < path.len() - 1 ==> pair_index(n, path.last() as int, j) != #[trigger] path_line_id(
            n,
            path,
            t,
        )
}

/// One accepted move of the darkness-mode loop is the greedy choice: at
/// the canvas reached by replaying the recorded `prefix`, the accepted
/// pin is a legal candidate whose darkness score is strictly positive,
/// at least every other legal candidate's, and strictly above every
/// smaller-numbered candidate's (ties fall to the lowest pin).
pub open spec fn greedy_step_ok(
    start: Seq<u8>,
    width: int,
    height: int,
    n: int,
    pins: Seq<IntegerPoint>,
    prefix: Seq<usize>,
    next: usize,
    amount: u8,
) -> bool {
    let canvas = replay_gray(start, width, height, pins, prefix, amount);
    let s = line_darkness_at(
        canvas,
        width,
        height,
        raster_seq(pins[prefix.last() as int], pins[next as int]),
    );
    &&& path_cand_ok(n, prefix, next as int)
    &&& s > 0
    &&& forall|j: int|
        path_cand_ok(n, prefix, j) ==> #[trigger] line_darkness_at(
            canvas,
            width,
            height,
            raster_seq(pins[prefix.last() as int], pins[j]),
        ) <= s
    &&& forall|j: int|
        path_cand_ok(n, prefix, j) && j < next ==> #[trigger] line_darkness_at(
            canvas,
            width,
            height,
            raster_seq(pins[prefix.last() as int], pins[j]),
        ) < s
}

/// The greedy single-path optimizer: starting from pin 0, repeatedly
/// rasterizes every unused line out of the current pin, scores it by
/// darkness-sum, and accepts the best-scoring line, lightening the
/// remaining-darkness image under it, until no candidate scores above
/// zero or the line budget runs out. A run with no pins at all does
/// nothing and yields the empty path.
///
/// The returned path records every accepted move in order: replaying it
/// on the starting image reproduces the final image exactly, the path
/// starts at pin 0, never repeats a pin back-to-back, and never draws the
/// same unordered line twice.
pub fn solve(
    points: &Vec<IntegerPoint>,
    image: &mut Image,
    n: usize,
    max_lines: usize,
    lighten_amount: u8,
) -> (path: Vec<usize>)
    requires
        old(image).wf(),
        points@.len() == n,
        n <= 0x8000,
        forall|k: int| 0 <= k < n ==> coord_ok(#[trigger] points@[k]),
    ensures
        final(image).wf(),
        final(image).dimensions == old(image).dimensions,
        final(image).pixels@ == replay_gray(
            old(image).pixels@,
            old(image).dimensions.width as int,
            old(image).dimensions.height as int,
            points@,
            path@,
            lighten_amount,
        ),
        n == 0 ==> path@.len() == 0,
        n >= 1 ==> path@.len() >= 1 && path@[0] == 0,
        path@.len() <= max_lines as int + 1,
        forall|k: int|
            1 <= k < path@.len() ==> #[trigger] greedy_step_ok(
                old(image).pixels@,
                old(image).dimensions.width as int,
                old(image).dimensions.height as int,
                n as int,
                points@,
                path@.take(k),
                path@[k],
                lighten_amount,
            ),
        forall|i: int| 0 <= i < path@.len() ==> #[trigger] path@[i] < n,
        forall|i: int| 0 <= i < path@.len() - 1 ==> path@[i] != #[trigger] path@[i + 1],
        forall|i: int, j: int|
            #![trigger path_line_id(n as int, path@, i), path_line_id(n as int, path@, j)]
            0 <= i < j < path@.len() - 1 ==> path_line_id(n as int, path@, i) != path_line_id(
                n as int,
                path@,
                j,
            ),
        path@.len() < max_lines as int + 1 ==> forall|j: int|
            path_cand_ok(n as int, path@, j) ==> #[trigger] cand_score(
                points@,
                *final(image),
                path@.last() as int,
                j,
            ) == 0,
{
    let ghost w = old(image).dimensions.width as int;
    let ghost h = old(image).dimensions.height as int;
    let ghost start = old(image).pixels@;
    if n == 0 {
        let empty: Vec<usize> = Vec::new();
        return empty;
    }
    let mut current: usize = 0;
    let mut path: Vec<usize> = Vec::new();
    path.push(0);
    proof {
        assert((n * (n - 1)) < 0x4000_0000) by (nonlinear_arith)
            requires
                1 <= n <= 0x8000,
        ;
    }
    let table: usize = n * (n - 1) / 2;
    let mut visited: Vec<bool> = Vec::new();
    while visited.len() < table
        invariant
            visited@.len() <= table,
            forall|i: int| 0 <= i < visited@.len() ==> #[trigger] visited@[i] == false,
        decreases table - visited@.len(),
    {
        visited.push(false);
    }
    let mut iter: usize = 0;
    let mut done: bool = false;
    while iter < max_lines && !done
        invariant
            image.wf(),
            image.dimensions == old(image).dimensions,
            w == old(image).dimensions.width as int,
            h == old(image).dimensions.height as int,
            start == old(image).pixels@,
            points@.len() == n,
            1 <= n <= 0x8000,
            forall|k: int| 0 <= k < n ==> coord_ok(#[trigger] points@[k]),
            visited@.len() == n as int * (n as int - 1) / 2,
            current < n,
            iter <= max_lines,
            path@.len() >= 1,
            path@[0] == 0,
            path@.last() == current,
            path@.len() <= iter as int + 1,
            forall|i: int| 0 <= i < path@.len() ==> #[trigger] path@[i] < n,
            forall|i: int| 0 <= i < path@.len() - 1 ==> path@[i] != #[trigger] path@[i + 1],
            forall|i: int|
                0 <= i < path@.len() - 1 ==> visited@[#[trigger] path_line_id(n as int, path@, i)],
            forall|i: int|
                0 <= i < path@.len() - 1 ==> 0 <= #[trigger] path_line_id(n as int, path@, i)
                    < visited@.len(),
            forall|i: int, j: int|
                #![trigger path_line_id(n as int, path@, i), path_line_id(n as int, path@, j)]
                0 <= i < j < path@.len() - 1 ==> path_line_id(n as int, path@, i) != path_line_id(
                    n as int,
                    path@,
                    j,
                ),
            image.pixels@ == replay_gray(start, w, h, points@, path@, lighten_amount),
            forall|k: int|
                1 <= k < path@.len() ==> #[trigger] greedy_step_ok(
                    start,
                    w,
                    h,
                    n as int,
                    points@,
                    path@.take(k),
                    path@[k],
                    lighten_amount,
                ),
            !done ==> path@.len() == iter as int + 1,
            forall|s: int|
                0 <= s < visited@.len() ==> (#[trigger] visited@[s] <==> exists|t: int|
                    0 <= t < path@.len() - 1 && #[trigger] path_line_id(n as int, path@, t) == s),
            done ==> forall|j: int|
                path_cand_ok(n as int, path@, j) ==> #[trigger] cand_score(
                    points@,
                    *image,
                    path@.last() as int,
                    j,
                ) == 0,
        decreases max_lines - iter,
    {
        let ghost img0 = *image;
        let (_best, next) = best_candidate(points, image, n, current, &visited);
        if next == current {
            proof {
                assert forall|j: int| path_cand_ok(n as int, path@, j) implies #[trigger] cand_score(
                    points@,
                    *image,
                    path@.last() as int,
                    j,
                ) == 0 by {
                    lemma_pair_index_bounds(n as int, current as int, j);
                    let pid = pair_index(n as int, current as int, j);
                    if visited@[pid] {
                        let t = choose|t: int|
                            0 <= t < path@.len() - 1 && #[trigger] path_line_id(
                                n as int,
                                path@,
                                t,
                            ) == pid;
                        assert(false);
                    }
                    assert(cand_ok(n as int, visited@, current as int, j));
                }
            }
            done = true;
        } else {
            let ghost oldp = path@;
            let ghost vis_before = visited@;
            let final_line = bresenham(points[current], points[next]);
            lighten_image_with_line(image, &final_line, lighten_amount);
            let line_id: usize = point_to_index(n, current, next);
            visited[line_id] = true;
            path.push(next);
            proof {
                lemma_pair_index_bounds(n as int, current as int, next as int);
                lemma_replay_gray_snoc(start, w, h, points@, oldp, next, lighten_amount);
                assert(oldp.last() == oldp[oldp.len() - 1]);
                assert(path@ =~= oldp.push(next));
                assert(image.pixels@ == replay_gray(start, w, h, points@, path@, lighten_amount));
                // The line ids of the old moves are untouched by the push.
                assert forall|i: int| 0 <= i < oldp.len() - 1 implies #[trigger] path_line_id(
                    n as int,
                    path@,
                    i,
                ) == path_line_id(n as int, oldp, i) by {
                    assert(path@[i] == oldp[i] && path@[i + 1] == oldp[i + 1]);
                }
                // The accepted line occupies the slot just marked used.
                assert(path_line_id(n as int, path@, oldp.len() - 1) == line_id as int);
                // Every old line keeps its mark, and the new line was unused
                // before this iteration, so no slot repeats.
                assert(forall|i: int|
                    0 <= i < oldp.len() - 1 ==> vis_before[#[trigger] path_line_id(
                        n as int,
                        oldp,
                        i,
                    )]);
                assert(!vis_before[line_id as int]);
                assert forall|s: int| 0 <= s < visited@.len() implies (#[trigger] visited@[s]
                    <==> exists|t: int|
                    0 <= t < path@.len() - 1 && #[trigger] path_line_id(n as int, path@, t)
                        == s) by {
                    if s == line_id as int {
                        assert(path_line_id(n as int, path@, oldp.len() - 1) == s);
                        assert(visited@[s]);
                    } else {
                        assert(visited@[s] == vis_before[s]);
                        if vis_before[s] {
                            let t = choose|t: int|
                                0 <= t < oldp.len() - 1 && #[trigger] path_line_id(
                                    n as int,
                                    oldp,
                                    t,
                                ) == s;
                            assert(path@[t] == oldp[t] && path@[t + 1] == oldp[t + 1]);
                            assert(path_line_id(n as int, path@, t) == s);
                        }
                        if exists|t: int|
                            0 <= t < path@.len() - 1 && #[trigger] path_line_id(
                                n as int,
                                path@,
                                t,
                            ) == s {
                            let t = choose|t: int|
                                0 <= t < path@.len() - 1 && #[trigger] path_line_id(
                                    n as int,
                                    path@,
                                    t,
                                ) == s;
                            if t < oldp.len() - 1 {
                                assert(path@[t] == oldp[t] && path@[t + 1] == oldp[t + 1]);
                                assert(path_line_id(n as int, oldp, t) == s);
                                assert(vis_before[s]);
                            } else {
                                assert(path_line_id(n as int, path@, oldp.len() - 1) == s);
                                assert(false);
                            }
                        }
                    }
                }
                // Earlier accepted moves keep their greedy certificates.
                assert forall|k: int| 1 <= k < oldp.len() implies #[trigger] greedy_step_ok(
                    start,
                    w,
                    h,
                    n as int,
                    points@,
                    path@.take(k),
                    path@[k],
                    lighten_amount,
                ) by {
                    assert(path@.take(k) =~= oldp.take(k));
                    assert(path@.take(k) == oldp.take(k));
                    assert(path@[k] == oldp[k]);
                    assert(greedy_step_ok(
                        start,
                        w,
                        h,
                        n as int,
                        points@,
                        oldp.take(k),
                        oldp[k],
                        lighten_amount,
                    ));
                }
                // The move just accepted is the greedy choice at the canvas
                // that the recorded prefix replays to.
                let canvas0 = img0.pixels@;
                assert(canvas0 == replay_gray(start, w, h, points@, oldp, lighten_amount));
                assert(img0.dimensions.width as int == w && img0.dimensions.height as int == h);
                let s = line_darkness_at(
                    canvas0,
                    w,
                    h,
                    raster_seq(points@[oldp.last() as int], points@[next as int]),
                );
                assert(oldp.last() == current);
                assert(s == cand_score(points@, img0, current as int, next as int));
                assert(s == _best as int);
                assert(s > 0);
                assert forall|t: int| 0 <= t < oldp.len() - 1 implies pair_index(
                    n as int,
                    oldp.last() as int,
                    next as int,
                ) != #[trigger] path_line_id(n as int, oldp, t) by {
                    assert(vis_before[path_line_id(n as int, oldp, t)]);
                }
                assert(path_cand_ok(n as int, oldp, next as int));
                assert forall|j: int| path_cand_ok(n as int, oldp, j)
                    implies #[trigger] line_darkness_at(
                    canvas0,
                    w,
                    h,
                    raster_seq(points@[oldp.last() as int], points@[j]),
                ) <= s by {
                    lemma_pair_index_bounds(n as int, current as int, j);
                    let pid = pair_index(n as int, current as int, j);
                    if vis_before[pid] {
                        let t = choose|t: int|
                            0 <= t < oldp.len() - 1 && #[trigger] path_line_id(
                                n as int,
                                oldp,
                                t,
                            ) == pid;
                        assert(false);
                    }
                    assert(cand_ok(n as int, vis_before, current as int, j));
                    assert(cand_score(points@, img0, current as int, j) <= _best);
                    assert(line_darkness_at(
                        canvas0,
                        w,
                        h,
                        raster_seq(points@[oldp.last() as int], points@[j]),
                    ) == cand_score(points@, img0, current as int, j));
                }
                assert forall|j: int| path_cand_ok(n as int, oldp, j) && j < next
                    implies #[trigger] line_darkness_at(
                    canvas0,
                    w,
                    h,
                    raster_seq(points@[oldp.last() as int], points@[j]),
                ) < s by {
                    lemma_pair_index_bounds(n as int, current as int, j);
                    let pid = pair_index(n as int, current as int, j);
                    if vis_before[pid] {
                        let t = choose|t: int|
                            0 <= t < oldp.len() - 1 && #[trigger] path_line_id(
                                n as int,
                                oldp,
                                t,
                            ) == pid;
                        assert(false);
                    }
                    assert(cand_ok(n as int, vis_before, current as int, j));
                    assert(cand_score(points@, img0, current as int, j) < _best);
                    assert(line_darkness_at(
                        canvas0,
                        w,
                        h,
                        raster_seq(points@[oldp.last() as int], points@[j]),
                    ) == cand_score(points@, img0, current as int, j));
                }
                assert(greedy_step_ok(start, w, h, n as int, points@, oldp, next, lighten_amount));
                assert(path@.take(oldp.len() as int) =~= oldp);
                assert(path@.take(oldp.len() as int) == oldp);
                assert(path@[oldp.len() as int] == next);
            }
            current = next;
        }
        iter = iter + 1;
    }
    proof {
        if path@.len() < max_lines as int + 1 {
            assert(done);
        }
    }
    path
}

} // verus!
