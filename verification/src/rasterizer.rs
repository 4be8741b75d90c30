use vstd::prelude::*;

use crate::circle::IntegerPoint;

verus! {

/// Coordinates the rasterizer accepts. The bound keeps every intermediate
/// value of the error accumulator comfortably inside `i64`.
pub open spec fn coord_ok(p: IntegerPoint) -> bool {
    &&& -0x10_0000 <= p.x <= 0x10_0000
    &&& -0x10_0000 <= p.y <= 0x10_0000
}

/// Absolute difference of two coordinates.
pub open spec fn absd(a: int, b: int) -> int {
    if a < b {
        b - a
    } else {
        a - b
    }
}

/// Step direction from `a` toward `b`, matching the convention of the
/// walk: `1` when `a < b`, `-1` otherwise (a zero delta never steps).
pub open spec fn sgn(a: int, b: int) -> int {
    if a < b {
        1
    } else {
        -1
    }
}

/// Remaining steps of the walk along both axes.
pub open spec fn walk_measure(x: int, y: int, x2: int, y2: int, sx: int, sy: int) -> int {
    sx * (x2 - x) + sy * (y2 - y)
}

/// The walk's state invariant: the current point lies between start and end
/// on both axes, and the error accumulator equals its closed form in the
/// number of steps already taken on each axis.
pub open spec fn walk_inv(
    x: int,
    y: int,
    err: int,
    x2: int,
    y2: int,
    sx: int,
    sy: int,
    dx: int,
    dy: int,
) -> bool {
    &&& (sx == 1 || sx == -1)
    &&& (sy == 1 || sy == -1)
    &&& dx >= 0
    &&& dy >= 0
    &&& 0 <= sx * (x2 - x) <= dx
    &&& 0 <= sy * (y2 - y) <= dy
    &&& err == dx * (1 + dy - sy * (y2 - y)) - dy * (1 + dx - sx * (x2 - x))
}

/// Next x coordinate of one walk step.
pub open spec fn step_x(x: int, err: int, sx: int, dx: int, dy: int) -> int {
    if 2 * err > -dy {
        x + sx
    } else {
        x
    }
}

/// Next y coordinate of one walk step.
pub open spec fn step_y(y: int, err: int, sy: int, dx: int, dy: int) -> int {
    if 2 * err < dx {
        y + sy
    } else {
        y
    }
}

/// Next error accumulator of one walk step; both comparisons read the
/// error value from before the step.
pub open spec fn step_err(err: int, dx: int, dy: int) -> int {
    let e1 = if 2 * err > -dy {
        err - dy
    } else {
        err
    };
    if 2 * err < dx {
        e1 + dx
    } else {
        e1
    }
}

/// The ordered pixel sequence of the integer-error walk from `(x, y)` to
/// `(x2, y2)`, both ends included.
pub open spec fn walk(
    x: int,
    y: int,
    err: int,
    x2: int,
    y2: int,
    sx: int,
    sy: int,
    dx: int,
    dy: int,
) -> Seq<(int, int)>
    decreases walk_measure(x, y, x2, y2, sx, sy)
        when walk_inv(x, y, err, x2, y2, sx, sy, dx, dy)
        via walk_termination
{
    if x == x2 && y == y2 {
        seq![(x, y)]
    } else {
        seq![(x, y)] + walk(
            step_x(x, err, sx, dx, dy),
            step_y(y, err, sy, dx, dy),
            step_err(err, dx, dy),
            x2,
            y2,
            sx,
            sy,
            dx,
            dy,
        )
    }
}

#[via_fn]
proof fn walk_termination(
    x: int,
    y: int,
    err: int,
    x2: int,
    y2: int,
    sx: int,
    sy: int,
    dx: int,
    dy: int,
) {
    if !(x == x2 && y == y2) {
        lemma_step(x, y, err, x2, y2, sx, sy, dx, dy);
    }
}

/// When the x axis is exhausted but the y axis is not, the doubled error
/// has fallen below `-dy`, so the walk cannot overshoot in x.
proof fn lemma_x_blocked(a: int, b: int, dx: int, dy: int)
    by (nonlinear_arith)
    requires
        dx >= 0,
        dy >= 0,
        0 <= b <= dy - 1,
        a == dx,
    ensures
        2 * (dx * (1 + b) - dy * (1 + a)) <= -dy,
{
}

/// When the y axis is exhausted but the x axis is not, the doubled error
/// has risen to at least `dx`, so the walk cannot overshoot in y.
proof fn lemma_y_blocked(a: int, b: int, dx: int, dy: int)
    by (nonlinear_arith)
    requires
        dx >= 0,
        dy >= 0,
        0 <= a <= dx - 1,
        b == dy,
    ensures
        2 * (dx * (1 + b) - dy * (1 + a)) >= dx,
{
}

/// One step of the walk, taken anywhere short of the end point, keeps the
/// invariant, makes strict progress, and moves by at most one pixel on
/// each axis.
pub proof fn lemma_step(
    x: int,
    y: int,
    err: int,
    x2: int,
    y2: int,
    sx: int,
    sy: int,
    dx: int,
    dy: int,
)
    requires
        walk_inv(x, y, err, x2, y2, sx, sy, dx, dy),
        !(x == x2 && y == y2),
    ensures
        walk_inv(
            step_x(x, err, sx, dx, dy),
            step_y(y, err, sy, dx, dy),
            step_err(err, dx, dy),
            x2,
            y2,
            sx,
            sy,
            dx,
            dy,
        ),
        walk_measure(step_x(x, err, sx, dx, dy), step_y(y, err, sy, dx, dy), x2, y2, sx, sy)
            < walk_measure(x, y, x2, y2, sx, sy),
        walk_measure(step_x(x, err, sx, dx, dy), step_y(y, err, sy, dx, dy), x2, y2, sx, sy) >= 0,
        step_x(x, err, sx, dx, dy) != x || step_y(y, err, sy, dx, dy) != y,
        absd(step_x(x, err, sx, dx, dy), x) <= 1,
        absd(step_y(y, err, sy, dx, dy), y) <= 1,
{
    let rx = sx * (x2 - x);
    let ry = sy * (y2 - y);
    let a = dx - rx;
    let b = dy - ry;
    // The end point is exactly where both remainders vanish.
    assert(rx == 0 ==> x == x2) by (nonlinear_arith)
        requires
            rx == sx * (x2 - x),
            sx == 1 || sx == -1,
    ;
    assert(ry == 0 ==> y == y2) by (nonlinear_arith)
        requires
            ry == sy * (y2 - y),
            sy == 1 || sy == -1,
    ;
    assert(rx > 0 || ry > 0);
    let c1 = 2 * err > -dy;
    let c2 = 2 * err < dx;
    if !c1 && !c2 {
        // Both axes blocked forces dx + dy <= 0, i.e. the end point.
        assert(dx <= 2 * err && 2 * err <= -dy);
        assert(false);
    }
    if c1 && rx == 0 {
        lemma_x_blocked(a, b, dx, dy);
        assert(false);
    }
    if c2 && ry == 0 {
        lemma_y_blocked(a, b, dx, dy);
        assert(false);
    }
    let nx = step_x(x, err, sx, dx, dy);
    let ny = step_y(y, err, sy, dx, dy);
    let ne = step_err(err, dx, dy);
    assert(sx * (x2 - nx) == if c1 { rx - 1 } else { rx }) by (nonlinear_arith)
        requires
            rx == sx * (x2 - x),
            sx == 1 || sx == -1,
            nx == if c1 { x + sx } else { x },
    ;
    assert(sy * (y2 - ny) == if c2 { ry - 1 } else { ry }) by (nonlinear_arith)
        requires
            ry == sy * (y2 - y),
            sy == 1 || sy == -1,
            ny == if c2 { y + sy } else { y },
    ;
    assert(absd(nx, x) <= 1 && absd(ny, y) <= 1);
    let na = dx - sx * (x2 - nx);
    let nb = dy - sy * (y2 - ny);
    assert(na == if c1 { a + 1 } else { a });
    assert(nb == if c2 { b + 1 } else { b });
    assert(ne == err - (if c1 { dy } else { 0 }) + (if c2 { dx } else { 0 }));
    assert(dx * (1 + nb) == dx * (1 + b) + (if c2 { dx } else { 0 })) by (nonlinear_arith)
        requires nb == if c2 { b + 1 } else { b };
    assert(dy * (1 + na) == dy * (1 + a) + (if c1 { dy } else { 0 })) by (nonlinear_arith)
        requires na == if c1 { a + 1 } else { a };
}

/// Under the invariant the error accumulator is bounded by the products of
/// the two deltas, which keeps the executable accumulator inside `i64`.
pub proof fn lemma_err_bound(
    x: int,
    y: int,
    err: int,
    x2: int,
    y2: int,
    sx: int,
    sy: int,
    dx: int,
    dy: int,
)
    requires
        walk_inv(x, y, err, x2, y2, sx, sy, dx, dy),
        dx <= 0x20_0000,
        dy <= 0x20_0000,
    ensures
        -0x1_0000_0000_0000 <= err <= 0x1_0000_0000_0000,
{
    let a = dx - sx * (x2 - x);
    let b = dy - sy * (y2 - y);
    assert(err == dx * (1 + b) - dy * (1 + a));
    assert(-0x1_0000_0000_0000 <= dx * (1 + b) - dy * (1 + a) <= 0x1_0000_0000_0000)
        by (nonlinear_arith)
        requires
            0 <= a <= dx <= 0x20_0000,
            0 <= b <= dy <= 0x20_0000,
    ;
}

/// Every property of the walk that callers rely on: it is non-empty, no
/// longer than one pixel per unit of summed axis distance plus one, starts
/// at the current point, ends at the end point, and consecutive points are
/// distinct and at Chebyshev distance at most one.
pub proof fn lemma_walk_props(
    x: int,
    y: int,
    err: int,
    x2: int,
    y2: int,
    sx: int,
    sy: int,
    dx: int,
    dy: int,
)
    requires
        walk_inv(x, y, err, x2, y2, sx, sy, dx, dy),
    ensures
        walk(x, y, err, x2, y2, sx, sy, dx, dy).len() >= 1,
        walk(x, y, err, x2, y2, sx, sy, dx, dy).len() <= walk_measure(x, y, x2, y2, sx, sy) + 1,
        walk(x, y, err, x2, y2, sx, sy, dx, dy).first() == (x, y),
        walk(x, y, err, x2, y2, sx, sy, dx, dy).last() == (x2, y2),
        forall|i: int|
            0 <= i < walk(x, y, err, x2, y2, sx, sy, dx, dy).len() - 1 ==> chebyshev_adjacent(
                #[trigger] walk(x, y, err, x2, y2, sx, sy, dx, dy)[i],
                walk(x, y, err, x2, y2, sx, sy, dx, dy)[i + 1],
            ),
    decreases walk_measure(x, y, x2, y2, sx, sy),
{
    let s = walk(x, y, err, x2, y2, sx, sy, dx, dy);
    if x == x2 && y == y2 {
        assert(s == seq![(x, y)]);
    } else {
        lemma_step(x, y, err, x2, y2, sx, sy, dx, dy);
        let nx = step_x(x, err, sx, dx, dy);
        let ny = step_y(y, err, sy, dx, dy);
        let ne = step_err(err, dx, dy);
        lemma_walk_props(nx, ny, ne, x2, y2, sx, sy, dx, dy);
        let rest = walk(nx, ny, ne, x2, y2, sx, sy, dx, dy);
        assert(s == seq![(x, y)] + rest);
        assert(s.len() == 1 + rest.len());
        assert(s[0] == (x, y));
        assert(forall|i: int| 0 <= i < rest.len() ==> s[i + 1] == #[trigger] rest[i]);
        assert(s.last() == rest.last());
        assert(chebyshev_adjacent(s[0], s[1])) by {
            assert(s[1] == rest[0]);
            assert(rest[0] == (nx, ny));
        }
        assert(forall|i: int|
            1 <= i < s.len() - 1 ==> chebyshev_adjacent(#[trigger] s[i], s[i + 1])) by {
            assert(forall|j: int|
                0 <= j < rest.len() - 1 ==> chebyshev_adjacent(#[trigger] rest[j], rest[j + 1]));
            assert(forall|i: int| 1 <= i < s.len() - 1 ==> #[trigger] s[i] == rest[i - 1]
                && s[i + 1] == rest[i]);
        }
    }
}

/// Two raster points are distinct and no farther than one pixel apart on
/// either axis.
pub open spec fn chebyshev_adjacent(p: (int, int), q: (int, int)) -> bool {
    &&& absd(p.0, q.0) <= 1
    &&& absd(p.1, q.1) <= 1
    &&& p != q
}

/// The raster walk from `a` to `b`, before canonicalization.
pub open spec fn raster_from(a: IntegerPoint, b: IntegerPoint) -> Seq<(int, int)> {
    walk(
        a.x as int,
        a.y as int,
        absd(a.x as int, b.x as int) - absd(a.y as int, b.y as int),
        b.x as int,
        b.y as int,
        sgn(a.x as int, b.x as int),
        sgn(a.y as int, b.y as int),
        absd(a.x as int, b.x as int),
        absd(a.y as int, b.y as int),
    )
}

/// The initial state of the walk satisfies its invariant.
pub proof fn lemma_raster_from_inv(a: IntegerPoint, b: IntegerPoint)
    ensures
        walk_inv(
            a.x as int,
            a.y as int,
            absd(a.x as int, b.x as int) - absd(a.y as int, b.y as int),
            b.x as int,
            b.y as int,
            sgn(a.x as int, b.x as int),
            sgn(a.y as int, b.y as int),
            absd(a.x as int, b.x as int),
            absd(a.y as int, b.y as int),
        ),
{
    let ax = a.x as int;
    let ay = a.y as int;
    let bx = b.x as int;
    let by = b.y as int;
    assert(sgn(ax, bx) * (bx - ax) == absd(ax, bx)) by {
        if ax < bx {
        } else {
        }
    }
    assert(sgn(ay, by) * (by - ay) == absd(ay, by)) by {
        if ay < by {
        } else {
        }
    }
}

/// The canonical direction convention: lines are walked from the
/// lexicographically smaller endpoint, x major, y minor.
pub open spec fn canon_le(a: IntegerPoint, b: IntegerPoint) -> bool {
    a.x < b.x || (a.x == b.x && a.y <= b.y)
}

/// The rasterization of the segment from `a` to `b`: the canonical walk,
/// reversed when `a` is not the canonical start, so that the sequence
/// always runs from `a` to `b` while the underlying pixel set depends only
/// on the unordered pair.
pub open spec fn raster_seq(a: IntegerPoint, b: IntegerPoint) -> Seq<(int, int)> {
    if canon_le(a, b) {
        raster_from(a, b)
    } else {
        raster_from(b, a).reverse()
    }
}

/// The integer pair a raster point stands for in specifications.
pub open spec fn pt_pair(p: IntegerPoint) -> (int, int) {
    (p.x as int, p.y as int)
}

/// A sequence of raster points as a sequence of integer pairs.
pub open spec fn seq_pairs(s: Seq<IntegerPoint>) -> Seq<(int, int)> {
    s.map_values(|p: IntegerPoint| pt_pair(p))
}

/// Under the invariant, the current point stays inside the bounding box of
/// the segment.
proof fn lemma_inv_box(
    x: int,
    y: int,
    err: int,
    x2: int,
    y2: int,
    sx: int,
    sy: int,
    dx: int,
    dy: int,
)
    requires
        walk_inv(x, y, err, x2, y2, sx, sy, dx, dy),
    ensures
        x2 - dx <= x <= x2 + dx,
        y2 - dy <= y <= y2 + dy,
{
    assert(x2 - dx <= x <= x2 + dx) by (nonlinear_arith)
        requires
            0 <= sx * (x2 - x) <= dx,
            sx == 1 || sx == -1,
    ;
    assert(y2 - dy <= y <= y2 + dy) by (nonlinear_arith)
        requires
            0 <= sy * (y2 - y) <= dy,
            sy == 1 || sy == -1,
    ;
}

/// All the facts about `raster_from` that the executable rasterizer and
/// the laws rely on.
pub proof fn lemma_raster_from_props(a: IntegerPoint, b: IntegerPoint)
    ensures
        raster_from(a, b).len() >= 1,
        raster_from(a, b).len() <= absd(a.x as int, b.x as int) + absd(a.y as int, b.y as int)
            + 1,
        raster_from(a, b).first() == pt_pair(a),
        raster_from(a, b).last() == pt_pair(b),
        forall|i: int|
            0 <= i < raster_from(a, b).len() - 1 ==> chebyshev_adjacent(
                #[trigger] raster_from(a, b)[i],
                raster_from(a, b)[i + 1],
            ),
{
    lemma_raster_from_inv(a, b);
    lemma_walk_props(
        a.x as int,
        a.y as int,
        absd(a.x as int, b.x as int) - absd(a.y as int, b.y as int),
        b.x as int,
        b.y as int,
        sgn(a.x as int, b.x as int),
        sgn(a.y as int, b.y as int),
        absd(a.x as int, b.x as int),
        absd(a.y as int, b.y as int),
    );
    assert(sgn(a.x as int, b.x as int) * (b.x as int - a.x as int) == absd(a.x as int, b.x as int))
        by (nonlinear_arith);
    assert(sgn(a.y as int, b.y as int) * (b.y as int - a.y as int) == absd(a.y as int, b.y as int))
        by (nonlinear_arith);
}

/// Reversing a sequence keeps its set of elements.
proof fn lemma_reverse_same_set(s: Seq<(int, int)>)
    ensures
        s.reverse().to_set() == s.to_set(),
{
    assert forall|p: (int, int)| s.reverse().contains(p) implies s.contains(p) by {
        let i = choose|i: int| 0 <= i < s.reverse().len() && s.reverse()[i] == p;
        assert(s[s.len() - 1 - i] == p);
    }
    assert forall|p: (int, int)| s.contains(p) implies s.reverse().contains(p) by {
        let i = choose|i: int| 0 <= i < s.len() && s[i] == p;
        assert(s.reverse()[s.len() - 1 - i] == p);
    }
    assert(s.reverse().to_set() =~= s.to_set());
}

/// The rasterizer is symmetric in pixel-set content: the segments from `a`
/// to `b` and from `b` to `a` rasterize to the same set of coordinates,
/// and both rounds of the walk include the two endpoints.
pub proof fn lemma_raster_symmetric(a: IntegerPoint, b: IntegerPoint)
    ensures
        raster_seq(a, b).to_set() == raster_seq(b, a).to_set(),
        raster_seq(a, b).contains(pt_pair(a)),
        raster_seq(a, b).contains(pt_pair(b)),
{
    lemma_raster_from_props(a, b);
    lemma_raster_from_props(b, a);
    if canon_le(a, b) && canon_le(b, a) {
        assert(a == b);
        let s = raster_seq(a, b);
        assert(s.contains(pt_pair(a))) by {
            assert(s[0] == pt_pair(a));
        }
    } else if canon_le(a, b) {
        let s = raster_from(a, b);
        assert(raster_seq(a, b) == s);
        assert(raster_seq(b, a) == s.reverse());
        lemma_reverse_same_set(s);
        assert(s.contains(pt_pair(a))) by {
            assert(s[0] == pt_pair(a));
        }
        assert(s.contains(pt_pair(b))) by {
            assert(s[s.len() - 1] == pt_pair(b));
        }
    } else {
        let s = raster_from(b, a);
        assert(raster_seq(b, a) == s);
        assert(raster_seq(a, b) == s.reverse());
        lemma_reverse_same_set(s);
        assert(s.reverse().contains(pt_pair(a))) by {
            assert(s.reverse()[s.len() - 1] == s[0]);
        }
        assert(s.reverse().contains(pt_pair(b))) by {
            assert(s.reverse()[0] == s[s.len() - 1]);
        }
    }
}

/// The rasterizer leaves no gaps: two consecutive raster points are always
/// distinct and at Chebyshev distance at most one.
pub proof fn lemma_raster_no_gaps(a: IntegerPoint, b: IntegerPoint)
    ensures
        raster_seq(a, b).len() >= 1,
        forall|i: int|
            0 <= i < raster_seq(a, b).len() - 1 ==> chebyshev_adjacent(
                #[trigger] raster_seq(a, b)[i],
                raster_seq(a, b)[i + 1],
            ),
{
    if canon_le(a, b) {
        lemma_raster_from_props(a, b);
    } else {
        lemma_raster_from_props(b, a);
        let s = raster_from(b, a);
        let r = s.reverse();
        assert forall|i: int| 0 <= i < r.len() - 1 implies chebyshev_adjacent(
            #[trigger] r[i],
            r[i + 1],
        ) by {
            let j = s.len() - 2 - i;
            assert(r[i] == s[j + 1] && r[i + 1] == s[j]);
            assert(chebyshev_adjacent(s[j], s[j + 1]));
        }
    }
}

/// Builds the reversed copy of a point vector.
fn reversed(v: &Vec<IntegerPoint>) -> (r: Vec<IntegerPoint>)
    ensures
        r@ == v@.reverse(),
{
    let mut r: Vec<IntegerPoint> = Vec::new();
    let mut i: usize = v.len();
    while i > 0
        invariant
            i <= v@.len(),
            r@.len() == v@.len() - i,
            forall|j: int| 0 <= j < r@.len() ==> r@[j] == v@[v@.len() - 1 - j],
        decreases i,
    {
        i = i - 1;
        r.push(v[i]);
    }
    assert(r@ =~= v@.reverse());
    r
}

/// Core loop of the rasterizer: the integer-error walk from `a` to `b`,
/// pushing one pixel per step.
fn walk_exec(a: IntegerPoint, b: IntegerPoint) -> (points: Vec<IntegerPoint>)
    requires
        coord_ok(a),
        coord_ok(b),
    ensures
        seq_pairs(points@) == raster_from(a, b),
{
    let x2: i32 = b.x;
    let y2: i32 = b.y;
    let sx: i32 = if a.x < b.x {
        1
    } else {
        -1
    };
    let sy: i32 = if a.y < b.y {
        1
    } else {
        -1
    };
    let dx: i64 = if a.x < b.x {
        b.x as i64 - a.x as i64
    } else {
        a.x as i64 - b.x as i64
    };
    let dy: i64 = if a.y < b.y {
        b.y as i64 - a.y as i64
    } else {
        a.y as i64 - b.y as i64
    };
    let mut err: i64 = dx - dy;
    let mut x: i32 = a.x;
    let mut y: i32 = a.y;
    let mut points: Vec<IntegerPoint> = Vec::new();
    proof {
        lemma_raster_from_inv(a, b);
    }
    loop
        invariant_except_break
            raster_from(a, b) == seq_pairs(points@) + walk(
                x as int,
                y as int,
                err as int,
                x2 as int,
                y2 as int,
                sx as int,
                sy as int,
                dx as int,
                dy as int,
            ),
        invariant
            coord_ok(a),
            coord_ok(b),
            x2 == b.x,
            y2 == b.y,
            sx as int == sgn(a.x as int, b.x as int),
            sy as int == sgn(a.y as int, b.y as int),
            dx as int == absd(a.x as int, b.x as int),
            dy as int == absd(a.y as int, b.y as int),
            walk_inv(
                x as int,
                y as int,
                err as int,
                x2 as int,
                y2 as int,
                sx as int,
                sy as int,
                dx as int,
                dy as int,
            ),
        ensures
            seq_pairs(points@) == raster_from(a, b),
        decreases walk_measure(x as int, y as int, x2 as int, y2 as int, sx as int, sy as int),
    {
        let ghost prev = points@;
        points.push(IntegerPoint { x, y });
        proof {
            assert(seq_pairs(points@) =~= seq_pairs(prev).push((x as int, y as int)));
        }
        if x == x2 && y == y2 {
            proof {
                assert(seq_pairs(points@) =~= raster_from(a, b));
            }
            break ;
        }
        proof {
            lemma_step(
                x as int,
                y as int,
                err as int,
                x2 as int,
                y2 as int,
                sx as int,
                sy as int,
                dx as int,
                dy as int,
            );
            lemma_err_bound(
                x as int,
                y as int,
                err as int,
                x2 as int,
                y2 as int,
                sx as int,
                sy as int,
                dx as int,
                dy as int,
            );
            lemma_inv_box(
                step_x(x as int, err as int, sx as int, dx as int, dy as int),
                step_y(y as int, err as int, sy as int, dx as int, dy as int),
                step_err(err as int, dx as int, dy as int),
                x2 as int,
                y2 as int,
                sx as int,
                sy as int,
                dx as int,
                dy as int,
            );
            assert(seq_pairs(prev).push((x as int, y as int)) + walk(
                step_x(x as int, err as int, sx as int, dx as int, dy as int),
                step_y(y as int, err as int, sy as int, dx as int, dy as int),
                step_err(err as int, dx as int, dy as int),
                x2 as int,
                y2 as int,
                sx as int,
                sy as int,
                dx as int,
                dy as int,
            ) =~= raster_from(a, b));
        }
        let e: i64 = 2 * err;
        if e > -dy {
            err = err - dy;
            x = x + sx;
        }
        if e < dx {
            err = err + dx;
            y = y + sy;
        }
    }
    points
}

/// Rasterizes the segment between two points into the ordered pixel
/// sequence from `start` to `end`, both included. The underlying pixel set
/// depends only on the unordered pair of endpoints: the walk always runs
/// in the canonical direction and is reversed when needed.
pub fn bresenham(start: IntegerPoint, end: IntegerPoint) -> (points: Vec<IntegerPoint>)
    requires
        coord_ok(start),
        coord_ok(end),
    ensures
        seq_pairs(points@) == raster_seq(start, end),
        1 <= points@.len(),
        points@.len() <= absd(start.x as int, end.x as int) + absd(start.y as int, end.y as int)
            + 1,
        points@.first() == start,
        points@.last() == end,
{
    let canonical: bool = start.x < end.x || (start.x == end.x && start.y <= end.y);
    let points: Vec<IntegerPoint> = if canonical {
        walk_exec(start, end)
    } else {
        let w = walk_exec(end, start);
        let r = reversed(&w);
        proof {
            assert(seq_pairs(r@) =~= seq_pairs(w@).reverse());
        }
        r
    };
    proof {
        if canonical {
            lemma_raster_from_props(start, end);
        } else {
            lemma_raster_from_props(end, start);
            assert(seq_pairs(points@).first() == raster_from(end, start).last());
            assert(seq_pairs(points@).last() == raster_from(end, start).first());
        }
        assert(points@.len() == seq_pairs(points@).len());
        assert(seq_pairs(points@)[0] == pt_pair(points@[0]));
        assert(seq_pairs(points@)[points@.len() - 1] == pt_pair(points@[points@.len() - 1]));
        assert(points@.first() == start);
        assert(points@.last() == end);
    }
    points
}

} // verus!
