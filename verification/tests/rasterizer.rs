use string_art::bresenham;
use string_art::IntegerPoint;

fn pt(x: i32, y: i32) -> IntegerPoint {
    IntegerPoint { x, y }
}

fn raster(a: IntegerPoint, b: IntegerPoint) -> Vec<(i32, i32)> {
    bresenham(a, b).iter().map(|p| (p.x, p.y)).collect()
}

#[test]
fn single_point_line() {
    assert_eq!(raster(pt(5, 7), pt(5, 7)), vec![(5, 7)]);
}

#[test]
fn horizontal_line() {
    assert_eq!(raster(pt(0, 2), pt(4, 2)), vec![(0, 2), (1, 2), (2, 2), (3, 2), (4, 2)]);
}

#[test]
fn vertical_line() {
    assert_eq!(raster(pt(3, 0), pt(3, 3)), vec![(3, 0), (3, 1), (3, 2), (3, 3)]);
}

#[test]
fn diagonal_line() {
    assert_eq!(raster(pt(0, 0), pt(3, 3)), vec![(0, 0), (1, 1), (2, 2), (3, 3)]);
}

#[test]
fn endpoints_always_included() {
    let cases = [
        (pt(0, 0), pt(7, 3)),
        (pt(7, 3), pt(0, 0)),
        (pt(-5, 2), pt(9, -4)),
        (pt(2, 8), pt(2, -8)),
        (pt(20, 10), pt(0, 10)),
    ];
    for (a, b) in cases {
        let line = raster(a, b);
        assert_eq!(*line.first().unwrap(), (a.x, a.y));
        assert_eq!(*line.last().unwrap(), (b.x, b.y));
    }
}

#[test]
fn pixel_set_symmetric() {
    let cases = [
        (pt(0, 0), pt(7, 3)),
        (pt(-5, 2), pt(9, -4)),
        (pt(1, 1), pt(10, 20)),
        (pt(4, 4), pt(4, -9)),
        (pt(13, 2), pt(-6, 2)),
    ];
    for (a, b) in cases {
        let mut fwd = raster(a, b);
        let mut bwd = raster(b, a);
        fwd.sort();
        bwd.sort();
        assert_eq!(fwd, bwd);
    }
}

#[test]
fn reversed_direction_reverses_order() {
    let fwd = raster(pt(0, 0), pt(7, 3));
    let mut bwd = raster(pt(7, 3), pt(0, 0));
    bwd.reverse();
    assert_eq!(fwd, bwd);
}

#[test]
fn no_gaps_chebyshev_at_most_one() {
    let cases = [
        (pt(0, 0), pt(17, 5)),
        (pt(3, -9), pt(-12, 4)),
        (pt(0, 0), pt(1, 30)),
        (pt(5, 5), pt(5, 5)),
        (pt(-7, -7), pt(6, 8)),
    ];
    for (a, b) in cases {
        let line = raster(a, b);
        for w in line.windows(2) {
            let dx = (w[1].0 - w[0].0).abs();
            let dy = (w[1].1 - w[0].1).abs();
            assert!(dx <= 1 && dy <= 1, "gap between {:?} and {:?}", w[0], w[1]);
            assert!(dx + dy > 0, "repeated point {:?}", w[0]);
        }
    }
}

#[test]
fn line_length_bounded_by_axis_distance() {
    let a = pt(-100, 40);
    let b = pt(60, -25);
    let line = raster(a, b);
    assert!(line.len() >= 1);
    assert!(line.len() <= (160 + 65 + 1) as usize);
}
