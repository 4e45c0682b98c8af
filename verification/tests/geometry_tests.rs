use polyraster::Color;
use polyraster::FrameBuffer;
use polyraster::Point;
use polyraster::geometry::point_in_polygon;
use polyraster::geometry::point_in_holes;
use polyraster::Polygon;

fn ring(coords: &[(i32, i32)]) -> Vec<Point> {
    coords.iter().map(|&(x, y)| Point { x, y }).collect()
}

/// Independent even-odd ray-casting count, straight from the textbook rule:
/// count edges with exactly one endpoint strictly above the ray whose
/// crossing x (truncating interpolation) lies right of the point.
fn reference_inside(px: i32, py: i32, coords: &[(i32, i32)]) -> bool {
    let n = coords.len();
    let mut crossings = 0u32;
    for i in 0..n {
        let (x1, y1) = coords[i];
        let (x2, y2) = coords[(i + 1) % n];
        if (y1 > py) != (y2 > py) {
            let xc = x1 as i64 + (py as i64 - y1 as i64) * (x2 as i64 - x1 as i64)
                / (y2 as i64 - y1 as i64);
            if (px as i64) < xc {
                crossings += 1;
            }
        }
    }
    crossings % 2 == 1
}

#[test]
fn square_classification() {
    let sq = ring(&[(0, 0), (10, 0), (10, 10), (0, 10)]);
    assert!(point_in_polygon(Point { x: 5, y: 5 }, &sq));
    assert!(!point_in_polygon(Point { x: 15, y: 5 }, &sq));
    assert!(!point_in_polygon(Point { x: -1, y: 5 }, &sq));
    assert!(!point_in_polygon(Point { x: 5, y: 11 }, &sq));
}

#[test]
fn classify_matches_reference_on_grid() {
    let shapes: Vec<Vec<(i32, i32)>> = vec![
        vec![(0, 0), (10, 0), (10, 10), (0, 10)],
        vec![(2, 1), (9, 4), (5, 11)],
        // a concave (arrow-shaped) ring
        vec![(0, 0), (10, 0), (10, 10), (5, 4), (0, 10)],
    ];
    for coords in &shapes {
        let r = ring(coords);
        for y in -3..14 {
            for x in -3..14 {
                let got = point_in_polygon(Point { x, y }, &r);
                let want = reference_inside(x, y, coords);
                assert_eq!(got, want, "mismatch at ({}, {}) for {:?}", x, y, coords);
            }
        }
    }
}

#[test]
fn degenerate_rings_classify_outside() {
    let empty: Vec<Point> = Vec::new();
    assert!(!point_in_polygon(Point { x: 0, y: 0 }, &empty));
    let single = ring(&[(3, 3)]);
    assert!(!point_in_polygon(Point { x: 3, y: 3 }, &single));
}

#[test]
fn hole_membership_checks_only_holes() {
    let red = Color::rgb(255, 0, 0);
    let blue = Color::rgb(0, 0, 255);
    let polys = vec![
        Polygon {
            points: ring(&[(0, 0), (10, 0), (10, 10), (0, 10)]),
            fill_color: red,
            border_color: blue,
            is_hole: false,
        },
        Polygon {
            points: ring(&[(20, 20), (30, 20), (30, 30), (20, 30)]),
            fill_color: red,
            border_color: blue,
            is_hole: true,
        },
    ];
    // inside the fill polygon only: not in any hole
    assert!(!point_in_holes(Point { x: 5, y: 5 }, &polys));
    // inside the hole polygon
    assert!(point_in_holes(Point { x: 25, y: 25 }, &polys));
    // inside nothing
    assert!(!point_in_holes(Point { x: 50, y: 50 }, &polys));
}

#[test]
fn buffer_reads_and_writes_are_bounds_checked() {
    let white = Color::rgb(255, 255, 255);
    let red = Color::rgb(255, 0, 0);
    let mut fb = FrameBuffer::new(8, 6, white);
    assert_eq!(fb.get_pixel(0, 0), white);
    assert_eq!(fb.get_pixel(7, 5), white);
    // out-of-bounds reads return the background sentinel
    assert_eq!(fb.get_pixel(-1, 0), white);
    assert_eq!(fb.get_pixel(8, 0), white);
    assert_eq!(fb.get_pixel(0, 6), white);
    // in-bounds write sticks, out-of-bounds writes are ignored
    fb.set_pixel(3, 2, red);
    assert_eq!(fb.get_pixel(3, 2), red);
    fb.set_pixel(-1, 2, red);
    fb.set_pixel(8, 2, red);
    fb.set_pixel(3, -7, red);
    fb.set_pixel(3, 600, red);
    for y in 0..6 {
        for x in 0..8 {
            let want = if x == 3 && y == 2 { red } else { white };
            assert_eq!(fb.get_pixel(x, y), want);
        }
    }
}

#[test]
fn clear_overwrites_every_cell() {
    let white = Color::rgb(255, 255, 255);
    let green = Color::rgb(0, 255, 0);
    let mut fb = FrameBuffer::new(4, 4, white);
    fb.set_pixel(1, 1, Color::new(9, 9, 9, 128));
    fb.clear(green);
    for y in 0..4 {
        for x in 0..4 {
            assert_eq!(fb.get_pixel(x, y), green);
        }
    }
    // the out-of-bounds sentinel is the creation background, not the cleared color
    assert_eq!(fb.get_pixel(-1, -1), white);
}
