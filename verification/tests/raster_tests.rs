use polyraster::Color;
use polyraster::FrameBuffer;
use polyraster::Point;
use polyraster::Polygon;
use polyraster::border::draw_segment;
use polyraster::border::draw_polygon_border;
use polyraster::pipeline::rasterize;
use polyraster::scanline::scanline_fill_with_holes;

fn ring(coords: &[(i32, i32)]) -> Vec<Point> {
    coords.iter().map(|&(x, y)| Point { x, y }).collect()
}

fn fill_poly(coords: &[(i32, i32)], fill: Color, border: Color) -> Polygon {
    Polygon { points: ring(coords), fill_color: fill, border_color: border, is_hole: false }
}

fn hole_poly(coords: &[(i32, i32)], border: Color) -> Polygon {
    Polygon {
        points: ring(coords),
        fill_color: Color::rgb(0, 0, 0),
        border_color: border,
        is_hole: true,
    }
}

fn colored_pixels(fb: &FrameBuffer, w: i32, h: i32, c: Color) -> Vec<(i32, i32)> {
    let mut out = Vec::new();
    for y in 0..h {
        for x in 0..w {
            if fb.get_pixel(x, y) == c {
                out.push((x, y));
            }
        }
    }
    out
}

#[test]
fn rectangle_fill_exact_pixels() {
    let white = Color::rgb(255, 255, 255);
    let red = Color::rgb(255, 0, 0);
    let mut fb = FrameBuffer::new(12, 8, white);
    let polys = vec![fill_poly(&[(2, 2), (7, 2), (7, 5), (2, 5)], red, white)];
    scanline_fill_with_holes(&polys, &mut fb);
    // rows 2..=4 filled (the top scanline of each edge pair is excluded at
    // the max-y row by the half-open edge test), columns 2..=7 inclusive
    for y in 0..8 {
        for x in 0..12 {
            let want = if (2..=7).contains(&x) && (2..=4).contains(&y) { red } else { white };
            assert_eq!(fb.get_pixel(x, y), want, "pixel ({}, {})", x, y);
        }
    }
}

/// Flood fill from the polygon's centroid over same-colored pixels must
/// reach exactly the pixels the scanline filler colored (convex polygon, no
/// holes): the filled set is one 4-connected region.
#[test]
fn convex_fill_matches_flood_fill() {
    let white = Color::rgb(255, 255, 255);
    let red = Color::rgb(255, 0, 0);
    let w = 40;
    let h = 30;
    let mut fb = FrameBuffer::new(w, h, white);
    let coords = [(5, 5), (30, 8), (33, 20), (18, 26), (6, 18)];
    let polys = vec![fill_poly(&coords, red, white)];
    scanline_fill_with_holes(&polys, &mut fb);

    let filled = colored_pixels(&fb, w, h, red);
    assert!(!filled.is_empty());

    // centroid of the vertices lies inside this convex polygon
    let cx = coords.iter().map(|p| p.0).sum::<i32>() / coords.len() as i32;
    let cy = coords.iter().map(|p| p.1).sum::<i32>() / coords.len() as i32;
    assert_eq!(fb.get_pixel(cx, cy), red);

    let mut seen = vec![false; (w * h) as usize];
    let mut queue = vec![(cx, cy)];
    seen[(cy * w + cx) as usize] = true;
    let mut reached = 0usize;
    while let Some((x, y)) = queue.pop() {
        reached += 1;
        for (nx, ny) in [
            (x + 1, y),
            (x - 1, y),
            (x, y + 1),
            (x, y - 1),
            (x + 1, y + 1),
            (x + 1, y - 1),
            (x - 1, y + 1),
            (x - 1, y - 1),
        ] {
            if nx >= 0 && nx < w && ny >= 0 && ny < h {
                let idx = (ny * w + nx) as usize;
                if !seen[idx] && fb.get_pixel(nx, ny) == red {
                    seen[idx] = true;
                    queue.push((nx, ny));
                }
            }
        }
    }
    assert_eq!(reached, filled.len(), "fill region must be one 8-connected blob");
}

#[test]
fn hole_is_excluded_from_fill() {
    let white = Color::rgb(255, 255, 255);
    let red = Color::rgb(255, 0, 0);
    let blue = Color::rgb(0, 0, 255);
    let mut fb = FrameBuffer::new(40, 40, white);
    let polys = vec![
        fill_poly(&[(10, 10), (30, 10), (30, 30), (10, 30)], red, blue),
        hole_poly(&[(15, 15), (25, 15), (25, 25), (15, 25)], blue),
    ];
    scanline_fill_with_holes(&polys, &mut fb);
    // pixels strictly inside the hole are never the fill color
    for y in 16..24 {
        for x in 16..24 {
            assert_ne!(fb.get_pixel(x, y), red, "hole pixel ({}, {})", x, y);
        }
    }
    // fill-region pixels outside the hole are always set
    for &(x, y) in &[(11, 20), (28, 20), (20, 11), (20, 28), (12, 12), (28, 28)] {
        assert_eq!(fb.get_pixel(x, y), red, "fill pixel ({}, {})", x, y);
    }
}

#[test]
fn bresenham_segment_exact_pixels() {
    let black = Color::rgb(0, 0, 0);
    let green = Color::rgb(0, 255, 0);
    let mut fb = FrameBuffer::new(10, 10, black);
    draw_segment(Point { x: 0, y: 0 }, Point { x: 5, y: 3 }, green, &mut fb);
    let got = colored_pixels(&fb, 10, 10, green);
    let want = vec![(0, 0), (1, 1), (2, 1), (3, 2), (4, 2), (5, 3)];
    assert_eq!(got.len(), want.len());
    for p in &want {
        assert!(got.contains(p), "expected pixel {:?}", p);
    }
}

#[test]
fn bresenham_paths_are_eight_connected() {
    let black = Color::rgb(0, 0, 0);
    let green = Color::rgb(0, 255, 0);
    let cases = [
        ((1, 1), (8, 3)),
        ((8, 3), (1, 1)),
        ((2, 9), (2, 0)),
        ((0, 5), (9, 5)),
        ((9, 0), (0, 9)),
        ((4, 4), (4, 4)),
    ];
    for &((x0, y0), (x1, y1)) in &cases {
        let mut fb = FrameBuffer::new(10, 10, black);
        draw_segment(Point { x: x0, y: y0 }, Point { x: x1, y: y1 }, green, &mut fb);
        assert_eq!(fb.get_pixel(x0, y0), green);
        assert_eq!(fb.get_pixel(x1, y1), green);
        // every plotted pixel except the endpoints has a plotted 8-neighbor
        // on each side of the walk; at minimum the set must be connected
        let plotted = colored_pixels(&fb, 10, 10, green);
        let mut seen = vec![(x0, y0)];
        let mut grew = true;
        while grew {
            grew = false;
            for &p in &plotted {
                if !seen.contains(&p)
                    && seen.iter().any(|&(sx, sy)| (sx - p.0).abs() <= 1 && (sy - p.1).abs() <= 1)
                {
                    seen.push(p);
                    grew = true;
                }
            }
        }
        assert_eq!(seen.len(), plotted.len(), "gap in segment {:?} -> {:?}", (x0, y0), (x1, y1));
    }
}

#[test]
fn border_wraps_closed() {
    let black = Color::rgb(0, 0, 0);
    let green = Color::rgb(0, 255, 0);
    let mut fb = FrameBuffer::new(12, 12, black);
    let poly = fill_poly(&[(2, 2), (9, 2), (9, 9), (2, 9)], green, green);
    draw_polygon_border(&poly, &mut fb);
    // all four sides, the closing edge from last vertex back to first included
    for i in 2..=9 {
        assert_eq!(fb.get_pixel(i, 2), green);
        assert_eq!(fb.get_pixel(i, 9), green);
        assert_eq!(fb.get_pixel(2, i), green);
        assert_eq!(fb.get_pixel(9, i), green);
    }
    assert_eq!(fb.get_pixel(5, 5), black);
}

#[test]
fn triangle_scene_and_rerun_identical() {
    let white = Color::rgb(255, 255, 255);
    let red = Color::rgb(255, 0, 0);
    let w = 800;
    let h = 600;
    let polys = vec![fill_poly(&[(377, 249), (411, 197), (436, 249)], red, white)];

    // the fill pass alone paints one contiguous red region
    let mut fill_only = FrameBuffer::new(w, h, white);
    scanline_fill_with_holes(&polys, &mut fill_only);
    let filled = colored_pixels(&fill_only, w, h, red);
    assert!(!filled.is_empty());
    let mut seen = vec![false; (w * h) as usize];
    let mut queue = vec![(408, 230)];
    seen[(230 * w + 408) as usize] = true;
    let mut reached = 0usize;
    while let Some((x, y)) = queue.pop() {
        reached += 1;
        for (nx, ny) in [
            (x + 1, y),
            (x - 1, y),
            (x, y + 1),
            (x, y - 1),
            (x + 1, y + 1),
            (x + 1, y - 1),
            (x - 1, y + 1),
            (x - 1, y - 1),
        ] {
            if nx >= 0 && nx < w && ny >= 0 && ny < h {
                let idx = (ny * w + nx) as usize;
                if !seen[idx] && fill_only.get_pixel(nx, ny) == red {
                    seen[idx] = true;
                    queue.push((nx, ny));
                }
            }
        }
    }
    assert_eq!(reached, filled.len(), "fill region must be one 8-connected blob");

    let mut fb = FrameBuffer::new(w, h, white);
    fb.clear(white);
    rasterize(&polys, &mut fb);

    // a red region inside the triangle, background color outside it
    assert_eq!(fb.get_pixel(408, 230), red);
    assert_eq!(fb.get_pixel(100, 100), white);
    assert_eq!(fb.get_pixel(377, 100), white);
    assert_eq!(fb.get_pixel(500, 249), white);
    // the border pixels along the triangle's edges hold the border color
    // (white, indistinguishable from the background here): just outside the
    // triangle everything is white
    assert_eq!(fb.get_pixel(377, 250), white);
    assert_eq!(fb.get_pixel(436, 250), white);

    // running the identical pass again is pixel-identical
    let mut fb2 = FrameBuffer::new(w, h, white);
    fb2.clear(white);
    rasterize(&polys, &mut fb2);
    rasterize(&polys, &mut fb2);
    for y in 0..h {
        for x in 0..w {
            assert_eq!(fb.get_pixel(x, y), fb2.get_pixel(x, y));
        }
    }
}

#[test]
fn out_of_bounds_vertices_clip_cleanly() {
    let white = Color::rgb(255, 255, 255);
    let red = Color::rgb(255, 0, 0);
    let blue = Color::rgb(0, 0, 255);
    let w = 800;
    let h = 600;
    let mut fb = FrameBuffer::new(w, h, white);
    let polys = vec![fill_poly(&[(-50, 10), (10000, 10), (500, 300)], red, blue)];
    rasterize(&polys, &mut fb);
    // an interior pixel well inside the buffer is filled
    assert_eq!(fb.get_pixel(500, 200), red);
    // reads outside the buffer still return the background sentinel
    assert_eq!(fb.get_pixel(-1, 10), white);
    assert_eq!(fb.get_pixel(w, 10), white);
    // a pixel far from the triangle stays background
    assert_eq!(fb.get_pixel(10, 590), white);
}

#[test]
fn degenerate_polygons() {
    let white = Color::rgb(255, 255, 255);
    let red = Color::rgb(255, 0, 0);
    let blue = Color::rgb(0, 0, 255);
    let w = 20;
    let h = 20;

    // two points: no fill, but a border is still drawn
    let mut fb = FrameBuffer::new(w, h, white);
    let polys = vec![fill_poly(&[(3, 3), (12, 3)], red, blue)];
    rasterize(&polys, &mut fb);
    assert!(colored_pixels(&fb, w, h, red).is_empty());
    for x in 3..=12 {
        assert_eq!(fb.get_pixel(x, 3), blue);
    }

    // one point: nothing at all
    let mut fb = FrameBuffer::new(w, h, white);
    let polys = vec![fill_poly(&[(5, 5)], red, blue)];
    rasterize(&polys, &mut fb);
    assert!(colored_pixels(&fb, w, h, red).is_empty());
    assert!(colored_pixels(&fb, w, h, blue).is_empty());

    // three collinear points on one horizontal line: no fill, a degenerate
    // border of overlapping segments, and no division by zero anywhere
    let mut fb = FrameBuffer::new(w, h, white);
    let polys = vec![fill_poly(&[(2, 7), (9, 7), (15, 7)], red, blue)];
    rasterize(&polys, &mut fb);
    assert!(colored_pixels(&fb, w, h, red).is_empty());
    for x in 2..=15 {
        assert_eq!(fb.get_pixel(x, 7), blue);
    }
}

#[test]
fn later_fill_overwrites_earlier() {
    let white = Color::rgb(255, 255, 255);
    let red = Color::rgb(255, 0, 0);
    let green = Color::rgb(0, 255, 0);
    let mut fb = FrameBuffer::new(20, 20, white);
    let polys = vec![
        fill_poly(&[(2, 2), (12, 2), (12, 12), (2, 12)], red, red),
        fill_poly(&[(8, 8), (18, 8), (18, 18), (8, 18)], green, green),
    ];
    scanline_fill_with_holes(&polys, &mut fb);
    assert_eq!(fb.get_pixel(4, 4), red);
    assert_eq!(fb.get_pixel(10, 10), green);
    assert_eq!(fb.get_pixel(16, 16), green);
}

#[test]
fn zero_width_spans_fill_single_pixels() {
    // a ring of vertically collinear points: every scanline in range meets
    // two edges at the same x, giving a zero-width span that still fills
    // that one pixel
    let white = Color::rgb(255, 255, 255);
    let red = Color::rgb(255, 0, 0);
    let mut fb = FrameBuffer::new(12, 12, white);
    let polys = vec![fill_poly(&[(5, 2), (5, 8), (5, 5)], red, red)];
    scanline_fill_with_holes(&polys, &mut fb);
    for y in 2..8 {
        assert_eq!(fb.get_pixel(5, y), red, "row {}", y);
    }
    for y in 0..12 {
        for x in 0..12 {
            if x != 5 || !(2..8).contains(&y) {
                assert_eq!(fb.get_pixel(x, y), white, "pixel ({}, {})", x, y);
            }
        }
    }
}
