//! Border drawing: integer Bresenham lines between consecutive ring
//! vertices, the closing edge from the last vertex back to the first
//! included. Borders are drawn after all fills so that fill never overwrites
//! them.

use vstd::prelude::*;
use crate::framebuffer::Color;
use crate::framebuffer::FrameBuffer;
use crate::geometry::Point;
use crate::geometry::Polygon;
use crate::geometry::next_vertex;
use crate::scanline::pt;

verus! {

/// Magnitude of an integer.
pub open spec fn abs_i(v: int) -> int {
    if v < 0 {
        -v
    } else {
        v
    }
}

/// The points the Bresenham walk plots from `(x, y)` with error term `err`
/// until it reaches `(x1, y1)`, plotting at most `fuel` points. Each step
/// advances x by `sx` when twice the error exceeds `-dy`, and y by `sy` when
/// twice the error is below `dx`; both may fire in one step (a diagonal
/// move).
pub open spec fn bres_trace(
    x: int,
    y: int,
    err: int,
    sx: int,
    sy: int,
    dx: int,
    dy: int,
    x1: int,
    y1: int,
    fuel: nat,
) -> Seq<Point>
    decreases fuel,
{
    if fuel == 0 {
        Seq::empty()
    } else if x == x1 && y == y1 {
        seq![pt(x, y)]
    } else {
        let e2 = 2 * err;
        let nx = if e2 > -dy {
            x + sx
        } else {
            x
        };
        let err1 = if e2 > -dy {
            err - dy
        } else {
            err
        };
        let ny = if e2 < dx {
            y + sy
        } else {
            y
        };
        let err2 = if e2 < dx {
            err1 + dx
        } else {
            err1
        };
        seq![pt(x, y)] + bres_trace(nx, ny, err2, sx, sy, dx, dy, x1, y1, (fuel - 1) as nat)
    }
}

/// The pixels of the Bresenham line from `p0` to `p1`, in plotting order.
pub open spec fn bres_points(p0: Point, p1: Point) -> Seq<Point> {
    let dx = abs_i(p1.x - p0.x);
    let dy = abs_i(p1.y - p0.y);
    bres_trace(
        p0.x as int,
        p0.y as int,
        dx - dy,
        if p0.x < p1.x {
            1
        } else {
            -1
        },
        if p0.y < p1.y {
            1
        } else {
            -1
        },
        dx,
        dy,
        p1.x as int,
        p1.y as int,
        (dx + dy + 1) as nat,
    )
}

/// Draws the Bresenham line from `p0` to `p1`: afterwards every in-bounds
/// pixel of `bres_points(p0, p1)` holds `color` and every other pixel is
/// unchanged.
pub fn draw_segment(p0: Point, p1: Point, color: Color, fb: &mut FrameBuffer)
    requires
        old(fb).wf(),
    ensures
        final(fb).wf(),
        final(fb).width == old(fb).width,
        final(fb).height == old(fb).height,
        final(fb).background == old(fb).background,
        forall|xi: int, yi: int|
            #[trigger] final(fb).pixel_at(xi, yi) == if 0 <= xi < old(fb).width && 0 <= yi < old(
                fb,
            ).height && bres_points(p0, p1).contains(pt(xi, yi)) {
                color
            } else {
                old(fb).pixel_at(xi, yi)
            },
{
    let ghost w = fb.width as int;
    let ghost h = fb.height as int;
    let dx: i64 = if p1.x >= p0.x {
        p1.x as i64 - p0.x as i64
    } else {
        p0.x as i64 - p1.x as i64
    };
    let dy: i64 = if p1.y >= p0.y {
        p1.y as i64 - p0.y as i64
    } else {
        p0.y as i64 - p1.y as i64
    };
    let sx: i32 = if p0.x < p1.x {
        1
    } else {
        -1
    };
    let sy: i32 = if p0.y < p1.y {
        1
    } else {
        -1
    };
    let mut err: i64 = dx - dy;
    let mut x: i32 = p0.x;
    let mut y: i32 = p0.y;
    let ghost mut xs: int = 0;
    let ghost mut ys: int = 0;
    let ghost mut dev: int = 0;
    let ghost mut plotted: Seq<Point> = Seq::empty();
    let ghost fuel_all = dx + dy + 1;
    let ghost mx: int = if dx > dy {
        dx as int
    } else {
        dy as int
    };
    proof {
        assert(bres_points(p0, p1) == plotted + bres_trace(
            x as int,
            y as int,
            err as int,
            sx as int,
            sy as int,
            dx as int,
            dy as int,
            p1.x as int,
            p1.y as int,
            (fuel_all - plotted.len()) as nat,
        ));
    }
    while !(x == p1.x && y == p1.y)
        invariant
            fb.wf(),
            fb.width == old(fb).width,
            fb.height == old(fb).height,
            fb.background == old(fb).background,
            w == old(fb).width as int,
            h == old(fb).height as int,
            dx == abs_i(p1.x - p0.x),
            dy == abs_i(p1.y - p0.y),
            sx == (if p0.x < p1.x {
                1int
            } else {
                -1int
            }),
            sy == (if p0.y < p1.y {
                1int
            } else {
                -1int
            }),
            x == (if p0.x < p1.x {
                p0.x + xs
            } else {
                p0.x - xs
            }),
            y == (if p0.y < p1.y {
                p0.y + ys
            } else {
                p0.y - ys
            }),
            0 <= xs <= dx,
            0 <= ys <= dy,
            (x == p1.x) == (xs == dx),
            (y == p1.y) == (ys == dy),
            dev == xs * dy - ys * dx,
            mx == (if dx > dy {
                dx as int
            } else {
                dy as int
            }),
            -mx <= 2 * dev <= mx,
            err == dx - dy - dev,
            plotted.len() <= xs + ys,
            bres_points(p0, p1) == plotted + bres_trace(
                x as int,
                y as int,
                err as int,
                sx as int,
                sy as int,
                dx as int,
                dy as int,
                p1.x as int,
                p1.y as int,
                (fuel_all - plotted.len()) as nat,
            ),
            fuel_all == dx + dy + 1,
            forall|xi: int, yi: int|
                #[trigger] fb.pixel_at(xi, yi) == if 0 <= xi < w && 0 <= yi < h
                    && plotted.contains(pt(xi, yi)) {
                    color
                } else {
                    old(fb).pixel_at(xi, yi)
                },
        decreases (dx - xs) + (dy - ys),
    {
        fb.set_pixel(x, y, color);
        proof {
            let ghost prev = plotted;
            plotted = plotted.push(pt(x as int, y as int));
            assert(pt(x as int, y as int) == (Point { x, y }));
            assert forall|q: Point| plotted.contains(q) == (prev.contains(q) || q == (Point {
                x,
                y,
            })) by {
                if plotted.contains(q) {
                    let i = choose|i: int| 0 <= i < plotted.len() && plotted[i] == q;
                    if i < prev.len() {
                        assert(prev.contains(q));
                    }
                }
                if prev.contains(q) {
                    let i = choose|i: int| 0 <= i < prev.len() && prev[i] == q;
                    assert(plotted[i] == q);
                }
                if q == (Point { x, y }) {
                    assert(plotted.last() == q);
                }
            }
        }
        let e2: i64 = 2 * err;
        let ghost old_xs = xs;
        let ghost old_ys = ys;
        let ghost old_dev = dev;
        if e2 > -dy {
            proof {
                if xs == dx {
                    // x is already at its endpoint, so y is not; the error
                    // test cannot ask for another x step.
                    assert(ys < dy);
                    assert(dev == dx * (dy - ys)) by (nonlinear_arith)
                        requires
                            dev == xs * dy - ys * dx,
                            xs == dx,
                    ;
                    assert(dev >= dx) by (nonlinear_arith)
                        requires
                            dev == dx * (dy - ys),
                            dy - ys >= 1,
                            dx >= 0,
                    ;
                    assert(false);
                }
                assert((xs + 1) * dy - ys * dx == dev + dy) by (nonlinear_arith)
                    requires
                        dev == xs * dy - ys * dx,
                ;
                xs = xs + 1;
                dev = dev + dy;
            }
            err = err - dy;
            x = x + sx;
        }
        if e2 < dx {
            proof {
                if ys == dy {
                    assert(old_xs < dx);
                    assert(old_dev == dy * (old_xs - dx)) by (nonlinear_arith)
                        requires
                            old_dev == old_xs * dy - dy * dx,
                    ;
                    assert(old_dev <= -dy) by (nonlinear_arith)
                        requires
                            old_dev == dy * (old_xs - dx),
                            old_xs - dx <= -1,
                            dy >= 0,
                    ;
                    assert(false);
                }
                assert(xs * dy - (ys + 1) * dx == dev - dx) by (nonlinear_arith)
                    requires
                        dev == xs * dy - ys * dx,
                ;
                ys = ys + 1;
                dev = dev - dx;
            }
            err = err + dx;
            y = y + sy;
        }
        proof {
            if old_xs == xs && old_ys == ys {
                // neither test fired: both distances must be zero, yet the
                // loop condition says the endpoint is not reached
                assert(dx <= 2 * err && 2 * err <= -dy);
                assert(false);
            }
            assert(plotted.len() <= xs + ys);
            assert((fuel_all - (plotted.len() - 1)) as nat == ((fuel_all - plotted.len()) as nat)
                + 1);
            assert(bres_points(p0, p1) == plotted + bres_trace(
                x as int,
                y as int,
                err as int,
                sx as int,
                sy as int,
                dx as int,
                dy as int,
                p1.x as int,
                p1.y as int,
                (fuel_all - plotted.len()) as nat,
            ));
        }
    }
    fb.set_pixel(x, y, color);
    proof {
        let ghost prev = plotted;
        assert((fuel_all - prev.len()) as nat >= 1);
        assert(bres_trace(
            x as int,
            y as int,
            err as int,
            sx as int,
            sy as int,
            dx as int,
            dy as int,
            p1.x as int,
            p1.y as int,
            (fuel_all - prev.len()) as nat,
        ) == seq![pt(x as int, y as int)]);
        plotted = plotted.push(pt(x as int, y as int));
        assert(plotted =~= prev + seq![pt(x as int, y as int)]);
        assert(plotted == bres_points(p0, p1));
        assert(pt(x as int, y as int) == (Point { x, y }));
        assert forall|q: Point| plotted.contains(q) == (prev.contains(q) || q == (Point {
            x,
            y,
        })) by {
            if plotted.contains(q) {
                let i = choose|i: int| 0 <= i < plotted.len() && plotted[i] == q;
                if i < prev.len() {
                    assert(prev.contains(q));
                }
            }
            if prev.contains(q) {
                let i = choose|i: int| 0 <= i < prev.len() && prev[i] == q;
                assert(plotted[i] == q);
            }
            if q == (Point { x, y }) {
                assert(plotted.last() == q);
            }
        }
    }
}

/// Some pixel of the border of one of the first `n` ring edges is `q`.
pub open spec fn border_covers_upto(pts: Seq<Point>, n: int, q: Point) -> bool {
    exists|i: int|
        0 <= i < n && #[trigger] bres_points(pts[i], pts[next_vertex(i, pts.len() as int)]).contains(
            q,
        )
}

/// `q` lies on the drawn border of the ring: on the Bresenham line of one of
/// its edges, the closing edge included. Rings with fewer than two vertices
/// draw nothing.
pub open spec fn border_covers(pts: Seq<Point>, q: Point) -> bool {
    pts.len() >= 2 && border_covers_upto(pts, pts.len() as int, q)
}

/// Draws the closed border of `polygon` in its border color: one Bresenham
/// line per consecutive vertex pair, wrapping from the last vertex back to
/// the first. A polygon with fewer than two vertices is skipped entirely.
pub fn draw_polygon_border(polygon: &Polygon, framebuffer: &mut FrameBuffer)
    requires
        old(framebuffer).wf(),
    ensures
        final(framebuffer).wf(),
        final(framebuffer).width == old(framebuffer).width,
        final(framebuffer).height == old(framebuffer).height,
        final(framebuffer).background == old(framebuffer).background,
        forall|xi: int, yi: int|
            #[trigger] final(framebuffer).pixel_at(xi, yi) == if 0 <= xi < old(framebuffer).width
                && 0 <= yi < old(framebuffer).height && border_covers(polygon.points@, pt(xi, yi)) {
                polygon.border_color
            } else {
                old(framebuffer).pixel_at(xi, yi)
            },
{
    let pts = &polygon.points;
    let n: usize = pts.len();
    if n < 2 {
        return ;
    }
    let ghost w = framebuffer.width as int;
    let ghost h = framebuffer.height as int;
    let mut i: usize = 0;
    while i < n
        invariant
            framebuffer.wf(),
            framebuffer.width == old(framebuffer).width,
            framebuffer.height == old(framebuffer).height,
            framebuffer.background == old(framebuffer).background,
            w == old(framebuffer).width as int,
            h == old(framebuffer).height as int,
            i <= n,
            n == pts@.len(),
            2 <= n,
            pts == &polygon.points,
            forall|xi: int, yi: int|
                #[trigger] framebuffer.pixel_at(xi, yi) == if 0 <= xi < w && 0 <= yi < h
                    && border_covers_upto(pts@, i as int, pt(xi, yi)) {
                    polygon.border_color
                } else {
                    old(framebuffer).pixel_at(xi, yi)
                },
        decreases n - i,
    {
        let p1 = pts[i];
        let j: usize = if i + 1 < n {
            i + 1
        } else {
            0
        };
        let p2 = pts[j];
        let ghost before = *framebuffer;
        draw_segment(p1, p2, polygon.border_color, framebuffer);
        proof {
            assert forall|xi: int, yi: int| true implies #[trigger] framebuffer.pixel_at(xi, yi)
                == if 0 <= xi < w && 0 <= yi < h && border_covers_upto(pts@, i + 1, pt(xi, yi)) {
                polygon.border_color
            } else {
                old(framebuffer).pixel_at(xi, yi)
            } by {
                let q = pt(xi, yi);
                if border_covers_upto(pts@, i + 1, q) && !border_covers_upto(pts@, i as int, q) {
                    let k = choose|k: int|
                        0 <= k < i + 1 && #[trigger] bres_points(
                            pts@[k],
                            pts@[next_vertex(k, pts@.len() as int)],
                        ).contains(q);
                    assert(k == i);
                    assert(bres_points(p1, p2).contains(q));
                }
                if bres_points(p1, p2).contains(q) {
                    assert(bres_points(
                        pts@[i as int],
                        pts@[next_vertex(i as int, pts@.len() as int)],
                    ).contains(q));
                    assert(border_covers_upto(pts@, i + 1, q));
                }
            }
        }
        i = i + 1;
    }
}

/// Two pixels are 8-adjacent: distinct, and apart by at most one in each
/// coordinate.
pub open spec fn adjacent(a: Point, b: Point) -> bool {
    a != b && -1 <= a.x - b.x <= 1 && -1 <= a.y - b.y <= 1
}

/// Every reachable Bresenham walk state leads, within its fuel, to a plotted
/// sequence that starts at the current pixel, ends at the endpoint, and moves
/// between 8-adjacent pixels.
proof fn lemma_bres_trace_connected(
    x: int,
    y: int,
    err: int,
    sx: int,
    sy: int,
    dx: int,
    dy: int,
    x1: int,
    y1: int,
    fuel: nat,
    xs: int,
    ys: int,
)
    requires
        0 <= dx,
        0 <= dy,
        sx == 1 || sx == -1,
        sy == 1 || sy == -1,
        x1 - x == sx * (dx - xs),
        y1 - y == sy * (dy - ys),
        0 <= xs <= dx,
        0 <= ys <= dy,
        err == dx - dy - (xs * dy - ys * dx),
        -(if dx > dy {
            dx
        } else {
            dy
        }) <= 2 * (xs * dy - ys * dx) <= (if dx > dy {
            dx
        } else {
            dy
        }),
        fuel >= dx + dy + 1 - (xs + ys),
        i32::MIN <= x <= i32::MAX,
        i32::MIN <= y <= i32::MAX,
        i32::MIN <= x1 <= i32::MAX,
        i32::MIN <= y1 <= i32::MAX,
    ensures
        bres_trace(x, y, err, sx, sy, dx, dy, x1, y1, fuel).len() >= 1,
        bres_trace(x, y, err, sx, sy, dx, dy, x1, y1, fuel).first() == pt(x, y),
        bres_trace(x, y, err, sx, sy, dx, dy, x1, y1, fuel).last() == pt(x1, y1),
        forall|i: int|
            0 <= i < bres_trace(x, y, err, sx, sy, dx, dy, x1, y1, fuel).len() - 1 ==> #[trigger] adjacent(
                bres_trace(x, y, err, sx, sy, dx, dy, x1, y1, fuel)[i],
                bres_trace(x, y, err, sx, sy, dx, dy, x1, y1, fuel)[i + 1],
            ),
    decreases fuel,
{
    let s = bres_trace(x, y, err, sx, sy, dx, dy, x1, y1, fuel);
    if x == x1 && y == y1 {
        assert(s == seq![pt(x, y)]);
    } else {
        let dev = xs * dy - ys * dx;
        let e2 = 2 * err;
        let fx = e2 > -dy;
        let fy = e2 < dx;
        if xs == dx {
            assert(x1 - x == 0) by (nonlinear_arith)
                requires
                    x1 - x == sx * (dx - xs),
                    xs == dx,
            ;
        }
        if ys == dy {
            assert(y1 - y == 0) by (nonlinear_arith)
                requires
                    y1 - y == sy * (dy - ys),
                    ys == dy,
            ;
        }
        if fx && xs == dx {
            assert(ys < dy);
            assert(dev == dx * (dy - ys)) by (nonlinear_arith)
                requires
                    dev == xs * dy - ys * dx,
                    xs == dx,
            ;
            assert(dev >= dx) by (nonlinear_arith)
                requires
                    dev == dx * (dy - ys),
                    dy - ys >= 1,
                    dx >= 0,
            ;
            assert(false);
        }
        if fy && ys == dy {
            assert(xs < dx);
            assert(dev == dy * (xs - dx)) by (nonlinear_arith)
                requires
                    dev == xs * dy - dy * dx,
            ;
            assert(dev <= -dy) by (nonlinear_arith)
                requires
                    dev == dy * (xs - dx),
                    xs - dx <= -1,
                    dy >= 0,
            ;
            assert(false);
        }
        if !fx && !fy {
            assert(dx <= 2 * err && 2 * err <= -dy);
            assert(dx == 0 && dy == 0);
            assert(x1 - x == 0) by (nonlinear_arith)
                requires
                    x1 - x == sx * (dx - xs),
                    xs == dx,
            ;
            assert(y1 - y == 0) by (nonlinear_arith)
                requires
                    y1 - y == sy * (dy - ys),
                    ys == dy,
            ;
            assert(false);
        }
        let nxs = if fx {
            xs + 1
        } else {
            xs
        };
        let nys = if fy {
            ys + 1
        } else {
            ys
        };
        let nx = if fx {
            x + sx
        } else {
            x
        };
        let ny = if fy {
            y + sy
        } else {
            y
        };
        let nerr = err - (if fx {
            dy
        } else {
            0
        }) + (if fy {
            dx
        } else {
            0
        });
        let ndev = nxs * dy - nys * dx;
        assert(ndev == dev + (if fx {
            dy
        } else {
            0
        }) - (if fy {
            dx
        } else {
            0
        })) by (nonlinear_arith)
            requires
                dev == xs * dy - ys * dx,
                ndev == nxs * dy - nys * dx,
                nxs == (if fx {
                    xs + 1
                } else {
                    xs
                }),
                nys == (if fy {
                    ys + 1
                } else {
                    ys
                }),
        ;
        assert(x1 - nx == sx * (dx - nxs)) by (nonlinear_arith)
            requires
                x1 - x == sx * (dx - xs),
                nx == (if fx {
                    x + sx
                } else {
                    x
                }),
                nxs == (if fx {
                    xs + 1
                } else {
                    xs
                }),
                sx == 1 || sx == -1,
        ;
        assert(y1 - ny == sy * (dy - nys)) by (nonlinear_arith)
            requires
                y1 - y == sy * (dy - ys),
                ny == (if fy {
                    y + sy
                } else {
                    y
                }),
                nys == (if fy {
                    ys + 1
                } else {
                    ys
                }),
                sy == 1 || sy == -1,
        ;
        // the next pixel stays between the current one and the endpoint
        assert((x <= nx && nx <= x1) || (x1 <= nx && nx <= x)) by (nonlinear_arith)
            requires
                x1 - x == sx * (dx - xs),
                nx == (if fx {
                    x + sx
                } else {
                    x
                }),
                sx == 1 || sx == -1,
                0 <= xs,
                fx ==> xs < dx,
                !fx ==> xs <= dx,
        ;
        assert((y <= ny && ny <= y1) || (y1 <= ny && ny <= y)) by (nonlinear_arith)
            requires
                y1 - y == sy * (dy - ys),
                ny == (if fy {
                    y + sy
                } else {
                    y
                }),
                sy == 1 || sy == -1,
                0 <= ys,
                fy ==> ys < dy,
                !fy ==> ys <= dy,
        ;
        assert(i32::MIN <= nx <= i32::MAX);
        assert(i32::MIN <= ny <= i32::MAX);
        lemma_bres_trace_connected(
            nx,
            ny,
            nerr,
            sx,
            sy,
            dx,
            dy,
            x1,
            y1,
            (fuel - 1) as nat,
            nxs,
            nys,
        );
        let s2 = bres_trace(nx, ny, nerr, sx, sy, dx, dy, x1, y1, (fuel - 1) as nat);
        assert(s == seq![pt(x, y)] + s2);
        assert(s.last() == pt(x1, y1));
        assert(adjacent(pt(x, y), pt(nx, ny)));
        assert forall|i: int| 0 <= i < s.len() - 1 implies #[trigger] adjacent(s[i], s[i + 1]) by {
            if i == 0 {
                assert(s[0] == pt(x, y));
                assert(s[1] == s2[0]);
                assert(s2.first() == pt(nx, ny));
            } else {
                let k = i - 1;
                assert(s[i] == s2[k]);
                assert(s[i + 1] == s2[k + 1]);
                assert(adjacent(s2[k], s2[k + 1]));
            }
        }
    }
}

/// Law: border drawing never leaves gaps. The pixels of the Bresenham line
/// between two vertices form an 8-connected path that starts at the first
/// vertex and ends at the second.
pub proof fn lemma_bresenham_connected(p0: Point, p1: Point)
    ensures
        bres_points(p0, p1).len() >= 1,
        bres_points(p0, p1).first() == p0,
        bres_points(p0, p1).last() == p1,
        forall|i: int|
            0 <= i < bres_points(p0, p1).len() - 1 ==> #[trigger] adjacent(
                bres_points(p0, p1)[i],
                bres_points(p0, p1)[i + 1],
            ),
{
    let dx = abs_i(p1.x - p0.x);
    let dy = abs_i(p1.y - p0.y);
    let sx: int = if p0.x < p1.x {
        1
    } else {
        -1
    };
    let sy: int = if p0.y < p1.y {
        1
    } else {
        -1
    };
    assert(p1.x - p0.x == sx * (dx - 0)) by (nonlinear_arith)
        requires
            dx == abs_i(p1.x - p0.x),
            sx == (if p0.x < p1.x {
                1int
            } else {
                -1int
            }),
    ;
    assert(p1.y - p0.y == sy * (dy - 0)) by (nonlinear_arith)
        requires
            dy == abs_i(p1.y - p0.y),
            sy == (if p0.y < p1.y {
                1int
            } else {
                -1int
            }),
    ;
    lemma_bres_trace_connected(
        p0.x as int,
        p0.y as int,
        dx - dy,
        sx,
        sy,
        dx,
        dy,
        p1.x as int,
        p1.y as int,
        (dx + dy + 1) as nat,
        0,
        0,
    );
    assert(pt(p0.x as int, p0.y as int) == p0);
    assert(pt(p1.x as int, p1.y as int) == p1);
}

} // verus!
