//! Scanline polygon filling with hole subtraction.
//!
//! For every non-hole polygon with at least three vertices, each scanline in
//! the polygon's vertical range collects the x-crossings of the ring's
//! non-horizontal edges, sorts them, pairs them consecutively, and fills each
//! inclusive span — skipping any pixel that lies inside a hole polygon.

use vstd::prelude::*;
use crate::divmod::div_trunc;
use crate::divmod::lemma_trunc_div_bound;
use crate::divmod::trunc_div;
use crate::framebuffer::Color;
use crate::framebuffer::FrameBuffer;
use crate::geometry::Point;
use crate::geometry::Polygon;
use crate::geometry::next_vertex;
use crate::geometry::in_any_hole;
use crate::geometry::point_in_holes;

verus! {

/// A spec-level point from unbounded coordinates; the identity on every
/// coordinate pair that fits in an `i32` (in particular on every in-bounds
/// pixel coordinate).
pub open spec fn pt(x: int, y: int) -> Point {
    Point { x: x as i32, y: y as i32 }
}

/// A sequence of machine integers, viewed as mathematical integers.
pub open spec fn int_view(s: Seq<i32>) -> Seq<int> {
    s.map_values(|v: i32| v as int)
}

/// The smallest vertex y among the first `n` vertices.
pub open spec fn min_y_upto(pts: Seq<Point>, n: int) -> int
    recommends
        1 <= n <= pts.len(),
    decreases n,
{
    if n <= 1 {
        pts[0].y as int
    } else {
        let rest = min_y_upto(pts, n - 1);
        if pts[n - 1].y < rest {
            pts[n - 1].y as int
        } else {
            rest
        }
    }
}

/// The largest vertex y among the first `n` vertices.
pub open spec fn max_y_upto(pts: Seq<Point>, n: int) -> int
    recommends
        1 <= n <= pts.len(),
    decreases n,
{
    if n <= 1 {
        pts[0].y as int
    } else {
        let rest = max_y_upto(pts, n - 1);
        if pts[n - 1].y > rest {
            pts[n - 1].y as int
        } else {
            rest
        }
    }
}

/// The smallest vertex y of the ring.
pub open spec fn ring_min_y(pts: Seq<Point>) -> int {
    min_y_upto(pts, pts.len() as int)
}

/// The largest vertex y of the ring.
pub open spec fn ring_max_y(pts: Seq<Point>) -> int {
    max_y_upto(pts, pts.len() as int)
}

/// Scanline `y` meets the edge from `a` to `b`: the edge is not horizontal
/// and `y` lies in the half-open interval from the lower endpoint y
/// (inclusive) to the higher (exclusive). The half-open test is what keeps a
/// scanline through a shared vertex from being counted twice.
pub open spec fn edge_hit(a: Point, b: Point, y: int) -> bool {
    a.y != b.y && ((a.y <= y && y < b.y) || (b.y <= y && y < a.y))
}

/// The x-coordinate where the edge from `a` to `b` meets scanline `y`, by
/// truncating linear interpolation.
pub open spec fn scan_x(a: Point, b: Point, y: int) -> int
    recommends
        a.y != b.y,
{
    a.x + trunc_div((y - a.y) * (b.x - a.x), (b.y - a.y))
}

/// The x-crossings of scanline `y` with the first `n` ring edges, in edge
/// order.
pub open spec fn xings_upto(pts: Seq<Point>, y: int, n: int) -> Seq<int>
    recommends
        0 <= n <= pts.len(),
    decreases n,
{
    if n <= 0 {
        Seq::empty()
    } else {
        let prefix = xings_upto(pts, y, n - 1);
        let a = pts[n - 1];
        let b = pts[next_vertex(n - 1, pts.len() as int)];
        if edge_hit(a, b, y) {
            prefix.push(scan_x(a, b, y))
        } else {
            prefix
        }
    }
}

/// All x-crossings of scanline `y` with the ring's edges, in edge order.
pub open spec fn xings(pts: Seq<Point>, y: int) -> Seq<int> {
    xings_upto(pts, y, pts.len() as int)
}

/// `s` with `v` inserted before the (possibly empty) maximal suffix of
/// elements greater than `v` — the sorted position when `s` is sorted.
pub open spec fn insert_sorted(s: Seq<int>, v: int) -> Seq<int>
    decreases s.len(),
{
    if s.len() == 0 {
        seq![v]
    } else if s.last() <= v {
        s.push(v)
    } else {
        insert_sorted(s.drop_last(), v).push(s.last())
    }
}

/// `s` sorted ascending by insertion.
pub open spec fn sort_ints(s: Seq<int>) -> Seq<int>
    decreases s.len(),
{
    if s.len() == 0 {
        Seq::empty()
    } else {
        insert_sorted(sort_ints(s.drop_last()), s.last())
    }
}

/// The `j`-th consecutive pair of `s` is a complete pair and its inclusive
/// span holds `x`.
pub open spec fn span_covers(s: Seq<int>, j: int, x: int) -> bool {
    2 * j + 1 < s.len() && s[2 * j] <= x <= s[2 * j + 1]
}

/// `x` lies in one of the first `k` consecutive pairs of `s`.
pub open spec fn in_spans_upto(s: Seq<int>, k: int, x: int) -> bool {
    exists|j: int| 0 <= j < k && #[trigger] span_covers(s, j, x)
}

/// `x` lies in one of the consecutive pairs of `s` (a trailing unpaired
/// element spans nothing).
pub open spec fn in_spans(s: Seq<int>, x: int) -> bool {
    exists|j: int| 0 <= j && #[trigger] span_covers(s, j, x)
}

/// The fill pass covers `(x, y)` for this ring: the ring has at least three
/// vertices and `x` lies in a span of the sorted scanline crossings at `y`.
pub open spec fn fill_covers(pts: Seq<Point>, x: int, y: int) -> bool {
    pts.len() >= 3 && in_spans(sort_ints(xings(pts, y)), x)
}

/// The fill color painted at `(x, y)` by the polygons of `polys`, holes
/// ignored: the last non-hole polygon whose fill covers the pixel wins.
pub open spec fn fill_color_at(polys: Seq<Polygon>, x: int, y: int) -> Option<Color>
    decreases polys.len(),
{
    if polys.len() == 0 {
        None
    } else {
        let p = polys.last();
        if !p.is_hole && fill_covers(p.points@, x, y) {
            Some(p.fill_color)
        } else {
            fill_color_at(polys.drop_last(), x, y)
        }
    }
}

/// The color of pixel `(x, y)` after the fill pass over `polys`, given the
/// color `prev` it held before: unchanged when the pixel lies in a hole or no
/// fill polygon covers it.
pub open spec fn filled_pixel(polys: Seq<Polygon>, x: int, y: int, prev: Color) -> Color {
    if in_any_hole(pt(x, y), polys) {
        prev
    } else {
        match fill_color_at(polys, x, y) {
            Some(c) => c,
            None => prev,
        }
    }
}

/// Every vertex y of a nonempty prefix lies between that prefix's minimum
/// and maximum.
proof fn lemma_y_bounds_upto(pts: Seq<Point>, i: int, n: int)
    requires
        0 <= i < n <= pts.len(),
    ensures
        min_y_upto(pts, n) <= pts[i].y <= max_y_upto(pts, n),
    decreases n,
{
    if i < n - 1 {
        lemma_y_bounds_upto(pts, i, n - 1);
    }
}

/// A scanline strictly below the ring's lowest vertex or at/above its
/// highest crosses no edge.
proof fn lemma_xings_empty_outside(pts: Seq<Point>, y: int, n: int)
    requires
        1 <= pts.len(),
        0 <= n <= pts.len(),
        y < ring_min_y(pts) || y >= ring_max_y(pts),
    ensures
        xings_upto(pts, y, n) == Seq::<int>::empty(),
    decreases n,
{
    if n > 0 {
        lemma_xings_empty_outside(pts, y, n - 1);
        let a = pts[n - 1];
        let b = pts[next_vertex(n - 1, pts.len() as int)];
        lemma_y_bounds_upto(pts, n - 1, pts.len() as int);
        lemma_y_bounds_upto(pts, next_vertex(n - 1, pts.len() as int), pts.len() as int);
        assert(!edge_hit(a, b, y));
    }
}

/// The smallest and largest vertex y of a nonempty vertex list.
fn ring_y_bounds(pts: &Vec<Point>) -> (r: (i32, i32))
    requires
        pts@.len() >= 1,
    ensures
        r.0 == ring_min_y(pts@),
        r.1 == ring_max_y(pts@),
{
    let mut min_y: i32 = pts[0].y;
    let mut max_y: i32 = pts[0].y;
    let n: usize = pts.len();
    let mut i: usize = 1;
    while i < n
        invariant
            1 <= i <= n,
            n == pts@.len(),
            min_y == min_y_upto(pts@, i as int),
            max_y == max_y_upto(pts@, i as int),
        decreases n - i,
    {
        let py = pts[i].y;
        if py < min_y {
            min_y = py;
        }
        if py > max_y {
            max_y = py;
        }
        i = i + 1;
    }
    (min_y, max_y)
}

/// The sorted crossings list grows one pushed element at a time.
proof fn lemma_int_view_push(s: Seq<i32>, v: i32)
    ensures
        int_view(s.push(v)) == int_view(s).push(v as int),
{
    assert(int_view(s.push(v)) =~= int_view(s).push(v as int));
}

/// The x-crossings of scanline `y` with the ring's edges, in edge order,
/// each the truncating interpolation the even-odd classifier also uses.
fn collect_xings(pts: &Vec<Point>, y: i32) -> (xs: Vec<i32>)
    ensures
        int_view(xs@) == xings(pts@, y as int),
{
    let n: usize = pts.len();
    let mut xs: Vec<i32> = Vec::new();
    let mut i: usize = 0;
    while i < n
        invariant
            i <= n,
            n == pts@.len(),
            int_view(xs@) == xings_upto(pts@, y as int, i as int),
        decreases n - i,
    {
        let p1 = pts[i];
        let j: usize = if i + 1 < n {
            i + 1
        } else {
            0
        };
        let p2 = pts[j];

        if p1.y != p2.y {
            if (p1.y <= y && y < p2.y) || (p2.y <= y && y < p1.y) {
                let t: i128 = y as i128 - p1.y as i128;
                let m: i128 = p2.x as i128 - p1.x as i128;
                let den: i128 = p2.y as i128 - p1.y as i128;
                proof {
                    assert(-0x10000000000000000 <= t * m <= 0x10000000000000000)
                        by (nonlinear_arith)
                        requires
                            -0x100000000 <= t <= 0x100000000,
                            -0x100000000 <= m <= 0x100000000,
                    ;
                }
                let num: i128 = t * m;
                let q = div_trunc(num, den);
                proof {
                    let ni = num as int;
                    let di = den as int;
                    let mi = m as int;
                    let ti = t as int;
                    assert((if ni < 0 {
                        -ni
                    } else {
                        ni
                    }) <= (if di < 0 {
                        -di
                    } else {
                        di
                    }) * (if mi < 0 {
                        -mi
                    } else {
                        mi
                    }) && (ni != 0 ==> (((ni < 0) == (di < 0)) == (mi >= 0))))
                        by (nonlinear_arith)
                        requires
                            ni == ti * mi,
                            (0 <= ti && ti < di) || (di <= ti && ti < 0),
                    ;
                    lemma_trunc_div_bound(ni, di, mi);
                }
                let xv: i128 = p1.x as i128 + q;
                let xi: i32 = xv as i32;
                proof {
                    assert(xi as int == scan_x(p1, p2, y as int));
                    lemma_int_view_push(xs@, xi);
                }
                xs.push(xi);
            }
        }
        i = i + 1;
    }
    xs
}

/// Inserting `v` at the boundary position `p` — everything from `p` on is
/// greater than `v`, everything before is not — is what `insert_sorted`
/// computes.
proof fn lemma_insert_sorted_split(s: Seq<int>, v: int, p: int)
    requires
        0 <= p <= s.len(),
        forall|j: int| p <= j < s.len() ==> s[j] > v,
        p > 0 ==> s[p - 1] <= v,
    ensures
        insert_sorted(s, v) == s.subrange(0, p) + seq![v] + s.subrange(p, s.len() as int),
    decreases s.len(),
{
    if p == s.len() {
        if s.len() == 0 {
            assert(insert_sorted(s, v) =~= s.subrange(0, p) + seq![v] + s.subrange(
                p,
                s.len() as int,
            ));
        } else {
            assert(s.last() <= v);
            assert(insert_sorted(s, v) =~= s.subrange(0, p) + seq![v] + s.subrange(
                p,
                s.len() as int,
            ));
        }
    } else {
        assert(s.last() > v);
        lemma_insert_sorted_split(s.drop_last(), v, p);
        assert(insert_sorted(s, v) =~= s.subrange(0, p) + seq![v] + s.subrange(
            p,
            s.len() as int,
        ));
    }
}

/// Insertion sort; the result is exactly `sort_ints` of the input.
fn sort_vec(xs: &Vec<i32>) -> (out: Vec<i32>)
    ensures
        int_view(out@) == sort_ints(int_view(xs@)),
{
    let n: usize = xs.len();
    let mut out: Vec<i32> = Vec::new();
    let mut i: usize = 0;
    proof {
        assert(xs@.subrange(0, 0) =~= Seq::<i32>::empty());
        assert(int_view(Seq::<i32>::empty()) =~= Seq::<int>::empty());
    }
    while i < n
        invariant
            i <= n,
            n == xs@.len(),
            int_view(out@) == sort_ints(int_view(xs@.subrange(0, i as int))),
        decreases n - i,
    {
        let v = xs[i];
        let len: usize = out.len();
        let mut p: usize = len;
        while p > 0 && out[p - 1] > v
            invariant
                p <= len,
                len == out@.len(),
                forall|j: int| p <= j < len ==> out@[j] > v,
            decreases p,
        {
            p = p - 1;
        }
        proof {
            let ghost prev = int_view(out@);
            lemma_insert_sorted_split(prev, v as int, p as int);
        }
        let ghost before = out@;
        out.insert(p, v);
        proof {
            assert(int_view(out@) =~= int_view(before).subrange(0, p as int) + seq![v as int]
                + int_view(before).subrange(p as int, before.len() as int));
            assert(int_view(out@) == insert_sorted(int_view(before), v as int));
            let ghost wider = int_view(xs@.subrange(0, i + 1));
            assert(wider.len() == i + 1);
            assert(wider.drop_last() =~= int_view(xs@.subrange(0, i as int)));
            assert(wider.last() == v as int);
            assert(sort_ints(wider) == insert_sorted(sort_ints(wider.drop_last()), v as int));
        }
        i = i + 1;
    }
    proof {
        assert(xs@.subrange(0, n as int) =~= xs@);
    }
    out
}

/// Fills the spans of one scanline row: consecutive pairs of the sorted
/// crossing list, each an inclusive x-range, skipping pixels inside a hole.
fn fill_row(sorted: &Vec<i32>, y: i32, fc: Color, polygons: &Vec<Polygon>, fb: &mut FrameBuffer)
    requires
        old(fb).wf(),
    ensures
        final(fb).wf(),
        final(fb).width == old(fb).width,
        final(fb).height == old(fb).height,
        final(fb).background == old(fb).background,
        forall|xi: int, yi: int|
            #[trigger] final(fb).pixel_at(xi, yi) == if 0 <= xi < old(fb).width && 0 <= yi
                < old(fb).height && yi == y && in_spans(int_view(sorted@), xi) && !in_any_hole(
                pt(xi, yi),
                polygons@,
            ) {
                fc
            } else {
                old(fb).pixel_at(xi, yi)
            },
{
    let len: usize = sorted.len();
    let ghost s = int_view(sorted@);
    let ghost w = fb.width as int;
    let ghost h = fb.height as int;
    let mut m: usize = 0;
    let ghost mut k: int = 0;
    while m < len && m + 1 < len
        invariant
            fb.wf(),
            fb.width == old(fb).width,
            fb.height == old(fb).height,
            fb.background == old(fb).background,
            w == old(fb).width as int,
            h == old(fb).height as int,
            len == sorted@.len(),
            s == int_view(sorted@),
            m == 2 * k,
            0 <= k,
            m <= len + 1,
            forall|xi: int, yi: int|
                #[trigger] fb.pixel_at(xi, yi) == if 0 <= xi < w && 0 <= yi < h && yi == y
                    && in_spans_upto(s, k, xi) && !in_any_hole(pt(xi, yi), polygons@) {
                    fc
                } else {
                    old(fb).pixel_at(xi, yi)
                },
        decreases len - m,
    {
        let xs_v: i32 = sorted[m];
        let xe_v: i32 = sorted[m + 1];
        let mut xc: i64 = xs_v as i64;
        while xc <= xe_v as i64
            invariant
                fb.wf(),
                fb.width == old(fb).width,
                fb.height == old(fb).height,
                fb.background == old(fb).background,
                w == old(fb).width as int,
                h == old(fb).height as int,
                len == sorted@.len(),
                s == int_view(sorted@),
                m == 2 * k,
                0 <= k,
                m + 1 < len,
                xs_v == sorted@[m as int],
                xe_v == sorted@[m + 1],
                xs_v as i64 <= xc,
                forall|xi: int, yi: int|
                    #[trigger] fb.pixel_at(xi, yi) == if 0 <= xi < w && 0 <= yi < h && yi == y && (
                    in_spans_upto(s, k, xi) || (xs_v <= xi <= xe_v && xi < xc)) && !in_any_hole(
                        pt(xi, yi),
                        polygons@,
                    ) {
                        fc
                    } else {
                        old(fb).pixel_at(xi, yi)
                    },
            decreases xe_v as i64 + 1 - xc,
        {
            let x_now: i32 = xc as i32;
            let p_now = Point { x: x_now, y };
            proof {
                assert(pt(x_now as int, y as int) == p_now);
            }
            if !point_in_holes(p_now, polygons) {
                fb.set_pixel(x_now, y, fc);
            }
            xc = xc + 1;
        }
        proof {
            assert forall|xi: int|
                in_spans_upto(s, k + 1, xi) == (in_spans_upto(s, k, xi) || (xs_v <= xi
                    <= xe_v)) by {
                assert(span_covers(s, k, xi) == (xs_v <= xi <= xe_v));
                if in_spans_upto(s, k + 1, xi) {
                    let j = choose|j: int| 0 <= j < k + 1 && #[trigger] span_covers(s, j, xi);
                    if j < k {
                        assert(in_spans_upto(s, k, xi));
                    }
                }
            }
            k = k + 1;
        }
        m = m + 2;
    }
    proof {
        assert forall|xi: int| in_spans(s, xi) implies in_spans_upto(s, k, xi) by {
            let j = choose|j: int| 0 <= j && #[trigger] span_covers(s, j, xi);
            assert(2 * j + 1 < len);
            assert(j < k);
        }
    }
}

/// Rasterizes the interior of one fill polygon: every scanline from the
/// lowest to the highest vertex y, spans paired from the sorted crossings,
/// hole pixels skipped. A polygon with fewer than three vertices fills
/// nothing.
fn fill_polygon(poly: &Polygon, polygons: &Vec<Polygon>, fb: &mut FrameBuffer)
    requires
        old(fb).wf(),
    ensures
        final(fb).wf(),
        final(fb).width == old(fb).width,
        final(fb).height == old(fb).height,
        final(fb).background == old(fb).background,
        forall|xi: int, yi: int|
            #[trigger] final(fb).pixel_at(xi, yi) == if 0 <= xi < old(fb).width && 0 <= yi
                < old(fb).height && fill_covers(poly.points@, xi, yi) && !in_any_hole(
                pt(xi, yi),
                polygons@,
            ) {
                poly.fill_color
            } else {
                old(fb).pixel_at(xi, yi)
            },
{
    let pts = &poly.points;
    if pts.len() < 3 {
        return ;
    }
    let ghost w = fb.width as int;
    let ghost h = fb.height as int;
    let (min_y, max_y) = ring_y_bounds(pts);
    let mut yc: i64 = min_y as i64;
    while yc <= max_y as i64
        invariant
            fb.wf(),
            fb.width == old(fb).width,
            fb.height == old(fb).height,
            fb.background == old(fb).background,
            w == old(fb).width as int,
            h == old(fb).height as int,
            pts == &poly.points,
            pts@.len() >= 3,
            min_y == ring_min_y(pts@),
            max_y == ring_max_y(pts@),
            min_y as i64 <= yc <= max_y as i64 + 1,
            forall|xi: int, yi: int|
                #[trigger] fb.pixel_at(xi, yi) == if 0 <= xi < w && 0 <= yi < h && min_y <= yi
                    < yc && fill_covers(poly.points@, xi, yi) && !in_any_hole(
                    pt(xi, yi),
                    polygons@,
                ) {
                    poly.fill_color
                } else {
                    old(fb).pixel_at(xi, yi)
                },
        decreases max_y as i64 + 1 - yc,
    {
        let y_now: i32 = yc as i32;
        let xs = collect_xings(pts, y_now);
        let sorted = sort_vec(&xs);
        let ghost before_row = *fb;
        fill_row(&sorted, y_now, poly.fill_color, polygons, fb);
        proof {
            assert(int_view(sorted@) == sort_ints(xings(pts@, y_now as int)));
            assert forall|xi: int, yi: int| true implies #[trigger] fb.pixel_at(xi, yi) == if 0
                <= xi < w && 0 <= yi < h && min_y <= yi < yc + 1 && fill_covers(
                poly.points@,
                xi,
                yi,
            ) && !in_any_hole(pt(xi, yi), polygons@) {
                poly.fill_color
            } else {
                old(fb).pixel_at(xi, yi)
            } by {
                assert(fb.pixel_at(xi, yi) == if 0 <= xi < w && 0 <= yi < h && yi == y_now
                    && in_spans(int_view(sorted@), xi) && !in_any_hole(pt(xi, yi), polygons@) {
                    poly.fill_color
                } else {
                    before_row.pixel_at(xi, yi)
                });
                if yi == y_now {
                    assert(in_spans(int_view(sorted@), xi) == fill_covers(poly.points@, xi, yi));
                }
            }
        }
        yc = yc + 1;
    }
    proof {
        assert forall|xi: int, yi: int| yi < min_y || yi > max_y implies !fill_covers(
            poly.points@,
            xi,
            yi,
        ) by {
            lemma_xings_empty_outside(pts@, yi, pts@.len() as int);
            assert(sort_ints(xings(pts@, yi)) =~= Seq::<int>::empty());
            assert(!in_spans(Seq::<int>::empty(), xi));
        }
    }
}

/// Scanline fill of every non-hole polygon, in sequence order, with pixels
/// inside any hole polygon left untouched. The result of the whole pass is
/// `filled_pixel` at every in-bounds coordinate.
pub fn scanline_fill_with_holes(polygons: &Vec<Polygon>, framebuffer: &mut FrameBuffer)
    requires
        old(framebuffer).wf(),
    ensures
        final(framebuffer).wf(),
        final(framebuffer).width == old(framebuffer).width,
        final(framebuffer).height == old(framebuffer).height,
        final(framebuffer).background == old(framebuffer).background,
        forall|xi: int, yi: int|
            0 <= xi < old(framebuffer).width && 0 <= yi < old(framebuffer).height
                ==> #[trigger] final(framebuffer).pixel_at(xi, yi) == filled_pixel(
                polygons@,
                xi,
                yi,
                old(framebuffer).pixel_at(xi, yi),
            ),
{
    let n: usize = polygons.len();
    let ghost w = framebuffer.width as int;
    let ghost h = framebuffer.height as int;
    let mut idx: usize = 0;
    while idx < n
        invariant
            framebuffer.wf(),
            framebuffer.width == old(framebuffer).width,
            framebuffer.height == old(framebuffer).height,
            framebuffer.background == old(framebuffer).background,
            w == old(framebuffer).width as int,
            h == old(framebuffer).height as int,
            n == polygons@.len(),
            idx <= n,
            forall|xi: int, yi: int|
                0 <= xi < w && 0 <= yi < h ==> #[trigger] framebuffer.pixel_at(xi, yi) == if
                    in_any_hole(pt(xi, yi), polygons@) {
                    old(framebuffer).pixel_at(xi, yi)
                } else {
                    match fill_color_at(polygons@.take(idx as int), xi, yi) {
                        Some(c) => c,
                        None => old(framebuffer).pixel_at(xi, yi),
                    }
                },
        decreases n - idx,
    {
        let poly = &polygons[idx];
        let ghost before = *framebuffer;
        if !poly.is_hole {
            fill_polygon(poly, polygons, framebuffer);
        }
        proof {
            let done = polygons@.take(idx + 1);
            assert(done.drop_last() =~= polygons@.take(idx as int));
            assert(done.last() == polygons@[idx as int]);
            assert forall|xi: int, yi: int| 0 <= xi < w && 0 <= yi < h implies #[trigger]
                framebuffer.pixel_at(xi, yi) == if in_any_hole(pt(xi, yi), polygons@) {
                old(framebuffer).pixel_at(xi, yi)
            } else {
                match fill_color_at(done, xi, yi) {
                    Some(c) => c,
                    None => old(framebuffer).pixel_at(xi, yi),
                }
            } by {
                if poly.is_hole {
                    assert(fill_color_at(done, xi, yi) == fill_color_at(
                        polygons@.take(idx as int),
                        xi,
                        yi,
                    ));
                } else {
                    assert(framebuffer.pixel_at(xi, yi) == if 0 <= xi < w && 0 <= yi < h
                        && fill_covers(poly.points@, xi, yi) && !in_any_hole(
                        pt(xi, yi),
                        polygons@,
                    ) {
                        poly.fill_color
                    } else {
                        before.pixel_at(xi, yi)
                    });
                }
            }
        }
        idx = idx + 1;
    }
    proof {
        assert(polygons@.take(n as int) =~= polygons@);
    }
}

/// Law: hole exclusion. A pixel inside any hole polygon is never touched by
/// the fill pass, whatever fill polygons cover it.
pub proof fn lemma_hole_pixel_never_filled(polys: Seq<Polygon>, x: int, y: int, prev: Color)
    requires
        in_any_hole(pt(x, y), polys),
    ensures
        filled_pixel(polys, x, y, prev) == prev,
{
}

/// Law: a pixel outside every hole that some fill polygon covers always
/// receives that polygon's fill color.
pub proof fn lemma_fill_outside_holes(polys: Seq<Polygon>, x: int, y: int, prev: Color, c: Color)
    requires
        !in_any_hole(pt(x, y), polys),
        fill_color_at(polys, x, y) == Some(c),
    ensures
        filled_pixel(polys, x, y, prev) == c,
{
}

/// Law: a ring with fewer than three vertices fills no pixel.
pub proof fn lemma_degenerate_ring_fills_nothing(pts: Seq<Point>, x: int, y: int)
    requires
        pts.len() < 3,
    ensures
        !fill_covers(pts, x, y),
{
}

/// Every edge of a ring whose vertices all share one y is horizontal, so no
/// scanline crosses any of its edges.
proof fn lemma_flat_xings_empty(pts: Seq<Point>, y: int, n: int)
    requires
        1 <= pts.len(),
        0 <= n <= pts.len(),
        forall|i: int| 0 <= i < pts.len() ==> (#[trigger] pts[i]).y == pts[0].y,
    ensures
        xings_upto(pts, y, n) == Seq::<int>::empty(),
    decreases n,
{
    if n > 0 {
        lemma_flat_xings_empty(pts, y, n - 1);
        let a = pts[n - 1];
        let b = pts[next_vertex(n - 1, pts.len() as int)];
        assert(a.y == pts[0].y);
        assert(b.y == pts[0].y);
        assert(!edge_hit(a, b, y));
    }
}

/// Law: a ring whose vertices are collinear on one horizontal line fills no
/// pixel — every edge is horizontal and contributes no crossing.
pub proof fn lemma_flat_ring_fills_nothing(pts: Seq<Point>, x: int, y: int)
    requires
        forall|i: int| 0 <= i < pts.len() ==> (#[trigger] pts[i]).y == pts[0].y,
    ensures
        !fill_covers(pts, x, y),
{
    if pts.len() >= 3 {
        lemma_flat_xings_empty(pts, y, pts.len() as int);
        assert(sort_ints(xings(pts, y)) =~= Seq::<int>::empty());
        assert(!in_spans(Seq::<int>::empty(), x));
    }
}

} // verus!
