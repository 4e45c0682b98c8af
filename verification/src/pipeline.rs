//! The rasterization pipeline: fill the interiors of all non-hole polygons
//! (holes subtracted), then draw every polygon's border — holes included —
//! in the input sequence order, so that borders are never overwritten by
//! fill.

use vstd::prelude::*;
use crate::border::border_covers;
use crate::border::draw_polygon_border;
use crate::framebuffer::Color;
use crate::framebuffer::FrameBuffer;
use crate::geometry::Polygon;
use crate::scanline::filled_pixel;
use crate::scanline::pt;
use crate::scanline::scanline_fill_with_holes;

verus! {

/// The border color painted at `(x, y)` by the border pass: the last polygon
/// in sequence order whose drawn border covers the pixel wins, holes and
/// fills alike.
pub open spec fn border_color_at(polys: Seq<Polygon>, x: int, y: int) -> Option<Color>
    decreases polys.len(),
{
    if polys.len() == 0 {
        None
    } else {
        let p = polys.last();
        if border_covers(p.points@, pt(x, y)) {
            Some(p.border_color)
        } else {
            border_color_at(polys.drop_last(), x, y)
        }
    }
}

/// The color of pixel `(x, y)` after one full pass — fill, then borders —
/// given the color `prev` it held before.
pub open spec fn rasterized_pixel(polys: Seq<Polygon>, x: int, y: int, prev: Color) -> Color {
    match border_color_at(polys, x, y) {
        Some(c) => c,
        None => filled_pixel(polys, x, y, prev),
    }
}

/// One full rasterization pass: scanline-fill every non-hole polygon with
/// holes subtracted, then draw every polygon's border in sequence order.
pub fn rasterize(polygons: &Vec<Polygon>, framebuffer: &mut FrameBuffer)
    requires
        old(framebuffer).wf(),
    ensures
        final(framebuffer).wf(),
        final(framebuffer).width == old(framebuffer).width,
        final(framebuffer).height == old(framebuffer).height,
        final(framebuffer).background == old(framebuffer).background,
        forall|xi: int, yi: int|
            0 <= xi < old(framebuffer).width && 0 <= yi < old(framebuffer).height
                ==> #[trigger] final(framebuffer).pixel_at(xi, yi) == rasterized_pixel(
                polygons@,
                xi,
                yi,
                old(framebuffer).pixel_at(xi, yi),
            ),
{
    let ghost w = framebuffer.width as int;
    let ghost h = framebuffer.height as int;
    scanline_fill_with_holes(polygons, framebuffer);
    let n: usize = polygons.len();
    let mut idx: usize = 0;
    while idx < n
        invariant
            framebuffer.wf(),
            framebuffer.width == old(framebuffer).width,
            framebuffer.height == old(framebuffer).height,
            framebuffer.background == old(framebuffer).background,
            w == old(framebuffer).width as int,
            h == old(framebuffer).height as int,
            n == polygons@.len(),
            idx <= n,
            forall|xi: int, yi: int|
                0 <= xi < w && 0 <= yi < h ==> #[trigger] framebuffer.pixel_at(xi, yi) == match
                    border_color_at(polygons@.take(idx as int), xi, yi) {
                    Some(c) => c,
                    None => filled_pixel(polygons@, xi, yi, old(framebuffer).pixel_at(xi, yi)),
                },
        decreases n - idx,
    {
        let poly = &polygons[idx];
        let ghost before = *framebuffer;
        draw_polygon_border(poly, framebuffer);
        proof {
            let done = polygons@.take(idx + 1);
            assert(done.drop_last() =~= polygons@.take(idx as int));
            assert(done.last() == polygons@[idx as int]);
            assert forall|xi: int, yi: int| 0 <= xi < w && 0 <= yi < h implies #[trigger]
                framebuffer.pixel_at(xi, yi) == match border_color_at(done, xi, yi) {
                Some(c) => c,
                None => filled_pixel(polygons@, xi, yi, old(framebuffer).pixel_at(xi, yi)),
            } by {
                assert(framebuffer.pixel_at(xi, yi) == if 0 <= xi < w && 0 <= yi < h
                    && border_covers(poly.points@, pt(xi, yi)) {
                    poly.border_color
                } else {
                    before.pixel_at(xi, yi)
                });
            }
        }
        idx = idx + 1;
    }
    proof {
        assert(polygons@.take(n as int) =~= polygons@);
    }
}

/// Law: the pipeline is idempotent. Rasterizing the same polygons onto a
/// buffer that already holds the result of rasterizing them changes no
/// pixel, so two identical passes produce identical buffers.
pub proof fn lemma_rasterize_idempotent(polys: Seq<Polygon>, x: int, y: int, prev: Color)
    ensures
        rasterized_pixel(polys, x, y, rasterized_pixel(polys, x, y, prev)) == rasterized_pixel(
            polys,
            x,
            y,
            prev,
        ),
{
}

} // verus!
