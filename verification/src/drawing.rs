//! Anti-aliased lines: every pixel a line passes near is painted toward the
//! line's color in proportion to how much of the pixel the line covers.

use vstd::prelude::*;
use crate::buffer::{lemma_offset_in_range, offset, PixelBuffer};
use crate::fixed::{
    floor_div, floor_units, fpart, fpart_spec, ipart, lemma_floor_div_between,
    lemma_floor_div_bounds, lemma_scale_unit,
    magnitude, rfpart, rfpart_spec, round, round_units, scale, scale_spec, HALF, ONE,
};

verus! {

/// One channel painted toward `target` with coverage `c` out of `ONE`.
pub open spec fn blend_channel_spec(prior: u8, target: u8, c: int) -> u8 {
    (prior + ((target - prior) * c) / (ONE as int)) as u8
}

/// A pixel painted toward `color` with coverage `c`.
pub open spec fn blend_spec(prior: (u8, u8, u8), color: (u8, u8, u8), c: int) -> (u8, u8, u8) {
    (
        blend_channel_spec(prior.0, color.0, c),
        blend_channel_spec(prior.1, color.1, c),
        blend_channel_spec(prior.2, color.2, c),
    )
}

/// `v` lies between `a` and `b`, whichever of the two is larger.
pub open spec fn between(a: u8, b: u8, v: u8) -> bool {
    (a <= v <= b) || (b <= v <= a)
}

/// Each channel of `now` lies between that of `prior` and that of `color`.
pub open spec fn toward(prior: (u8, u8, u8), color: (u8, u8, u8), now: (u8, u8, u8)) -> bool {
    between(prior.0, color.0, now.0) && between(prior.1, color.1, now.1) && between(
        prior.2,
        color.2,
        now.2,
    )
}

/// A blended channel never leaves the range spanned by its prior value and the
/// target; full coverage gives the target, none keeps the prior value.
pub proof fn lemma_blend_channel(prior: u8, target: u8, c: int)
    requires
        0 <= c <= ONE,
    ensures
        between(prior, target, blend_channel_spec(prior, target, c)),
        blend_channel_spec(prior, target, c) == prior + ((target - prior) * c) / (ONE as int),
        c == ONE ==> blend_channel_spec(prior, target, c) == target,
        c == 0 ==> blend_channel_spec(prior, target, c) == prior,
{
    let d = target - prior;
    let one = ONE as int;
    if d >= 0 {
        assert(0 * one <= d * c <= d * one) by (nonlinear_arith)
            requires
                0 <= c <= one,
                d >= 0,
        ;
        lemma_floor_div_between(d * c, one, 0, d);
    } else {
        assert(d * one <= d * c <= 0 * one) by (nonlinear_arith)
            requires
                0 <= c <= one,
                d < 0,
        ;
        lemma_floor_div_between(d * c, one, d, 0);
    }
    if c == one {
        lemma_floor_div_between(d * c, one, d, d);
    }
    if c == 0 {
        assert(d * c == 0) by (nonlinear_arith)
            requires
                c == 0,
        ;
    }
}

/// The raster after pixel `(x, y)` was painted toward `color` with coverage `c`.
pub open spec fn plot_spec(
    px: Seq<(u8, u8, u8)>,
    width: int,
    x: int,
    y: int,
    color: (u8, u8, u8),
    c: int,
) -> Seq<(u8, u8, u8)> {
    let i = offset(width, x, y);
    px.update(i, blend_spec(px[i], color, c))
}

/// The raster after the two pixels that straddle a crossing were painted.
///
/// The line crosses column (or, for a steep line, row) `major` at the
/// minor-axis value `v`; `gap` is how much of that column belongs to the line.
/// The pixel below the crossing gets the share `rfpart(v)` of `gap`, the pixel
/// above it the share `fpart(v)`.
pub open spec fn plot_pair_spec(
    px: Seq<(u8, u8, u8)>,
    width: int,
    steep: bool,
    major: int,
    v: int,
    gap: int,
    color: (u8, u8, u8),
) -> Seq<(u8, u8, u8)> {
    let lo = floor_units(v);
    let c_lo = scale_spec(rfpart_spec(v), gap);
    let c_hi = scale_spec(fpart_spec(v), gap);
    if steep {
        plot_spec(plot_spec(px, width, lo, major, color, c_lo), width, lo + 1, major, color, c_hi)
    } else {
        plot_spec(plot_spec(px, width, major, lo, color, c_lo), width, major, lo + 1, color, c_hi)
    }
}

/// Whether the two pixels that straddle a crossing lie inside a `w` by `h` raster.
pub open spec fn pair_fits(w: int, h: int, steep: bool, major: int, v: int) -> bool {
    let lo = floor_units(v);
    if steep {
        0 <= major < h && 0 <= lo && lo + 1 < w
    } else {
        0 <= major < w && 0 <= lo && lo + 1 < h
    }
}

/// The raster after the columns `x .. x_end` between the two end caps were
/// painted, the crossing starting at `v` and moving by `g` per column.
pub open spec fn sweep_spec(
    px: Seq<(u8, u8, u8)>,
    width: int,
    steep: bool,
    x: int,
    x_end: int,
    v: int,
    g: int,
    color: (u8, u8, u8),
) -> Seq<(u8, u8, u8)>
    decreases x_end - x,
{
    if x >= x_end {
        px
    } else {
        sweep_spec(
            plot_pair_spec(px, width, steep, x, v, ONE as int, color),
            width,
            steep,
            x + 1,
            x_end,
            v + g,
            g,
            color,
        )
    }
}

/// Whether every pixel that the sweep over `x .. x_end` paints lies inside the raster.
pub open spec fn sweep_fits(
    w: int,
    h: int,
    steep: bool,
    x: int,
    x_end: int,
    v: int,
    g: int,
) -> bool
    decreases x_end - x,
{
    x >= x_end || (pair_fits(w, h, steep, x, v) && sweep_fits(w, h, steep, x + 1, x_end, v + g, g))
}

/// A line as the rasterizer walks it: `x` runs along the axis of larger extent,
/// from the end with the smaller `x` to the other.
#[derive(Clone, Copy, Debug, PartialEq, Eq)]
pub struct Span {
    pub steep: bool,
    pub x0: i64,
    pub y0: i64,
    pub x1: i64,
    pub y1: i64,
}

/// The span of the line between two points: the axes swapped if the line is
/// steeper than a diagonal, then the ends swapped if it runs backwards.
pub open spec fn span_of(start: (i64, i64), end: (i64, i64)) -> Span {
    let steep = magnitude(end.1 - start.1) > magnitude(end.0 - start.0);
    let a = if steep {
        (start.1, start.0)
    } else {
        start
    };
    let b = if steep {
        (end.1, end.0)
    } else {
        end
    };
    if a.0 > b.0 {
        Span { steep, x0: b.0, y0: b.1, x1: a.0, y1: a.1 }
    } else {
        Span { steep, x0: a.0, y0: a.1, x1: b.0, y1: b.1 }
    }
}

/// The slope of a span, `ONE` where the span has no extent.
pub open spec fn gradient_spec(dx: int, dy: int) -> int {
    if dx == 0 {
        ONE as int
    } else {
        (dy * ONE) / dx
    }
}

/// The column of the cap at one end of a span.
pub open spec fn cap_column(x: int) -> int {
    round_units(x)
}

/// Where the line crosses the column of the cap at the end `(x, y)`.
pub open spec fn cap_crossing(x: int, y: int, g: int) -> int {
    y + scale_spec(g, cap_column(x) * ONE - x)
}

/// The raster after the line from `start` to `end` was drawn in `color`.
///
/// A line of no length paints the one pixel nearest to it, in full. Any other
/// line paints a cap at each end, weighted by how far the end reaches into its
/// column, and in between one pair of pixels per column.
pub open spec fn draw_spec(
    px: Seq<(u8, u8, u8)>,
    width: int,
    color: (u8, u8, u8),
    start: (i64, i64),
    end: (i64, i64),
) -> Seq<(u8, u8, u8)> {
    if start == end {
        px.update(offset(width, round_units(start.0 as int), round_units(start.1 as int)), color)
    } else {
        let s = span_of(start, end);
        let g = gradient_spec(s.x1 - s.x0, s.y1 - s.y0);
        let v0 = cap_crossing(s.x0 as int, s.y0 as int, g);
        let v1 = cap_crossing(s.x1 as int, s.y1 as int, g);
        let first = plot_pair_spec(
            px,
            width,
            s.steep,
            cap_column(s.x0 as int),
            v0,
            rfpart_spec(s.x0 + HALF),
            color,
        );
        let second = plot_pair_spec(
            first,
            width,
            s.steep,
            cap_column(s.x1 as int),
            v1,
            fpart_spec(s.x1 + HALF),
            color,
        );
        sweep_spec(
            second,
            width,
            s.steep,
            cap_column(s.x0 as int) + 1,
            cap_column(s.x1 as int),
            v0 + g,
            g,
            color,
        )
    }
}

/// Whether every pixel that drawing the line from `start` to `end` touches lies
/// inside a `w` by `h` raster.
pub open spec fn draw_fits(w: int, h: int, start: (i64, i64), end: (i64, i64)) -> bool {
    if start == end {
        0 <= round_units(start.0 as int) < w && 0 <= round_units(start.1 as int) < h
    } else {
        let s = span_of(start, end);
        let g = gradient_spec(s.x1 - s.x0, s.y1 - s.y0);
        let v0 = cap_crossing(s.x0 as int, s.y0 as int, g);
        let v1 = cap_crossing(s.x1 as int, s.y1 as int, g);
        &&& pair_fits(w, h, s.steep, cap_column(s.x0 as int), v0)
        &&& pair_fits(w, h, s.steep, cap_column(s.x1 as int), v1)
        &&& sweep_fits(
            w,
            h,
            s.steep,
            cap_column(s.x0 as int) + 1,
            cap_column(s.x1 as int),
            v0 + g,
            g,
        )
    }
}

/// Paints one channel toward `target` with coverage `c`.
pub fn blend_channel(prior: u8, target: u8, c: i128) -> (r: u8)
    requires
        0 <= c <= ONE,
    ensures
        r == blend_channel_spec(prior, target, c as int),
        between(prior, target, r),
{
    proof {
        lemma_blend_channel(prior, target, c as int);
    }
    let d: i128 = target as i128 - prior as i128;
    assert(-255 * 4294967296 <= d * c <= 255 * 4294967296) by (nonlinear_arith)
        requires
            -255 <= d <= 255,
            0 <= c <= 4294967296,
    ;
    let q: i128 = floor_div(d * c, ONE as i128);
    (prior as i128 + q) as u8
}

/// Paints pixel `(x, y)` toward `color` with coverage `c`.
pub fn plot(buf: &mut PixelBuffer, color: (u8, u8, u8), x: usize, y: usize, c: i128)
    requires
        old(buf).wf(),
        x < old(buf).width,
        y < old(buf).height,
        0 <= c <= ONE,
    ensures
        final(buf).wf(),
        final(buf).width == old(buf).width,
        final(buf).height == old(buf).height,
        final(buf).data@ == plot_spec(
            old(buf).data@,
            old(buf).width as int,
            x as int,
            y as int,
            color,
            c as int,
        ),
{
    let prior: (u8, u8, u8) = buf.get(x, y);
    let now: (u8, u8, u8) = (
        blend_channel(prior.0, color.0, c),
        blend_channel(prior.1, color.1, c),
        blend_channel(prior.2, color.2, c),
    );
    buf.put(x, y, now);
}

/// Paints the two pixels that straddle the crossing `v` in column `major`.
pub fn plot_pair(
    buf: &mut PixelBuffer,
    color: (u8, u8, u8),
    steep: bool,
    major: usize,
    v: i128,
    gap: i128,
)
    requires
        old(buf).wf(),
        pair_fits(old(buf).width as int, old(buf).height as int, steep, major as int, v as int),
        0 <= gap <= ONE,
    ensures
        final(buf).wf(),
        final(buf).width == old(buf).width,
        final(buf).height == old(buf).height,
        final(buf).data@ == plot_pair_spec(
            old(buf).data@,
            old(buf).width as int,
            steep,
            major as int,
            v as int,
            gap as int,
            color,
        ),
{
    let lo: i128 = ipart(v);
    let f: i128 = fpart(v);
    let rf: i128 = rfpart(v);
    proof {
        lemma_scale_unit(rf as int, gap as int);
        lemma_scale_unit(f as int, gap as int);
    }
    let c_lo: i128 = scale(rf, gap);
    let c_hi: i128 = scale(f, gap);
    let lo_px: usize = lo as usize;
    if steep {
        plot(buf, color, lo_px, major, c_lo);
        plot(buf, color, lo_px + 1, major, c_hi);
    } else {
        plot(buf, color, major, lo_px, c_lo);
        plot(buf, color, major, lo_px + 1, c_hi);
    }
}

/// Walks a line along its axis of larger extent, from the end with the smaller
/// coordinate on that axis.
pub fn span(start: (i64, i64), end: (i64, i64)) -> (s: Span)
    ensures
        s == span_of(start, end),
        s.x0 <= s.x1,
        magnitude(s.y1 - s.y0) <= s.x1 - s.x0,
        start != end ==> s.x0 < s.x1,
{
    let dx: i128 = end.0 as i128 - start.0 as i128;
    let dy: i128 = end.1 as i128 - start.1 as i128;
    let adx: i128 = if dx < 0 {
        -dx
    } else {
        dx
    };
    let ady: i128 = if dy < 0 {
        -dy
    } else {
        dy
    };
    let steep = ady > adx;
    let a: (i64, i64) = if steep {
        (start.1, start.0)
    } else {
        start
    };
    let b: (i64, i64) = if steep {
        (end.1, end.0)
    } else {
        end
    };
    if a.0 > b.0 {
        Span { steep, x0: b.0, y0: b.1, x1: a.0, y1: a.1 }
    } else {
        Span { steep, x0: a.0, y0: a.1, x1: b.0, y1: b.1 }
    }
}

/// The slope of a span whose extent along its own axis is `dx` and across it `dy`.
pub fn gradient(dx: i128, dy: i128) -> (g: i128)
    requires
        0 <= dx <= 0x1_0000_0000_0000_0000,
        magnitude(dy as int) <= dx,
    ensures
        g == gradient_spec(dx as int, dy as int),
        -ONE <= g <= ONE,
{
    if dx == 0 {
        ONE as i128
    } else {
        let one: i128 = ONE as i128;
        assert(-one * dx <= dy * one <= one * dx && -0x1_0000_0000_0000_0000_0000_0000 <= dy * one
            <= 0x1_0000_0000_0000_0000_0000_0000) by (nonlinear_arith)
            requires
                -dx <= dy <= dx,
                0 < dx <= 0x1_0000_0000_0000_0000,
                one == 4294967296,
        ;
        proof {
            lemma_floor_div_between(dy as int * one as int, dx as int, -one as int, one as int);
        }
        floor_div(dy * one, dx)
    }
}

/// Where the line of slope `g` through `(x, y)` crosses the column nearest to `x`.
pub fn crossing(x: i64, y: i64, g: i128) -> (v: i128)
    requires
        -ONE <= g <= ONE,
    ensures
        v == cap_crossing(x as int, y as int, g as int),
        y - HALF <= v <= y + HALF,
{
    let col: i128 = round(x);
    proof {
        lemma_floor_div_bounds(x + HALF, ONE as int);
        assert(col * 4294967296 == ONE * col);
    }
    let d: i128 = col * (ONE as i128) - x as i128;
    proof {
        let one = ONE as int;
        let half = HALF as int;
        assert(-half * one <= g * d <= half * one) by (nonlinear_arith)
            requires
                -one <= g <= one,
                -half <= d <= half,
                half >= 0,
                one >= 0,
        ;
        lemma_floor_div_between(g as int * d as int, one, -half, half);
    }
    y as i128 + scale(g, d)
}

/// What drawing a line of some length starts from: its slope, and for the cap
/// at each end the column, the crossing and the share of the column that
/// belongs to the line.
#[derive(Clone, Copy, Debug, PartialEq, Eq)]
pub struct Caps {
    pub steep: bool,
    pub g: i128,
    pub col0: i128,
    pub v0: i128,
    pub gap0: i128,
    pub col1: i128,
    pub v1: i128,
    pub gap1: i128,
}

/// The slope and the two caps of the line from `start` to `end`.
pub fn caps(start: (i64, i64), end: (i64, i64)) -> (c: Caps)
    ensures
        c.steep == span_of(start, end).steep,
        c.g == gradient_spec(
            span_of(start, end).x1 - span_of(start, end).x0,
            span_of(start, end).y1 - span_of(start, end).y0,
        ),
        c.col0 == cap_column(span_of(start, end).x0 as int),
        c.col1 == cap_column(span_of(start, end).x1 as int),
        c.v0 == cap_crossing(span_of(start, end).x0 as int, span_of(start, end).y0 as int, c.g as int),
        c.v1 == cap_crossing(span_of(start, end).x1 as int, span_of(start, end).y1 as int, c.g as int),
        c.gap0 == rfpart_spec(span_of(start, end).x0 + HALF),
        c.gap1 == fpart_spec(span_of(start, end).x1 + HALF),
        -ONE <= c.g <= ONE,
        0 <= c.gap0 <= ONE,
        0 <= c.gap1 <= ONE,
        i64::MIN - HALF <= c.v0 <= i64::MAX + HALF,
        i64::MIN - HALF <= c.v1 <= i64::MAX + HALF,
{
    let s: Span = span(start, end);
    let dx: i128 = s.x1 as i128 - s.x0 as i128;
    let dy: i128 = s.y1 as i128 - s.y0 as i128;
    let g: i128 = gradient(dx, dy);
    Caps {
        steep: s.steep,
        g,
        col0: round(s.x0),
        v0: crossing(s.x0, s.y0, g),
        gap0: rfpart(s.x0 as i128 + HALF as i128),
        col1: round(s.x1),
        v1: crossing(s.x1, s.y1, g),
        gap1: fpart(s.x1 as i128 + HALF as i128),
    }
}

/// Whether the two pixels that straddle the crossing `v` in column `major`
/// lie inside the raster.
pub fn pair_in_bounds(buf: &PixelBuffer, steep: bool, major: i128, v: i128) -> (ok: bool)
    ensures
        ok == pair_fits(buf.width as int, buf.height as int, steep, major as int, v as int),
{
    proof {
        lemma_floor_div_bounds(v as int, ONE as int);
    }
    let lo: i128 = ipart(v);
    if steep {
        0 <= major && major < buf.height as i128 && 0 <= lo && lo + 1 < buf.width as i128
    } else {
        0 <= major && major < buf.width as i128 && 0 <= lo && lo + 1 < buf.height as i128
    }
}

/// Whether every pixel that drawing the line from `start` to `end` touches lies
/// inside the raster: what `draw_line` asks of its caller.
pub fn line_fits(buf: &PixelBuffer, start: (i64, i64), end: (i64, i64)) -> (ok: bool)
    ensures
        ok == draw_fits(buf.width as int, buf.height as int, start, end),
{
    if start.0 == end.0 && start.1 == end.1 {
        let x: i128 = round(start.0);
        let y: i128 = round(start.1);
        return 0 <= x && x < buf.width as i128 && 0 <= y && y < buf.height as i128;
    }
    let c: Caps = caps(start, end);
    if !pair_in_bounds(buf, c.steep, c.col0, c.v0) || !pair_in_bounds(buf, c.steep, c.col1, c.v1) {
        return false;
    }
    let ghost w = buf.width as int;
    let ghost h = buf.height as int;
    let mut x: i128 = c.col0 + 1;
    let mut v: i128 = c.v0 + c.g;
    while x < c.col1
        invariant
            -ONE <= c.g <= ONE,
            0 <= c.col0 < x,
            c.col1 <= usize::MAX,
            w == buf.width,
            h == buf.height,
            -0x10_0000_0000_0000_0000_0000_0000 <= v <= 0x10_0000_0000_0000_0000_0000_0000,
            sweep_fits(w, h, c.steep, x as int, c.col1 as int, v as int, c.g as int) == draw_fits(
                w,
                h,
                start,
                end,
            ),
        decreases c.col1 - x,
    {
        if !pair_in_bounds(buf, c.steep, x, v) {
            return false;
        }
        x = x + 1;
        v = v + c.g;
    }
    true
}

/// Draws the line from `start` to `end` into `buf`, painting each pixel toward
/// `color` by the share of the pixel that the line covers.
///
/// Every pixel ends between what it held and `color`, channel by channel.
/// A line of no length sets the one pixel nearest to it to `color`.
pub fn draw_line(color: (u8, u8, u8), start: (i64, i64), end: (i64, i64), buf: &mut PixelBuffer)
    requires
        old(buf).wf(),
        draw_fits(old(buf).width as int, old(buf).height as int, start, end),
    ensures
        final(buf).wf(),
        final(buf).width == old(buf).width,
        final(buf).height == old(buf).height,
        final(buf).data@ == draw_spec(old(buf).data@, old(buf).width as int, color, start, end),
        forall|i: int|
            0 <= i < old(buf).data@.len() ==> toward(
                #[trigger] old(buf).data@[i],
                color,
                final(buf).data@[i],
            ),
{
    let ghost px0 = buf.data@;
    let ghost w = buf.width as int;
    let ghost h = buf.height as int;
    proof {
        lemma_draw_toward(px0, w, h, color, start, end);
    }
    if start.0 == end.0 && start.1 == end.1 {
        let x: i128 = round(start.0);
        let y: i128 = round(start.1);
        buf.put(x as usize, y as usize, color);
    } else {
        let c: Caps = caps(start, end);
        plot_pair(buf, color, c.steep, c.col0 as usize, c.v0, c.gap0);
        plot_pair(buf, color, c.steep, c.col1 as usize, c.v1, c.gap1);
        let mut x: usize = c.col0 as usize + 1;
        let x_end: usize = c.col1 as usize;
        let mut v: i128 = c.v0 + c.g;
        while x < x_end
            invariant
                buf.wf(),
                buf.width == w,
                buf.height == h,
                -ONE <= c.g <= ONE,
                -0x10_0000_0000_0000_0000_0000_0000 <= v <= 0x10_0000_0000_0000_0000_0000_0000,
                sweep_fits(w, h, c.steep, x as int, x_end as int, v as int, c.g as int),
                sweep_spec(buf.data@, w, c.steep, x as int, x_end as int, v as int, c.g as int, color)
                    == draw_spec(px0, w, color, start, end),
            decreases x_end - x,
        {
            plot_pair(buf, color, c.steep, x, v, ONE as i128);
            x = x + 1;
            v = v + c.g;
        }
    }
}

/// Painting a pixel keeps every pixel between what the raster first held and
/// the color.
pub proof fn lemma_plot_toward(
    base: Seq<(u8, u8, u8)>,
    px: Seq<(u8, u8, u8)>,
    width: int,
    x: int,
    y: int,
    color: (u8, u8, u8),
    c: int,
)
    requires
        base.len() == px.len(),
        0 <= offset(width, x, y) < px.len(),
        0 <= c <= ONE,
        forall|i: int| 0 <= i < px.len() ==> toward(#[trigger] base[i], color, px[i]),
    ensures
        plot_spec(px, width, x, y, color, c).len() == px.len(),
        forall|i: int|
            0 <= i < px.len() ==> toward(
                #[trigger] base[i],
                color,
                plot_spec(px, width, x, y, color, c)[i],
            ),
{
    let k = offset(width, x, y);
    lemma_blend_channel(px[k].0, color.0, c);
    lemma_blend_channel(px[k].1, color.1, c);
    lemma_blend_channel(px[k].2, color.2, c);
    assert(toward(base[k], color, px[k]));
}

/// Painting a pair of pixels keeps every pixel between what the raster first
/// held and the color.
pub proof fn lemma_plot_pair_toward(
    base: Seq<(u8, u8, u8)>,
    px: Seq<(u8, u8, u8)>,
    w: int,
    h: int,
    steep: bool,
    major: int,
    v: int,
    gap: int,
    color: (u8, u8, u8),
)
    requires
        base.len() == px.len(),
        px.len() == w * h,
        pair_fits(w, h, steep, major, v),
        0 <= gap <= ONE,
        forall|i: int| 0 <= i < px.len() ==> toward(#[trigger] base[i], color, px[i]),
    ensures
        plot_pair_spec(px, w, steep, major, v, gap, color).len() == px.len(),
        forall|i: int|
            0 <= i < px.len() ==> toward(
                #[trigger] base[i],
                color,
                plot_pair_spec(px, w, steep, major, v, gap, color)[i],
            ),
{
    let lo = floor_units(v);
    let c_lo = scale_spec(rfpart_spec(v), gap);
    let c_hi = scale_spec(fpart_spec(v), gap);
    lemma_scale_unit(rfpart_spec(v), gap);
    lemma_scale_unit(fpart_spec(v), gap);
    if steep {
        lemma_offset_in_range(w, h, lo, major);
        lemma_offset_in_range(w, h, lo + 1, major);
        lemma_plot_toward(base, px, w, lo, major, color, c_lo);
        let mid = plot_spec(px, w, lo, major, color, c_lo);
        lemma_plot_toward(base, mid, w, lo + 1, major, color, c_hi);
    } else {
        lemma_offset_in_range(w, h, major, lo);
        lemma_offset_in_range(w, h, major, lo + 1);
        lemma_plot_toward(base, px, w, major, lo, color, c_lo);
        let mid = plot_spec(px, w, major, lo, color, c_lo);
        lemma_plot_toward(base, mid, w, major, lo + 1, color, c_hi);
    }
}

/// The sweep keeps every pixel between what the raster first held and the color.
pub proof fn lemma_sweep_toward(
    base: Seq<(u8, u8, u8)>,
    px: Seq<(u8, u8, u8)>,
    w: int,
    h: int,
    steep: bool,
    x: int,
    x_end: int,
    v: int,
    g: int,
    color: (u8, u8, u8),
)
    requires
        base.len() == px.len(),
        px.len() == w * h,
        sweep_fits(w, h, steep, x, x_end, v, g),
        forall|i: int| 0 <= i < px.len() ==> toward(#[trigger] base[i], color, px[i]),
    ensures
        sweep_spec(px, w, steep, x, x_end, v, g, color).len() == px.len(),
        forall|i: int|
            0 <= i < px.len() ==> toward(
                #[trigger] base[i],
                color,
                sweep_spec(px, w, steep, x, x_end, v, g, color)[i],
            ),
    decreases x_end - x,
{
    if x < x_end {
        lemma_plot_pair_toward(base, px, w, h, steep, x, v, ONE as int, color);
        let next = plot_pair_spec(px, w, steep, x, v, ONE as int, color);
        lemma_sweep_toward(base, next, w, h, steep, x + 1, x_end, v + g, g, color);
    }
}

/// Drawing a line leaves every pixel between what it held and the line's
/// color, channel by channel, and changes no dimension of the raster.
pub proof fn lemma_draw_toward(
    px: Seq<(u8, u8, u8)>,
    w: int,
    h: int,
    color: (u8, u8, u8),
    start: (i64, i64),
    end: (i64, i64),
)
    requires
        px.len() == w * h,
        draw_fits(w, h, start, end),
    ensures
        draw_spec(px, w, color, start, end).len() == px.len(),
        forall|i: int|
            0 <= i < px.len() ==> toward(#[trigger] px[i], color, draw_spec(px, w, color, start, end)[i]),
{
    if start == end {
        lemma_offset_in_range(w, h, round_units(start.0 as int), round_units(start.1 as int));
    } else {
        let s = span_of(start, end);
        let g = gradient_spec(s.x1 - s.x0, s.y1 - s.y0);
        let v0 = cap_crossing(s.x0 as int, s.y0 as int, g);
        let v1 = cap_crossing(s.x1 as int, s.y1 as int, g);
        let gap0 = rfpart_spec(s.x0 + HALF);
        let gap1 = fpart_spec(s.x1 + HALF);
        lemma_plot_pair_toward(px, px, w, h, s.steep, cap_column(s.x0 as int), v0, gap0, color);
        let first = plot_pair_spec(px, w, s.steep, cap_column(s.x0 as int), v0, gap0, color);
        lemma_plot_pair_toward(px, first, w, h, s.steep, cap_column(s.x1 as int), v1, gap1, color);
        let second = plot_pair_spec(first, w, s.steep, cap_column(s.x1 as int), v1, gap1, color);
        lemma_sweep_toward(
            px,
            second,
            w,
            h,
            s.steep,
            cap_column(s.x0 as int) + 1,
            cap_column(s.x1 as int),
            v0 + g,
            g,
            color,
        );
    }
}

/// Drawing a line from either end gives the same raster, and touches the same
/// pixels.
pub proof fn lemma_draw_symmetric(
    px: Seq<(u8, u8, u8)>,
    w: int,
    h: int,
    color: (u8, u8, u8),
    start: (i64, i64),
    end: (i64, i64),
)
    ensures
        draw_spec(px, w, color, start, end) == draw_spec(px, w, color, end, start),
        draw_fits(w, h, start, end) == draw_fits(w, h, end, start),
{
    if start != end {
        assert(span_of(start, end) == span_of(end, start));
    }
}

/// Between the caps the two pixels of each column share the whole of the
/// column: their coverages add up to `ONE`.
pub proof fn lemma_sweep_coverage(v: int)
    ensures
        scale_spec(rfpart_spec(v), ONE as int) + scale_spec(fpart_spec(v), ONE as int) == ONE,
        scale_spec(rfpart_spec(v), ONE as int) == rfpart_spec(v),
        scale_spec(fpart_spec(v), ONE as int) == fpart_spec(v),
{
    let one = ONE as int;
    lemma_floor_div_between(rfpart_spec(v) * one, one, rfpart_spec(v), rfpart_spec(v));
    lemma_floor_div_between(fpart_spec(v) * one, one, fpart_spec(v), fpart_spec(v));
}

/// In the column of a cap the two pixels share what belongs to the line: their
/// coverages add up to `gap`, less at most one unit of the last place lost in
/// rounding.
pub proof fn lemma_cap_coverage(v: int, gap: int)
    requires
        0 <= gap <= ONE,
    ensures
        gap - 1 <= scale_spec(rfpart_spec(v), gap) + scale_spec(fpart_spec(v), gap) <= gap,
{
    let one = ONE as int;
    let a = rfpart_spec(v) * gap;
    let b = fpart_spec(v) * gap;
    assert(a + b == one * gap) by (nonlinear_arith)
        requires
            a == rfpart_spec(v) * gap,
            b == fpart_spec(v) * gap,
            rfpart_spec(v) + fpart_spec(v) == one,
    ;
    lemma_floor_div_bounds(a, one);
    lemma_floor_div_bounds(b, one);
}

/// A line of no length sets the pixel nearest to it to the line's color and
/// leaves every other pixel as it was.
pub proof fn lemma_point_line(
    px: Seq<(u8, u8, u8)>,
    w: int,
    h: int,
    color: (u8, u8, u8),
    at: (i64, i64),
)
    requires
        px.len() == w * h,
        draw_fits(w, h, at, at),
    ensures
        0 <= offset(w, round_units(at.0 as int), round_units(at.1 as int)) < px.len(),
        draw_spec(px, w, color, at, at)[offset(
            w,
            round_units(at.0 as int),
            round_units(at.1 as int),
        )] == color,
        forall|i: int|
            0 <= i < px.len() && i != offset(w, round_units(at.0 as int), round_units(at.1 as int))
                ==> draw_spec(px, w, color, at, at)[i] == px[i],
{
    lemma_offset_in_range(w, h, round_units(at.0 as int), round_units(at.1 as int));
}

/// The place in storage of the pixel in column `major` of a line's own axis
/// and row `minor` across it.
pub open spec fn pixel(width: int, steep: bool, major: int, minor: int) -> int {
    if steep {
        offset(width, minor, major)
    } else {
        offset(width, major, minor)
    }
}

/// Whether the pixel in column `major` and row `minor` of a line's own axes
/// lies inside a `w` by `h` raster.
pub open spec fn in_raster(w: int, h: int, steep: bool, major: int, minor: int) -> bool {
    if steep {
        0 <= major < h && 0 <= minor < w
    } else {
        0 <= major < w && 0 <= minor < h
    }
}

/// Two pixels of a raster share their place in storage only if they are one.
pub proof fn lemma_pixel_distinct(
    w: int,
    h: int,
    steep: bool,
    m1: int,
    n1: int,
    m2: int,
    n2: int,
)
    requires
        in_raster(w, h, steep, m1, n1),
        in_raster(w, h, steep, m2, n2),
    ensures
        0 <= pixel(w, steep, m1, n1) < w * h,
        (m1 != m2 || n1 != n2) ==> pixel(w, steep, m1, n1) != pixel(w, steep, m2, n2),
{
    let x1 = if steep { n1 } else { m1 };
    let y1 = if steep { m1 } else { n1 };
    let x2 = if steep { n2 } else { m2 };
    let y2 = if steep { m2 } else { n2 };
    lemma_offset_in_range(w, h, x1, y1);
    assert((x1 != x2 || y1 != y2) ==> y1 * w + x1 != y2 * w + x2) by (nonlinear_arith)
        requires
            0 <= x1 < w,
            0 <= x2 < w,
    ;
}

/// What a pixel holds after the pair of pixels that straddle a crossing was
/// painted: the two of the pair are blended, every other pixel is as before.
pub open spec fn after_pair(
    prior: (u8, u8, u8),
    color: (u8, u8, u8),
    major: int,
    v: int,
    gap: int,
    m: int,
    n: int,
) -> (u8, u8, u8) {
    if m == major && n == floor_units(v) {
        blend_spec(prior, color, scale_spec(rfpart_spec(v), gap))
    } else if m == major && n == floor_units(v) + 1 {
        blend_spec(prior, color, scale_spec(fpart_spec(v), gap))
    } else {
        prior
    }
}

/// Painting a pair of pixels changes those two and no other.
pub proof fn lemma_plot_pair_effect(
    px: Seq<(u8, u8, u8)>,
    w: int,
    h: int,
    steep: bool,
    major: int,
    v: int,
    gap: int,
    color: (u8, u8, u8),
    m: int,
    n: int,
)
    requires
        px.len() == w * h,
        pair_fits(w, h, steep, major, v),
        in_raster(w, h, steep, m, n),
    ensures
        plot_pair_spec(px, w, steep, major, v, gap, color).len() == px.len(),
        plot_pair_spec(px, w, steep, major, v, gap, color)[pixel(w, steep, m, n)] == after_pair(
            px[pixel(w, steep, m, n)],
            color,
            major,
            v,
            gap,
            m,
            n,
        ),
{
    let lo = floor_units(v);
    lemma_pixel_distinct(w, h, steep, major, lo, major, lo + 1);
    lemma_pixel_distinct(w, h, steep, major, lo + 1, m, n);
    lemma_pixel_distinct(w, h, steep, m, n, major, lo);
}

/// Where the line crosses column `m`, having crossed column `x` at `v` and
/// moving by `g` per column.
pub open spec fn crossing_at(x: int, v: int, g: int, m: int) -> int {
    v + (m - x) * g
}

/// Each column of the sweep is crossed where the sweep's bounds were asked for.
pub proof fn lemma_sweep_fits_at(
    w: int,
    h: int,
    steep: bool,
    x: int,
    x_end: int,
    v: int,
    g: int,
    m: int,
)
    requires
        sweep_fits(w, h, steep, x, x_end, v, g),
        x <= m < x_end,
    ensures
        pair_fits(w, h, steep, m, crossing_at(x, v, g, m)),
    decreases x_end - x,
{
    if m == x {
        assert((m - x) * g == 0) by (nonlinear_arith)
            requires
                m == x,
        ;
    } else {
        lemma_sweep_fits_at(w, h, steep, x + 1, x_end, v + g, g, m);
        assert((v + g) + (m - (x + 1)) * g == v + (m - x) * g) by (nonlinear_arith);
    }
}

/// What the sweep over the columns `x .. x_end` does to one pixel: in each of
/// those columns the two pixels that straddle the crossing are blended, the
/// lower with the share `rfpart` and the upper with the share `fpart` of the
/// crossing; every other pixel is as before.
pub proof fn lemma_sweep_effect(
    px: Seq<(u8, u8, u8)>,
    w: int,
    h: int,
    steep: bool,
    x: int,
    x_end: int,
    v: int,
    g: int,
    color: (u8, u8, u8),
    m: int,
    n: int,
)
    requires
        px.len() == w * h,
        sweep_fits(w, h, steep, x, x_end, v, g),
        in_raster(w, h, steep, m, n),
    ensures
        sweep_spec(px, w, steep, x, x_end, v, g, color).len() == px.len(),
        x <= m < x_end ==> sweep_spec(px, w, steep, x, x_end, v, g, color)[pixel(w, steep, m, n)]
            == after_pair(
            px[pixel(w, steep, m, n)],
            color,
            m,
            crossing_at(x, v, g, m),
            ONE as int,
            m,
            n,
        ),
        !(x <= m < x_end) ==> sweep_spec(px, w, steep, x, x_end, v, g, color)[pixel(
            w,
            steep,
            m,
            n,
        )] == px[pixel(w, steep, m, n)],
    decreases x_end - x,
{
    if x < x_end {
        let next = plot_pair_spec(px, w, steep, x, v, ONE as int, color);
        lemma_plot_pair_effect(px, w, h, steep, x, v, ONE as int, color, m, n);
        lemma_sweep_effect(next, w, h, steep, x + 1, x_end, v + g, g, color, m, n);
        if m == x {
            assert((m - x) * g == 0) by (nonlinear_arith)
                requires
                    m == x,
            ;
        } else {
            assert((v + g) + (m - (x + 1)) * g == v + (m - x) * g) by (nonlinear_arith);
        }
    }
}

/// Two pixels that held `prior` and now hold `low` and `high` have together
/// moved toward `target` by the whole distance, less at most one lost in
/// rounding down.
pub open spec fn shares_whole(prior: u8, target: u8, low: u8, high: u8) -> bool {
    target - prior - 1 <= (low - prior) + (high - prior) <= target - prior
}

/// Blending one value with the two shares of a crossing moves the two results
/// together by the whole distance to the target, less at most one.
pub proof fn lemma_column_change(prior: u8, target: u8, v: int)
    ensures
        shares_whole(
            prior,
            target,
            blend_channel_spec(prior, target, rfpart_spec(v)),
            blend_channel_spec(prior, target, fpart_spec(v)),
        ),
{
    let one = ONE as int;
    let d = target - prior;
    lemma_blend_channel(prior, target, rfpart_spec(v));
    lemma_blend_channel(prior, target, fpart_spec(v));
    let a = d * rfpart_spec(v);
    let b = d * fpart_spec(v);
    assert(a + b == one * d) by (nonlinear_arith)
        requires
            a == d * rfpart_spec(v),
            b == d * fpart_spec(v),
            rfpart_spec(v) + fpart_spec(v) == one,
    ;
    lemma_floor_div_bounds(a, one);
    lemma_floor_div_bounds(b, one);
}

/// In every column strictly between the two caps of a line, the drawing
/// changes the two pixels that straddle the crossing and no other: the lower
/// is blended with the share `rfpart` and the upper with the share `fpart` of
/// the crossing. Where the two held one color, they have together moved toward
/// the line's color by the whole distance, less at most one per channel.
pub proof fn lemma_draw_column(
    px: Seq<(u8, u8, u8)>,
    w: int,
    h: int,
    color: (u8, u8, u8),
    start: (i64, i64),
    end: (i64, i64),
    m: int,
)
    requires
        px.len() == w * h,
        start != end,
        draw_fits(w, h, start, end),
        cap_column(span_of(start, end).x0 as int) < m < cap_column(span_of(start, end).x1 as int),
    ensures
        ({
            let s = span_of(start, end);
            let g = gradient_spec(s.x1 - s.x0, s.y1 - s.y0);
            let v = crossing_at(
                cap_column(s.x0 as int),
                cap_crossing(s.x0 as int, s.y0 as int, g),
                g,
                m,
            );
            let lo = floor_units(v);
            let low = pixel(w, s.steep, m, lo);
            let high = pixel(w, s.steep, m, lo + 1);
            let now = draw_spec(px, w, color, start, end);
            &&& in_raster(w, h, s.steep, m, lo)
            &&& in_raster(w, h, s.steep, m, lo + 1)
            &&& now[low] == blend_spec(px[low], color, rfpart_spec(v))
            &&& now[high] == blend_spec(px[high], color, fpart_spec(v))
            &&& forall|n: int|
                in_raster(w, h, s.steep, m, n) && n != lo && n != lo + 1 ==> now[#[trigger] pixel(
                    w,
                    s.steep,
                    m,
                    n,
                )] == px[pixel(w, s.steep, m, n)]
            &&& px[low] == px[high] ==> shares_whole(px[low].0, color.0, now[low].0, now[high].0)
                && shares_whole(px[low].1, color.1, now[low].1, now[high].1) && shares_whole(
                px[low].2,
                color.2,
                now[low].2,
                now[high].2,
            )
        }),
{
    let s = span_of(start, end);
    let g = gradient_spec(s.x1 - s.x0, s.y1 - s.y0);
    let col0 = cap_column(s.x0 as int);
    let col1 = cap_column(s.x1 as int);
    let v0 = cap_crossing(s.x0 as int, s.y0 as int, g);
    let v1 = cap_crossing(s.x1 as int, s.y1 as int, g);
    let gap0 = rfpart_spec(s.x0 + HALF);
    let gap1 = fpart_spec(s.x1 + HALF);
    let v = crossing_at(col0, v0, g, m);
    let lo = floor_units(v);
    let first = plot_pair_spec(px, w, s.steep, col0, v0, gap0, color);
    let second = plot_pair_spec(first, w, s.steep, col1, v1, gap1, color);
    let now = draw_spec(px, w, color, start, end);
    lemma_sweep_fits_at(w, h, s.steep, col0 + 1, col1, v0 + g, g, m);
    assert((v0 + g) + (m - (col0 + 1)) * g == v0 + (m - col0) * g) by (nonlinear_arith);
    lemma_sweep_coverage(v);
    assert forall|n: int| in_raster(w, h, s.steep, m, n) implies now[#[trigger] pixel(
        w,
        s.steep,
        m,
        n,
    )] == after_pair(px[pixel(w, s.steep, m, n)], color, m, v, ONE as int, m, n) by {
        lemma_plot_pair_effect(px, w, h, s.steep, col0, v0, gap0, color, m, n);
        lemma_plot_pair_effect(first, w, h, s.steep, col1, v1, gap1, color, m, n);
        lemma_sweep_effect(second, w, h, s.steep, col0 + 1, col1, v0 + g, g, color, m, n);
    }
    let low = pixel(w, s.steep, m, lo);
    let high = pixel(w, s.steep, m, lo + 1);
    assert(now[low] == blend_spec(px[low], color, rfpart_spec(v)));
    assert(now[high] == blend_spec(px[high], color, fpart_spec(v)));
    lemma_column_change(px[low].0, color.0, v);
    lemma_column_change(px[low].1, color.1, v);
    lemma_column_change(px[low].2, color.2, v);
}

} // verus!
