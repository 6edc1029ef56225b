//! Hard-edged lines: every pixel on the way is overwritten with the line's color.

use vstd::prelude::*;
use crate::buffer::{lemma_offset_in_range, offset, PixelBuffer};
use crate::fixed::{lemma_floor_div_between, trunc_div};

verus! {

/// `r` is the square root of `n`, rounded down.
pub open spec fn is_root_floor(n: int, r: int) -> bool {
    0 <= r && r * r <= n < (r + 1) * (r + 1)
}

/// `s` is the whole number nearest to the square root of `n`: the root lies
/// less than one half above `s` and no more than one half below it.
pub open spec fn is_nearest_root(n: int, s: int) -> bool {
    0 <= s && 4 * n < (2 * s + 1) * (2 * s + 1) && (s == 0 || (2 * s - 1) * (2 * s - 1) <= 4 * n)
}

/// The whole number nearest to the square root of `n`.
pub open spec fn nearest_root(n: int) -> int {
    choose|s: int| is_nearest_root(n, s)
}

/// Only one whole number is nearest to a square root.
pub proof fn lemma_nearest_root_unique(n: int, s: int)
    requires
        is_nearest_root(n, s),
    ensures
        nearest_root(n) == s,
{
    let c = nearest_root(n);
    if c < s {
        assert((2 * c + 1) * (2 * c + 1) <= (2 * s - 1) * (2 * s - 1)) by (nonlinear_arith)
            requires
                0 <= c,
                c + 1 <= s,
        ;
    }
    if s < c {
        assert((2 * s + 1) * (2 * s + 1) <= (2 * c - 1) * (2 * c - 1)) by (nonlinear_arith)
            requires
                0 <= s,
                s + 1 <= c,
        ;
    }
}

/// The square root of `n`, rounded down.
pub fn root_floor(n: i128) -> (r: i128)
    requires
        0 <= n < 0x4000_0000_0000_0000_0000_0000_0000_0000,
    ensures
        is_root_floor(n as int, r as int),
{
    let mut lo: i128 = 0;
    let mut hi: i128 = 0x8000_0000_0000_0000;
    assert(hi * hi > n) by (nonlinear_arith)
        requires
            hi == 0x8000_0000_0000_0000,
            n < 0x4000_0000_0000_0000_0000_0000_0000_0000,
    ;
    while hi - lo > 1
        invariant
            0 <= lo < hi <= 0x8000_0000_0000_0000,
            lo * lo <= n < hi * hi,
        decreases hi - lo,
    {
        let mid: i128 = lo + (hi - lo) / 2;
        assert(0 <= mid * mid <= 0x4000_0000_0000_0000_0000_0000_0000_0000) by (nonlinear_arith)
            requires
                0 <= mid <= 0x8000_0000_0000_0000,
        ;
        if mid * mid <= n {
            lo = mid;
        } else {
            hi = mid;
        }
    }
    lo
}

/// The square of the distance between two points.
pub open spec fn distance_squared(a: (i32, i32), b: (i32, i32)) -> int {
    (a.0 - b.0) * (a.0 - b.0) + (a.1 - b.1) * (a.1 - b.1)
}

/// The number of steps of a line between two points: their distance, rounded
/// to the nearest whole number.
pub fn step_count(start: (i32, i32), end: (i32, i32)) -> (s: i128)
    ensures
        s == nearest_root(distance_squared(start, end)),
        is_nearest_root(distance_squared(start, end), s as int),
        0 <= s <= 0x2_0000_0001,
        s == 0 <==> start == end,
{
    let dx: i128 = start.0 as i128 - end.0 as i128;
    let dy: i128 = start.1 as i128 - end.1 as i128;
    assert(0 <= dx * dx <= 0x1_0000_0000_0000_0000 && (dx != 0 ==> dx * dx >= 1) && (dx == 0
        ==> dx * dx == 0)) by (nonlinear_arith)
        requires
            -0x1_0000_0000 <= dx <= 0x1_0000_0000,
    ;
    assert(0 <= dy * dy <= 0x1_0000_0000_0000_0000 && (dy != 0 ==> dy * dy >= 1) && (dy == 0
        ==> dy * dy == 0)) by (nonlinear_arith)
        requires
            -0x1_0000_0000 <= dy <= 0x1_0000_0000,
    ;
    let n: i128 = dx * dx + dy * dy;
    let r: i128 = root_floor(n);
    assert(r <= 0x2_0000_0000) by (nonlinear_arith)
        requires
            0 <= r,
            r * r <= n,
            n <= 0x2_0000_0000_0000_0000,
    ;
    let s: i128 = if n - r * r > r {
        r + 1
    } else {
        r
    };
    proof {
        assert(is_nearest_root(n as int, s as int)) by (nonlinear_arith)
            requires
                0 <= r,
                r * r <= n < (r + 1) * (r + 1),
                n - r * r > r ==> s == r + 1,
                n - r * r <= r ==> s == r,
        ;
        lemma_nearest_root_unique(n as int, s as int);
        assert(n == 0 ==> r == 0) by (nonlinear_arith)
            requires
                0 <= r,
                r * r <= n,
        ;
        assert(n >= 1 ==> s >= 1) by (nonlinear_arith)
            requires
                0 <= s,
                4 * n < (2 * s + 1) * (2 * s + 1),
        ;
    }
    s
}

/// The coordinate reached after `t` of `steps` equal steps from `a` to `b`,
/// the way made so far rounded toward zero.
pub open spec fn step_coord(a: int, b: int, t: int, steps: int) -> int {
    a + trunc_div((b - a) * t, steps)
}

/// On the way from `a` to `b` no step leaves the range between the two.
pub proof fn lemma_step_coord_between(a: int, b: int, t: int, steps: int)
    requires
        0 <= t <= steps,
        0 < steps,
    ensures
        a <= b ==> a <= step_coord(a, b, t, steps) <= b,
        b <= a ==> b <= step_coord(a, b, t, steps) <= a,
        t == 0 ==> step_coord(a, b, t, steps) == a,
        t == steps ==> step_coord(a, b, t, steps) == b,
{
    let d = b - a;
    if d >= 0 {
        assert(0 * steps <= d * t <= d * steps) by (nonlinear_arith)
            requires
                0 <= t <= steps,
                d >= 0,
        ;
        lemma_floor_div_between(d * t, steps, 0, d);
        if t == steps {
            lemma_floor_div_between(d * t, steps, d, d);
        }
        if t == 0 {
            assert(d * t == 0) by (nonlinear_arith)
                requires
                    t == 0,
            ;
        }
    } else {
        assert(0 * steps <= -(d * t) <= (-d) * steps) by (nonlinear_arith)
            requires
                0 <= t <= steps,
                d < 0,
        ;
        lemma_floor_div_between(-(d * t), steps, 0, -d);
        if t == steps {
            assert(-(d * t) == (-d) * steps) by (nonlinear_arith)
                requires
                    t == steps,
            ;
            lemma_floor_div_between(-(d * t), steps, -d, -d);
        }
        if t == 0 {
            assert(d * t == 0) by (nonlinear_arith)
                requires
                    t == 0,
            ;
        }
    }
}

/// The raster after the steps `t ..= steps` of the line from `start` to `end` were
/// overwritten with `color`.
pub open spec fn solid_from(
    px: Seq<(u8, u8, u8)>,
    width: int,
    color: (u8, u8, u8),
    start: (i32, i32),
    end: (i32, i32),
    steps: int,
    t: int,
) -> Seq<(u8, u8, u8)>
    decreases steps + 1 - t,
{
    if t > steps {
        px
    } else {
        solid_from(
            px.update(
                offset(
                    width,
                    step_coord(start.0 as int, end.0 as int, t, steps),
                    step_coord(start.1 as int, end.1 as int, t, steps),
                ),
                color,
            ),
            width,
            color,
            start,
            end,
            steps,
            t + 1,
        )
    }
}

/// The raster after the line from `start` to `end` was overwritten with `color`.
///
/// The line takes as many steps as the distance between its ends, rounded to
/// the nearest whole number; a line too short for one step is the pixel `start`.
pub open spec fn draw_solid_spec(
    px: Seq<(u8, u8, u8)>,
    width: int,
    color: (u8, u8, u8),
    start: (i32, i32),
    end: (i32, i32),
) -> Seq<(u8, u8, u8)> {
    let steps = nearest_root(distance_squared(start, end));
    if steps == 0 {
        px.update(offset(width, start.0 as int, start.1 as int), color)
    } else {
        solid_from(px, width, color, start, end, steps, 0)
    }
}

/// The coordinate reached after `t` of `steps` equal steps from `a` to `b`.
pub fn step_at(a: i32, b: i32, t: i128, steps: i128) -> (c: i32)
    requires
        0 <= t <= steps <= 0x2_0000_0001,
        0 < steps,
    ensures
        c == step_coord(a as int, b as int, t as int, steps as int),
        a <= b ==> a <= c <= b,
        b <= a ==> b <= c <= a,
{
    proof {
        lemma_step_coord_between(a as int, b as int, t as int, steps as int);
    }
    let d: i128 = b as i128 - a as i128;
    assert(-0x4_0000_0000_0000_0000 <= d * t <= 0x4_0000_0000_0000_0000) by (nonlinear_arith)
        requires
            -0x1_0000_0000 <= d <= 0x1_0000_0000,
            0 <= t <= 0x2_0000_0001,
    ;
    (a as i128 + d * t / steps) as i32
}

/// Overwrites with `color` every pixel on the way from `start` to `end`, both ends
/// included.
pub fn draw_line(color: (u8, u8, u8), start: (i32, i32), end: (i32, i32), buf: &mut PixelBuffer)
    requires
        old(buf).wf(),
        0 <= start.0 < old(buf).width,
        0 <= end.0 < old(buf).width,
        0 <= start.1 < old(buf).height,
        0 <= end.1 < old(buf).height,
    ensures
        final(buf).wf(),
        final(buf).width == old(buf).width,
        final(buf).height == old(buf).height,
        final(buf).data@ == draw_solid_spec(old(buf).data@, old(buf).width as int, color, start, end),
        forall|i: int|
            0 <= i < old(buf).data@.len() ==> final(buf).data@[i] == #[trigger] old(buf).data@[i]
                || final(buf).data@[i] == color,
{
    let ghost px0 = buf.data@;
    let ghost w = buf.width as int;
    proof {
        lemma_solid_paints(px0, w, buf.height as int, color, start, end);
    }
    let steps: i128 = step_count(start, end);
    if steps == 0 {
        buf.put(start.0 as usize, start.1 as usize, color);
    } else {
        let mut t: i128 = 0;
        while t <= steps
            invariant
                0 <= t <= steps + 1,
                0 < steps <= 0x2_0000_0001,
                buf.wf(),
                buf.width == w,
                buf.height == old(buf).height,
                0 <= start.0 < buf.width,
                0 <= end.0 < buf.width,
                0 <= start.1 < buf.height,
                0 <= end.1 < buf.height,
                solid_from(buf.data@, w, color, start, end, steps as int, t as int) == solid_from(
                    px0,
                    w,
                    color,
                    start,
                    end,
                    steps as int,
                    0,
                ),
            decreases steps + 1 - t,
        {
            let x: i32 = step_at(start.0, end.0, t, steps);
            let y: i32 = step_at(start.1, end.1, t, steps);
            buf.put(x as usize, y as usize, color);
            t = t + 1;
        }
    }
}

/// From step `t` on, a line between two pixels of the raster leaves each pixel
/// either as it was or in the line's color.
pub proof fn lemma_solid_from_paints(
    px: Seq<(u8, u8, u8)>,
    w: int,
    h: int,
    color: (u8, u8, u8),
    start: (i32, i32),
    end: (i32, i32),
    steps: int,
    t: int,
)
    requires
        px.len() == w * h,
        0 <= start.0 < w,
        0 <= end.0 < w,
        0 <= start.1 < h,
        0 <= end.1 < h,
        0 <= t <= steps + 1,
        0 < steps,
    ensures
        solid_from(px, w, color, start, end, steps, t).len() == px.len(),
        forall|i: int|
            0 <= i < px.len() ==> {
                let now = #[trigger] solid_from(px, w, color, start, end, steps, t)[i];
                now == px[i] || now == color
            },
    decreases steps + 1 - t,
{
    if t <= steps {
        let x = step_coord(start.0 as int, end.0 as int, t, steps);
        let y = step_coord(start.1 as int, end.1 as int, t, steps);
        lemma_step_coord_between(start.0 as int, end.0 as int, t, steps);
        lemma_step_coord_between(start.1 as int, end.1 as int, t, steps);
        lemma_offset_in_range(w, h, x, y);
        let next = px.update(offset(w, x, y), color);
        lemma_solid_from_paints(next, w, h, color, start, end, steps, t + 1);
    }
}

/// A line between two pixels of the raster leaves each pixel either as it was
/// or in the line's color, and changes no dimension of the raster.
pub proof fn lemma_solid_paints(
    px: Seq<(u8, u8, u8)>,
    w: int,
    h: int,
    color: (u8, u8, u8),
    start: (i32, i32),
    end: (i32, i32),
)
    requires
        px.len() == w * h,
        0 <= start.0 < w,
        0 <= end.0 < w,
        0 <= start.1 < h,
        0 <= end.1 < h,
    ensures
        draw_solid_spec(px, w, color, start, end).len() == px.len(),
        forall|i: int|
            0 <= i < px.len() ==> {
                let now = #[trigger] draw_solid_spec(px, w, color, start, end)[i];
                now == px[i] || now == color
            },
{
    let steps = nearest_root(distance_squared(start, end));
    if steps > 0 {
        lemma_solid_from_paints(px, w, h, color, start, end, steps, 0);
    } else {
        lemma_offset_in_range(w, h, start.0 as int, start.1 as int);
    }
}

} // verus!
