//! Marching squares on one cell: where the isoline of a threshold crosses the
//! unit square spanned by four neighbouring samples.

use vstd::prelude::*;
use crate::fixed::{lemma_floor_div_between, magnitude, scale, scale_spec, trunc_div, ONE};
use crate::buffer::lemma_offset_in_range;
use crate::sampling::ScalarGrid;

verus! {

/// A segment inside a cell, from `a` to `b`; each point is `(x, y)` with both
/// coordinates in `[0, ONE]`, `x` growing to the right and `y` downwards.
#[derive(Clone, Copy, PartialEq, Eq, Debug)]
pub struct Line {
    pub a: (i64, i64),
    pub b: (i64, i64),
}

/// What the isoline does inside one cell.
#[derive(Clone, Copy, PartialEq, Eq, Debug)]
pub enum Contour {
    /// The isoline does not pass through the cell.
    Zero,
    /// The isoline passes through once.
    One(Line),
    /// The isoline passes through twice: the cell is a saddle.
    Two(Line, Line),
}

/// A side of a cell.
#[derive(Clone, Copy, PartialEq, Eq, Debug)]
pub enum Edge {
    Top,
    Right,
    Bottom,
    Left,
}

/// Which sides of a cell the isoline joins.
#[derive(Clone, Copy, PartialEq, Eq, Debug)]
pub enum Shape {
    /// No side is crossed.
    Empty,
    /// One segment, from the first side to the second.
    Single(Edge, Edge),
    /// Two segments: from the first side to the second, and from the third to
    /// the fourth.
    Double(Edge, Edge, Edge, Edge),
}

/// How far along the way from `a` to `b` the value `target` lies, as a
/// fixed-point fraction: `(target - a) / (b - a)`, rounded toward zero.
pub open spec fn interpolate_spec(target: int, a: int, b: int) -> int {
    trunc_div((target - a) * ONE, b - a)
}

/// Exactly one of the two values lies above the threshold.
pub open spec fn straddles(threshold: int, a: int, b: int) -> bool {
    (a > threshold) != (b > threshold)
}

/// Dividing by the opposite divisor gives the opposite quotient.
pub proof fn lemma_div_negated_divisor(m: int, d: int)
    requires
        d > 0,
    ensures
        m / (-d) == -(m / d),
{
    assert(m / (-d) == -(m / d)) by (nonlinear_arith)
        requires
            d > 0,
    ;
}

/// Rounding toward zero treats a quotient and the quotient of the opposites alike.
pub proof fn lemma_trunc_div_opposites(n: int, d: int)
    requires
        d != 0,
    ensures
        trunc_div(-n, -d) == trunc_div(n, d),
{
    if d > 0 {
        lemma_div_negated_divisor(n, d);
        lemma_div_negated_divisor(-n, d);
    } else {
        lemma_div_negated_divisor(n, -d);
        lemma_div_negated_divisor(-n, -d);
    }
}

/// Between two values that straddle the threshold the crossing lies on the
/// edge itself: its fraction is in `[0, ONE]`.
pub proof fn lemma_interpolate_in_unit(threshold: int, a: int, b: int)
    requires
        straddles(threshold, a, b),
    ensures
        0 <= interpolate_spec(threshold, a, b) <= ONE,
{
    let one = ONE as int;
    let da = threshold - a;
    let d = b - a;
    if b > a {
        assert(0 * d <= da * one <= one * d) by (nonlinear_arith)
            requires
                0 <= da <= d,
                one > 0,
        ;
        lemma_floor_div_between(da * one, d, 0, one);
    } else {
        assert(0 * (-d) <= (-da) * one <= one * (-d) && (-da) * one == -(da * one))
            by (nonlinear_arith)
            requires
                0 <= -da <= -d,
                one > 0,
        ;
        lemma_floor_div_between((-da) * one, -d, 0, one);
        lemma_div_negated_divisor(-(da * one), -d);
        lemma_div_negated_divisor(da * one, -d);
    }
}

/// How far along the way from `a` to `b` the value `target` lies.
pub fn interpolate(target: i64, a: i64, b: i64) -> (t: i64)
    requires
        a != b,
        i64::MIN <= interpolate_spec(target as int, a as int, b as int) <= i64::MAX,
    ensures
        t == interpolate_spec(target as int, a as int, b as int),
{
    let da: i128 = target as i128 - a as i128;
    let db: i128 = b as i128 - target as i128;
    assert(-0x1_0000_0000_0000_0000_0000_0000 <= da * 4294967296 <= 0x1_0000_0000_0000_0000_0000_0000);
    let n: i128 = da * (ONE as i128);
    let q: i128 = n / (da + db);
    q as i64
}

/// The point at which the isoline crosses a side of the cell.
pub open spec fn edge_point(
    e: Edge,
    threshold: int,
    tl: int,
    tr: int,
    bl: int,
    br: int,
) -> (i64, i64) {
    match e {
        Edge::Top => (interpolate_spec(threshold, tl, tr) as i64, 0i64),
        Edge::Bottom => (interpolate_spec(threshold, bl, br) as i64, ONE),
        Edge::Left => (0i64, interpolate_spec(threshold, tl, bl) as i64),
        Edge::Right => (ONE, interpolate_spec(threshold, tr, br) as i64),
    }
}

/// The isoline crosses this side: its two corners straddle the threshold.
pub open spec fn crossed(e: Edge, threshold: int, tl: int, tr: int, bl: int, br: int) -> bool {
    match e {
        Edge::Top => straddles(threshold, tl, tr),
        Edge::Bottom => straddles(threshold, bl, br),
        Edge::Left => straddles(threshold, tl, bl),
        Edge::Right => straddles(threshold, tr, br),
    }
}

/// Both coordinates of a point lie in `[0, ONE]`.
pub open spec fn point_in_unit(p: (i64, i64)) -> bool {
    0 <= p.0 <= ONE && 0 <= p.1 <= ONE
}

/// Both ends of a segment lie in the unit square.
pub open spec fn line_in_unit(l: Line) -> bool {
    point_in_unit(l.a) && point_in_unit(l.b)
}

/// Every segment of a contour lies in the unit square.
pub open spec fn contour_in_unit(c: Contour) -> bool {
    match c {
        Contour::Zero => true,
        Contour::One(l) => line_in_unit(l),
        Contour::Two(l, m) => line_in_unit(l) && line_in_unit(m),
    }
}

/// The sides that the isoline joins, by which corners lie above the threshold.
///
/// Corners that agree give nothing. One corner apart from the other three is
/// cut off by a segment between its two sides. Two neighbours apart from the
/// other two are split off by a segment between the two sides that separate
/// them. Two opposite corners above the threshold are each left joined to the
/// middle: the segments cut off the two corners that are not above it.
pub open spec fn class_of(tl: bool, tr: bool, bl: bool, br: bool) -> Shape {
    if tl == tr && tr == bl && bl == br {
        Shape::Empty
    } else if tl == tr && tr == bl {
        Shape::Single(Edge::Bottom, Edge::Right)
    } else if tl == tr && tr == br {
        Shape::Single(Edge::Bottom, Edge::Left)
    } else if tl == bl && bl == br {
        Shape::Single(Edge::Right, Edge::Top)
    } else if tr == bl && bl == br {
        Shape::Single(Edge::Top, Edge::Left)
    } else if tl == tr {
        Shape::Single(Edge::Left, Edge::Right)
    } else if tl == bl {
        Shape::Single(Edge::Top, Edge::Bottom)
    } else if tl {
        Shape::Double(Edge::Top, Edge::Right, Edge::Left, Edge::Bottom)
    } else {
        Shape::Double(Edge::Left, Edge::Top, Edge::Bottom, Edge::Right)
    }
}

/// The segment between the crossings of two sides.
pub open spec fn segment_spec(
    e: Edge,
    f: Edge,
    threshold: int,
    tl: int,
    tr: int,
    bl: int,
    br: int,
) -> Line {
    Line { a: edge_point(e, threshold, tl, tr, bl, br), b: edge_point(f, threshold, tl, tr, bl, br) }
}

/// The contour of the cell with the given corner values at the given threshold.
/// A corner counts as inside when its value is greater than the threshold.
pub open spec fn contour_spec(threshold: int, tl: int, tr: int, bl: int, br: int) -> Contour {
    match class_of(tl > threshold, tr > threshold, bl > threshold, br > threshold) {
        Shape::Empty => Contour::Zero,
        Shape::Single(e, f) => Contour::One(segment_spec(e, f, threshold, tl, tr, bl, br)),
        Shape::Double(e, f, g, h) => Contour::Two(
            segment_spec(e, f, threshold, tl, tr, bl, br),
            segment_spec(g, h, threshold, tl, tr, bl, br),
        ),
    }
}

/// The table of the sixteen corner patterns, by their four-bit number: the
/// top-left corner is the highest bit, then top-right, bottom-left and
/// bottom-right, each set where the corner lies above the threshold.
pub fn cell_shape(mask: u8) -> (s: Shape)
    requires
        mask < 16,
    ensures
        s == class_of(mask / 8 % 2 == 1, mask / 4 % 2 == 1, mask / 2 % 2 == 1, mask % 2 == 1),
{
    match mask {
        0 => Shape::Empty,
        1 => Shape::Single(Edge::Bottom, Edge::Right),
        2 => Shape::Single(Edge::Bottom, Edge::Left),
        3 => Shape::Single(Edge::Left, Edge::Right),
        4 => Shape::Single(Edge::Right, Edge::Top),
        5 => Shape::Single(Edge::Top, Edge::Bottom),
        6 => Shape::Double(Edge::Left, Edge::Top, Edge::Bottom, Edge::Right),
        7 => Shape::Single(Edge::Top, Edge::Left),
        8 => Shape::Single(Edge::Top, Edge::Left),
        9 => Shape::Double(Edge::Top, Edge::Right, Edge::Left, Edge::Bottom),
        10 => Shape::Single(Edge::Top, Edge::Bottom),
        11 => Shape::Single(Edge::Right, Edge::Top),
        12 => Shape::Single(Edge::Left, Edge::Right),
        13 => Shape::Single(Edge::Bottom, Edge::Left),
        14 => Shape::Single(Edge::Bottom, Edge::Right),
        _ => Shape::Empty,
    }
}

/// The point at which the isoline crosses a side whose corners straddle the
/// threshold.
pub fn crossing_point(e: Edge, threshold: i64, tl: i64, tr: i64, bl: i64, br: i64) -> (p: (i64, i64))
    requires
        crossed(e, threshold as int, tl as int, tr as int, bl as int, br as int),
    ensures
        p == edge_point(e, threshold as int, tl as int, tr as int, bl as int, br as int),
        point_in_unit(p),
{
    proof {
        match e {
            Edge::Top => lemma_interpolate_in_unit(threshold as int, tl as int, tr as int),
            Edge::Bottom => lemma_interpolate_in_unit(threshold as int, bl as int, br as int),
            Edge::Left => lemma_interpolate_in_unit(threshold as int, tl as int, bl as int),
            Edge::Right => lemma_interpolate_in_unit(threshold as int, tr as int, br as int),
        }
    }
    match e {
        Edge::Top => (interpolate(threshold, tl, tr), 0),
        Edge::Bottom => (interpolate(threshold, bl, br), ONE),
        Edge::Left => (0, interpolate(threshold, tl, bl)),
        Edge::Right => (ONE, interpolate(threshold, tr, br)),
    }
}

/// The smallest of four values.
pub open spec fn min4(a: int, b: int, c: int, d: int) -> int {
    let m = if a < b { a } else { b };
    let n = if c < d { c } else { d };
    if m < n { m } else { n }
}

/// The largest of four values.
pub open spec fn max4(a: int, b: int, c: int, d: int) -> int {
    let m = if a > b { a } else { b };
    let n = if c > d { c } else { d };
    if m > n { m } else { n }
}

/// Classifies one cell: where the isoline of `contour` runs between the four
/// corner values.
///
/// Every segment lies in the unit square, and a threshold strictly between the
/// smallest and the largest corner always gives at least one segment.
pub fn find_contour(contour: i64, tl: i64, tr: i64, bl: i64, br: i64) -> (c: Contour)
    ensures
        c == contour_spec(contour as int, tl as int, tr as int, bl as int, br as int),
        contour_in_unit(c),
        min4(tl as int, tr as int, bl as int, br as int) < contour < max4(
            tl as int,
            tr as int,
            bl as int,
            br as int,
        ) ==> !(c is Zero),
        tl == tr && tr == bl && bl == br ==> c is Zero,
{
    let b3: u8 = if tl > contour { 8 } else { 0 };
    let b2: u8 = if tr > contour { 4 } else { 0 };
    let b1: u8 = if bl > contour { 2 } else { 0 };
    let b0: u8 = if br > contour { 1 } else { 0 };
    let mask: u8 = b3 + b2 + b1 + b0;
    match cell_shape(mask) {
        Shape::Empty => Contour::Zero,
        Shape::Single(e, f) => Contour::One(
            Line {
                a: crossing_point(e, contour, tl, tr, bl, br),
                b: crossing_point(f, contour, tl, tr, bl, br),
            },
        ),
        Shape::Double(e, f, g, h) => Contour::Two(
            Line {
                a: crossing_point(e, contour, tl, tr, bl, br),
                b: crossing_point(f, contour, tl, tr, bl, br),
            },
            Line {
                a: crossing_point(g, contour, tl, tr, bl, br),
                b: crossing_point(h, contour, tl, tr, bl, br),
            },
        ),
    }
}

impl Contour {
    /// The segments of the contour, in order.
    pub open spec fn segments(self) -> Seq<Line> {
        match self {
            Contour::Zero => Seq::empty(),
            Contour::One(l) => seq![l],
            Contour::Two(l, m) => seq![l, m],
        }
    }

    /// The segments of the contour, in order.
    pub fn lines(&self) -> (v: Vec<Line>)
        ensures
            v@ == self.segments(),
    {
        let mut v: Vec<Line> = Vec::new();
        match *self {
            Contour::Zero => {},
            Contour::One(l) => {
                v.push(l);
            },
            Contour::Two(l, m) => {
                v.push(l);
                v.push(m);
            },
        }
        assert(v@ =~= self.segments());
        v
    }
}

/// Hands out the segments of a contour one at a time.
pub struct ContourIterator {
    pub rest: Contour,
}

impl ContourIterator {
    /// The first of the segments that are left, which leaves with the call;
    /// nothing once none is left.
    pub fn next(&mut self) -> (line: Option<Line>)
        ensures
            old(self).rest.segments().len() == 0 ==> line is None && final(self).rest
                == Contour::Zero,
            old(self).rest.segments().len() > 0 ==> line == Some(old(self).rest.segments()[0])
                && final(self).rest.segments() == old(self).rest.segments().drop_first(),
    {
        let (line, rest) = match self.rest {
            Contour::Zero => (None, Contour::Zero),
            Contour::One(l) => (Some(l), Contour::Zero),
            Contour::Two(l, m) => (Some(l), Contour::One(m)),
        };
        self.rest = rest;
        assert(self.rest.segments() =~= old(self).rest.segments().drop_first()
            || old(self).rest.segments().len() == 0);
        line
    }
}

/// Two opposite corners lie above the threshold and the other two do not.
pub open spec fn is_saddle(threshold: int, tl: int, tr: int, bl: int, br: int) -> bool {
    (tl > threshold) == (br > threshold) && (tr > threshold) == (bl > threshold) && (tl
        > threshold) != (tr > threshold)
}

/// Whatever the corners and the threshold, every segment of a cell's contour
/// lies in the unit square; and a threshold strictly between the smallest and
/// the largest corner gives at least one segment.
pub proof fn lemma_contour_in_unit(threshold: int, tl: int, tr: int, bl: int, br: int)
    ensures
        contour_in_unit(contour_spec(threshold, tl, tr, bl, br)),
        min4(tl, tr, bl, br) < threshold < max4(tl, tr, bl, br) ==> !(contour_spec(
            threshold,
            tl,
            tr,
            bl,
            br,
        ) is Zero),
{
    if straddles(threshold, tl, tr) {
        lemma_interpolate_in_unit(threshold, tl, tr);
    }
    if straddles(threshold, bl, br) {
        lemma_interpolate_in_unit(threshold, bl, br);
    }
    if straddles(threshold, tl, bl) {
        lemma_interpolate_in_unit(threshold, tl, bl);
    }
    if straddles(threshold, tr, br) {
        lemma_interpolate_in_unit(threshold, tr, br);
    }
}

/// A cell whose four corners hold one value has no contour, at any threshold.
pub proof fn lemma_uniform_cell(threshold: int, value: int)
    ensures
        contour_spec(threshold, value, value, value, value) == Contour::Zero,
{
}

/// Turning the sign of the threshold and of every corner leaves the contour as
/// it is, for a cell whose corners all agree, and for any cell that is no
/// saddle and has no corner equal to the threshold.
pub proof fn lemma_sign_duality(threshold: int, tl: int, tr: int, bl: int, br: int)
    requires
        (tl == tr && tr == bl && bl == br) || (tl != threshold && tr != threshold && bl != threshold
            && br != threshold && !is_saddle(threshold, tl, tr, bl, br)),
    ensures
        contour_spec(-threshold, -tl, -tr, -bl, -br) == contour_spec(threshold, tl, tr, bl, br),
{
    lemma_interpolate_opposites(threshold, tl, tr);
    lemma_interpolate_opposites(threshold, bl, br);
    lemma_interpolate_opposites(threshold, tl, bl);
    lemma_interpolate_opposites(threshold, tr, br);
}

/// The fraction at which a value lies between two others is the fraction at
/// which its opposite lies between their opposites.
pub proof fn lemma_interpolate_opposites(target: int, a: int, b: int)
    ensures
        a != b ==> interpolate_spec(-target, -a, -b) == interpolate_spec(target, a, b),
{
    if a != b {
        let one = ONE as int;
        assert((-target - (-a)) * one == -((target - a) * one)) by (nonlinear_arith);
        lemma_trunc_div_opposites((target - a) * one, b - a);
    }
}

/// A segment together with the cell that it lies in, named by the column and
/// row of the cell's top-left node.
#[derive(Clone, Copy, PartialEq, Eq, Debug)]
pub struct CellLine {
    pub x: usize,
    pub y: usize,
    pub line: Line,
}

/// The contour of the cell whose top-left node is `(x, y)`.
pub open spec fn cell_contour(grid: ScalarGrid, threshold: int, x: int, y: int) -> Contour {
    contour_spec(
        threshold,
        grid.at(x, y) as int,
        grid.at(x + 1, y) as int,
        grid.at(x, y + 1) as int,
        grid.at(x + 1, y + 1) as int,
    )
}

/// The segments of a contour, each with the cell `(x, y)` that it lies in.
pub open spec fn tagged(c: Contour, x: int, y: int) -> Seq<CellLine> {
    match c {
        Contour::Zero => Seq::empty(),
        Contour::One(l) => seq![CellLine { x: x as usize, y: y as usize, line: l }],
        Contour::Two(l, m) => seq![
            CellLine { x: x as usize, y: y as usize, line: l },
            CellLine { x: x as usize, y: y as usize, line: m },
        ],
    }
}

/// The segments of the first `n` cells of row `y`, from the left.
pub open spec fn row_cells(grid: ScalarGrid, threshold: int, y: int, n: nat) -> Seq<CellLine>
    decreases n,
{
    if n == 0 {
        Seq::empty()
    } else {
        row_cells(grid, threshold, y, (n - 1) as nat) + tagged(
            cell_contour(grid, threshold, n - 1, y),
            n - 1,
            y,
        )
    }
}

/// The segments of the first `m` rows of cells, from the top.
pub open spec fn grid_cells(grid: ScalarGrid, threshold: int, m: nat) -> Seq<CellLine>
    decreases m,
{
    if m == 0 {
        Seq::empty()
    } else {
        grid_cells(grid, threshold, (m - 1) as nat) + row_cells(
            grid,
            threshold,
            m - 1,
            (grid.width - 1) as nat,
        )
    }
}

/// The segment lies in the unit square, and its cell in the grid.
pub open spec fn cell_line_ok(grid: ScalarGrid, cl: CellLine) -> bool {
    cl.x + 1 < grid.width && cl.y + 1 < grid.height && line_in_unit(cl.line)
}

/// The isoline of `threshold` over a whole grid: the segments of every cell
/// with the cell they lie in, row by row from the top and in each row from
/// the left. A grid of `w` by `h` nodes has `(w - 1) * (h - 1)` cells.
pub fn extract(grid: &ScalarGrid, threshold: i64) -> (out: Vec<CellLine>)
    requires
        grid.wf(),
        grid.width >= 1,
        grid.height >= 1,
    ensures
        out@ == grid_cells(*grid, threshold as int, (grid.height - 1) as nat),
        forall|i: int| 0 <= i < out@.len() ==> cell_line_ok(*grid, #[trigger] out@[i]),
        one_sided(*grid, threshold as int) ==> out@.len() == 0,
{
    proof {
        if one_sided(*grid, threshold as int) {
            lemma_one_sided_grid(*grid, threshold as int, 0);
        }
    }
    let mut out: Vec<CellLine> = Vec::new();
    let mut y: usize = 0;
    while y < grid.height - 1
        invariant
            grid.wf(),
            grid.width >= 1,
            grid.height >= 1,
            y <= grid.height - 1,
            out@ == grid_cells(*grid, threshold as int, y as nat),
            forall|i: int| 0 <= i < out@.len() ==> cell_line_ok(*grid, #[trigger] out@[i]),
        decreases grid.height - y,
    {
        let ghost above = out@;
        let mut x: usize = 0;
        while x < grid.width - 1
            invariant
                grid.wf(),
                grid.width >= 1,
                y < grid.height - 1,
                x <= grid.width - 1,
                out@ == above + row_cells(*grid, threshold as int, y as int, x as nat),
                forall|i: int| 0 <= i < out@.len() ==> cell_line_ok(*grid, #[trigger] out@[i]),
            decreases grid.width - x,
        {
            let c: Contour = find_contour(
                threshold,
                grid.get(x, y),
                grid.get(x + 1, y),
                grid.get(x, y + 1),
                grid.get(x + 1, y + 1),
            );
            let ghost before = out@;
            match c {
                Contour::Zero => {},
                Contour::One(l) => {
                    out.push(CellLine { x, y, line: l });
                },
                Contour::Two(l, m) => {
                    out.push(CellLine { x, y, line: l });
                    out.push(CellLine { x, y, line: m });
                },
            }
            assert(out@ =~= before + tagged(c, x as int, y as int));
            assert(out@ =~= above + row_cells(*grid, threshold as int, y as int, (x + 1) as nat));
            x = x + 1;
        }
        y = y + 1;
    }
    out
}

/// A coordinate inside cell number `cell`, as a coordinate of the whole grid
/// in units of `scale`.
pub open spec fn place_coord(t: int, cell: int, scale: int) -> int {
    scale_spec(t + cell * ONE, scale)
}

/// A segment of cell `(x, y)`, moved to the cell's place in the grid and scaled.
pub open spec fn place_line(l: Line, x: int, y: int, scale: int) -> Line {
    Line {
        a: (place_coord(l.a.0 as int, x, scale) as i64, place_coord(l.a.1 as int, y, scale) as i64),
        b: (place_coord(l.b.0 as int, x, scale) as i64, place_coord(l.b.1 as int, y, scale) as i64),
    }
}

/// The segments of a whole grid, each moved to its cell's place and scaled.
pub open spec fn all_lines(grid: ScalarGrid, threshold: int, scale: int) -> Seq<Line> {
    grid_cells(grid, threshold, (grid.height - 1) as nat).map_values(
        |cl: CellLine| place_line(cl.line, cl.x as int, cl.y as int, scale),
    )
}

/// Moves a coordinate of a cell to the cell's place in the grid and scales it.
pub fn place(t: i64, cell: usize, scale_to: i64) -> (r: i64)
    requires
        0 <= t <= ONE,
        (cell + 1) * magnitude(scale_to as int) <= i64::MAX,
    ensures
        r == place_coord(t as int, cell as int, scale_to as int),
{
    let a: i128 = t as i128 + (cell as i128) * (ONE as i128);
    proof {
        let one = ONE as int;
        let m = magnitude(scale_to as int);
        let bound = (cell + 1) * m;
        assert(-bound * one <= a * scale_to <= bound * one) by (nonlinear_arith)
            requires
                0 <= a <= (cell + 1) * one,
                -m <= scale_to <= m,
                bound == (cell + 1) * m,
                one > 0,
                cell >= 0,
        ;
        lemma_floor_div_between(a as int * scale_to as int, one, -bound, bound);
    }
    scale(a, scale_to as i128) as i64
}

/// Moves a segment of cell `(x, y)` to the cell's place in the grid and scales it.
pub fn place_segment(l: Line, x: usize, y: usize, scale_to: i64) -> (r: Line)
    requires
        line_in_unit(l),
        (x + 1) * magnitude(scale_to as int) <= i64::MAX,
        (y + 1) * magnitude(scale_to as int) <= i64::MAX,
    ensures
        r == place_line(l, x as int, y as int, scale_to as int),
{
    Line {
        a: (place(l.a.0, x, scale_to), place(l.a.1, y, scale_to)),
        b: (place(l.b.0, x, scale_to), place(l.b.1, y, scale_to)),
    }
}

/// The isoline of `threshold` over a whole grid, in the grid's own coordinates
/// scaled by `scale_to`: the segments of every cell, row by row from the top
/// and in each row from the left, each moved to its cell's place.
pub fn find_all_lines(threshold: i64, scale_to: i64, grid: &ScalarGrid) -> (out: Vec<Line>)
    requires
        grid.wf(),
        grid.width >= 1,
        grid.height >= 1,
        grid.width * magnitude(scale_to as int) <= i64::MAX,
        grid.height * magnitude(scale_to as int) <= i64::MAX,
    ensures
        out@ == all_lines(*grid, threshold as int, scale_to as int),
        one_sided(*grid, threshold as int) ==> out@.len() == 0,
{
    let cells: Vec<CellLine> = extract(grid, threshold);
    let mut out: Vec<Line> = Vec::new();
    let mut i: usize = 0;
    while i < cells.len()
        invariant
            i <= cells@.len(),
            grid.width * magnitude(scale_to as int) <= i64::MAX,
            grid.height * magnitude(scale_to as int) <= i64::MAX,
            forall|k: int| 0 <= k < cells@.len() ==> cell_line_ok(*grid, #[trigger] cells@[k]),
            out@.len() == i,
            forall|k: int|
                0 <= k < i ==> #[trigger] out@[k] == place_line(
                    cells@[k].line,
                    cells@[k].x as int,
                    cells@[k].y as int,
                    scale_to as int,
                ),
        decreases cells@.len() - i,
    {
        let cl: CellLine = cells[i];
        proof {
            let m = magnitude(scale_to as int);
            assert(cell_line_ok(*grid, cells@[i as int]));
            assert((cl.x + 1) * m <= grid.width * m && (cl.y + 1) * m <= grid.height * m)
                by (nonlinear_arith)
                requires
                    0 <= cl.x + 1 <= grid.width,
                    0 <= cl.y + 1 <= grid.height,
                    m >= 0,
            ;
        }
        out.push(place_segment(cl.line, cl.x, cl.y, scale_to));
        i = i + 1;
    }
    assert(out@ =~= all_lines(*grid, threshold as int, scale_to as int));
    out
}

/// Every sample of the grid lies above the threshold, or none does.
pub open spec fn one_sided(grid: ScalarGrid, threshold: int) -> bool {
    (forall|k: int| 0 <= k < grid.data@.len() ==> #[trigger] grid.data@[k] > threshold) || (forall|
        k: int,
    | 0 <= k < grid.data@.len() ==> #[trigger] grid.data@[k] <= threshold)
}

/// In a grid that lies on one side of the threshold no cell has a contour.
pub proof fn lemma_one_sided_cell(grid: ScalarGrid, threshold: int, x: int, y: int)
    requires
        grid.wf(),
        one_sided(grid, threshold),
        0 <= x,
        x + 1 < grid.width,
        0 <= y,
        y + 1 < grid.height,
    ensures
        cell_contour(grid, threshold, x, y) == Contour::Zero,
{
    let w = grid.width as int;
    let h = grid.height as int;
    lemma_offset_in_range(w, h, x, y);
    lemma_offset_in_range(w, h, x + 1, y);
    lemma_offset_in_range(w, h, x, y + 1);
    lemma_offset_in_range(w, h, x + 1, y + 1);
}

/// In a grid that lies on one side of the threshold no row of cells has a segment.
pub proof fn lemma_one_sided_row(grid: ScalarGrid, threshold: int, y: int, n: nat)
    requires
        grid.wf(),
        one_sided(grid, threshold),
        0 <= y,
        y + 1 < grid.height,
        n + 1 <= grid.width,
    ensures
        row_cells(grid, threshold, y, n) == Seq::<CellLine>::empty(),
    decreases n,
{
    if n > 0 {
        lemma_one_sided_row(grid, threshold, y, (n - 1) as nat);
        lemma_one_sided_cell(grid, threshold, n - 1, y);
        assert(row_cells(grid, threshold, y, n) =~= Seq::<CellLine>::empty());
    }
}

/// In a grid that lies on one side of the threshold the first `m` rows of
/// cells have no segment.
pub proof fn lemma_one_sided_rows(grid: ScalarGrid, threshold: int, m: nat)
    requires
        grid.wf(),
        one_sided(grid, threshold),
        grid.width >= 1,
        m + 1 <= grid.height,
    ensures
        grid_cells(grid, threshold, m) == Seq::<CellLine>::empty(),
    decreases m,
{
    if m > 0 {
        lemma_one_sided_rows(grid, threshold, (m - 1) as nat);
        lemma_one_sided_row(grid, threshold, m - 1, (grid.width - 1) as nat);
        assert(grid_cells(grid, threshold, m) =~= Seq::<CellLine>::empty());
    }
}

/// A grid whose samples all lie above the threshold, or of which none does,
/// has no isoline: no segment at any scale. A grid of one value is such a
/// grid at every threshold.
pub proof fn lemma_one_sided_grid(grid: ScalarGrid, threshold: int, scale: int)
    requires
        grid.wf(),
        grid.width >= 1,
        grid.height >= 1,
        one_sided(grid, threshold),
    ensures
        grid_cells(grid, threshold, (grid.height - 1) as nat).len() == 0,
        all_lines(grid, threshold, scale).len() == 0,
{
    lemma_one_sided_rows(grid, threshold, (grid.height - 1) as nat);
}

} // verus!
