//! Sampling a scalar field on an evenly spaced grid.

use vstd::prelude::*;
use crate::buffer::{lemma_offset_in_range, offset};
use crate::fixed::{lemma_floor_div_between, magnitude, trunc_div};

verus! {

/// A grid of `width * height` samples, stored row by row from the top.
#[derive(Debug, PartialEq, Eq)]
pub struct ScalarGrid {
    pub width: usize,
    pub height: usize,
    pub data: Vec<i64>,
}

impl ScalarGrid {
    /// The storage holds exactly one sample per node.
    pub open spec fn wf(&self) -> bool {
        self.data@.len() == self.width * self.height && self.width * self.height <= usize::MAX
    }

    /// The sample in column `x` of row `y`.
    pub open spec fn at(&self, x: int, y: int) -> i64 {
        self.data@[offset(self.width as int, x, y)]
    }

    /// A grid over samples given row by row; `None` unless there is exactly
    /// one sample per node.
    pub fn new(width: usize, height: usize, data: Vec<i64>) -> (r: Option<ScalarGrid>)
        ensures
            r is Some <==> data@.len() == width * height,
            r matches Some(g) ==> g.wf() && g.width == width && g.height == height && g.data@
                == data@,
    {
        let len: usize = data.len();
        match width.checked_mul(height) {
            None => None,
            Some(n) => {
                if len == n {
                    Some(ScalarGrid { width, height, data })
                } else {
                    None
                }
            },
        }
    }

    /// Reads the sample in column `x` of row `y`.
    pub fn get(&self, x: usize, y: usize) -> (v: i64)
        requires
            self.wf(),
            x < self.width,
            y < self.height,
        ensures
            v == self.at(x as int, y as int),
    {
        proof {
            lemma_offset_in_range(self.width as int, self.height as int, x as int, y as int);
        }
        self.data[y * self.width + x]
    }
}

/// Point number `i` of `count` points spaced evenly from `a` to `b`, both
/// included: `a` and then `i` of `count - 1` equal parts of the way to `b`, the
/// way made so far rounded toward zero. A single point is `a`.
pub open spec fn linspace_at(a: int, b: int, count: int, i: int) -> int {
    if count >= 2 {
        a + trunc_div(i * (b - a), count - 1)
    } else {
        a
    }
}

/// A whole multiple of the divisor divides without remainder.
pub proof fn lemma_trunc_div_exact(k: int, n: int)
    requires
        n > 0,
    ensures
        trunc_div(k * n, n) == k,
{
    if k * n >= 0 {
        lemma_floor_div_between(k * n, n, k, k);
    } else {
        assert(-(k * n) == (-k) * n) by (nonlinear_arith);
        lemma_floor_div_between(-(k * n), n, -k, -k);
    }
}

/// A part of a way is no longer than the way and points the same way.
pub proof fn lemma_part_of_way(i: int, d: int, n: int)
    requires
        0 <= i <= n,
        0 < n,
    ensures
        d >= 0 ==> 0 <= trunc_div(i * d, n) <= d,
        d <= 0 ==> d <= trunc_div(i * d, n) <= 0,
{
    if d >= 0 {
        assert(0 * n <= i * d <= d * n) by (nonlinear_arith)
            requires
                0 <= i <= n,
                d >= 0,
        ;
        lemma_floor_div_between(i * d, n, 0, d);
    } else {
        assert(0 * n <= -(i * d) <= (-d) * n) by (nonlinear_arith)
            requires
                0 <= i <= n,
                d < 0,
        ;
        lemma_floor_div_between(-(i * d), n, 0, -d);
        lemma_floor_div_between(0, n, 0, 0);
    }
}

/// A spacing of two or more points starts at the one bound and ends at the
/// other.
pub proof fn lemma_linspace_ends(a: int, b: int, count: int)
    requires
        count >= 2,
    ensures
        linspace_at(a, b, count, 0) == a,
        linspace_at(a, b, count, count - 1) == b,
{
    let n = count - 1;
    assert(0 * (b - a) == 0 * n) by (nonlinear_arith);
    lemma_trunc_div_exact(0, n);
    assert(n * (b - a) == (b - a) * n) by (nonlinear_arith);
    lemma_trunc_div_exact(b - a, n);
}

/// No point of a spacing lies outside the two bounds.
pub proof fn lemma_linspace_between(a: int, b: int, count: int, i: int)
    requires
        0 <= i < count,
    ensures
        a <= b ==> a <= linspace_at(a, b, count, i) <= b,
        b <= a ==> b <= linspace_at(a, b, count, i) <= a,
{
    if count >= 2 {
        lemma_part_of_way(i, b - a, count - 1);
    }
}

/// From a lower to an upper bound the points of a spacing never fall.
pub proof fn lemma_linspace_ordered(a: int, b: int, count: int, i: int, j: int)
    requires
        a <= b,
        0 <= i <= j < count,
    ensures
        linspace_at(a, b, count, i) <= linspace_at(a, b, count, j),
{
    if count >= 2 {
        let d = b - a;
        assert(0 <= i * d <= j * d) by (nonlinear_arith)
            requires
                0 <= i <= j,
                d >= 0,
        ;
        vstd::arithmetic::div_mod::lemma_div_is_ordered(i * d, j * d, count - 1);
    }
}

/// Where the way between the bounds divides into `count - 1` whole steps, each
/// point lies exactly one step after the one before.
pub proof fn lemma_linspace_even(a: int, b: int, count: int, i: int)
    requires
        count >= 2,
        (b - a) % (count - 1) == 0,
    ensures
        linspace_at(a, b, count, i) == a + i * ((b - a) / (count - 1)),
{
    let n = count - 1;
    let d = b - a;
    let step = d / n;
    assert(d == n * step) by (nonlinear_arith)
        requires
            n > 0,
            step == d / n,
            d % n == 0,
    ;
    assert(i * d == (i * step) * n) by (nonlinear_arith)
        requires
            d == n * step,
    ;
    lemma_trunc_div_exact(i * step, n);
}

/// `count` points spaced evenly from `a` to `b`, both bounds included.
///
/// The values may be plain integers or fixed-point numbers of any one scale.
pub fn linspace(a: i64, b: i64, count: usize) -> (v: Vec<i64>)
    ensures
        v@.len() == count,
        forall|i: int|
            0 <= i < count ==> #[trigger] v@[i] == linspace_at(a as int, b as int, count as int, i),
{
    let d: i128 = b as i128 - a as i128;
    let way: u128 = if d < 0 {
        (-d) as u128
    } else {
        d as u128
    };
    let mut v: Vec<i64> = Vec::new();
    let mut i: usize = 0;
    while i < count
        invariant
            i <= count,
            d == b - a,
            way == magnitude(d as int),
            v@.len() == i,
            forall|k: int|
                0 <= k < i ==> #[trigger] v@[k] == linspace_at(a as int, b as int, count as int, k),
        decreases count - i,
    {
        if count < 2 {
            v.push(a);
        } else {
            let n: u128 = (count - 1) as u128;
            proof {
                lemma_part_of_way(i as int, d as int, n as int);
                assert(0 <= i * way <= 0xffff_ffff_ffff_ffff * 0xffff_ffff_ffff_ffff)
                    by (nonlinear_arith)
                    requires
                        0 <= i <= 0xffff_ffff_ffff_ffff,
                        0 <= way <= 0xffff_ffff_ffff_ffff,
                ;
                assert(d >= 0 ==> i * way == i * d) by (nonlinear_arith)
                    requires
                        d >= 0 ==> way == d,
                ;
                assert(d < 0 ==> i * way == -(i * d)) by (nonlinear_arith)
                    requires
                        d < 0 ==> way == -d,
                ;
                lemma_floor_div_between(0, n as int, 0, 0);
            }
            let part: u128 = (i as u128) * way / n;
            let p: i128 = if d < 0 {
                a as i128 - part as i128
            } else {
                a as i128 + part as i128
            };
            v.push(p as i64);
        }
        i = i + 1;
    }
    v
}

/// Evaluates `f` at every node of a `width` by `height` grid whose columns are
/// spaced over `xs` and whose rows are spaced over `ys`.
pub fn sample_points<F: Fn(i64, i64) -> i64>(
    f: F,
    xs: (i64, i64),
    ys: (i64, i64),
    width: usize,
    height: usize,
) -> (g: ScalarGrid)
    requires
        width * height <= usize::MAX,
        forall|i: int, j: int|
            0 <= i < width && 0 <= j < height ==> f.requires(
                (
                    #[trigger] linspace_at(xs.0 as int, xs.1 as int, width as int, i) as i64,
                    #[trigger] linspace_at(ys.0 as int, ys.1 as int, height as int, j) as i64,
                ),
            ),
    ensures
        g.wf(),
        g.width == width,
        g.height == height,
        forall|i: int, j: int|
            0 <= i < width && 0 <= j < height ==> f.ensures(
                (
                    linspace_at(xs.0 as int, xs.1 as int, width as int, i) as i64,
                    linspace_at(ys.0 as int, ys.1 as int, height as int, j) as i64,
                ),
                #[trigger] g.at(i, j),
            ),
{
    let cols: Vec<i64> = linspace(xs.0, xs.1, width);
    let rows: Vec<i64> = linspace(ys.0, ys.1, height);
    proof {
        assert forall|c: int, k: int| 0 <= c < width && 0 <= k < height implies f.requires(
            (#[trigger] cols@[c], #[trigger] rows@[k]),
        ) by {
            assert(cols@[c] == linspace_at(xs.0 as int, xs.1 as int, width as int, c) as i64);
            assert(rows@[k] == linspace_at(ys.0 as int, ys.1 as int, height as int, k) as i64);
        }
    }
    let mut data: Vec<i64> = Vec::new();
    let mut j: usize = 0;
    while j < height
        invariant
            j <= height,
            width * height <= usize::MAX,
            cols@.len() == width,
            rows@.len() == height,
            data@.len() == j * width,
            forall|c: int, k: int|
                0 <= c < width && 0 <= k < height ==> f.requires(
                    (#[trigger] cols@[c], #[trigger] rows@[k]),
                ),
            forall|i: int, k: int|
                0 <= i < width && 0 <= k < j ==> f.ensures(
                    (cols@[i], rows@[k]),
                    #[trigger] data@[offset(width as int, i, k)],
                ),
        decreases height - j,
    {
        let mut i: usize = 0;
        while i < width
            invariant
                i <= width,
                j < height,
                width * height <= usize::MAX,
                cols@.len() == width,
                rows@.len() == height,
                data@.len() == j * width + i,
                forall|c: int, k: int|
                0 <= c < width && 0 <= k < height ==> f.requires(
                    (#[trigger] cols@[c], #[trigger] rows@[k]),
                ),
                forall|c: int, k: int|
                    0 <= c < width && 0 <= k < j ==> f.ensures(
                        (cols@[c], rows@[k]),
                        #[trigger] data@[offset(width as int, c, k)],
                    ),
                forall|c: int|
                    0 <= c < i ==> f.ensures(
                        (cols@[c], rows@[j as int]),
                        #[trigger] data@[offset(width as int, c, j as int)],
                    ),
            decreases width - i,
        {
            let ghost before = data@;
            let s: i64 = f(cols[i], rows[j]);
            data.push(s);
            proof {
                assert forall|c: int, k: int| 0 <= c < width && 0 <= k < j implies f.ensures(
                    (cols@[c], rows@[k]),
                    #[trigger] data@[offset(width as int, c, k)],
                ) by {
                    lemma_offset_in_range(width as int, j as int, c, k);
                    assert(width * j == j * width) by (nonlinear_arith);
                    assert(data@[offset(width as int, c, k)] == before[offset(width as int, c, k)]);
                }
                assert forall|c: int| 0 <= c < i + 1 implies f.ensures(
                    (cols@[c], rows@[j as int]),
                    #[trigger] data@[offset(width as int, c, j as int)],
                ) by {
                    if c < i {
                        assert(data@[offset(width as int, c, j as int)] == before[offset(
                            width as int,
                            c,
                            j as int,
                        )]);
                    }
                }
            }
            i = i + 1;
        }
        proof {
            assert(j * width + width == (j + 1) * width) by (nonlinear_arith);
        }
        j = j + 1;
    }
    proof {
        assert(height * width == width * height) by (nonlinear_arith);
    }
    ScalarGrid { width, height, data }
}

} // verus!
