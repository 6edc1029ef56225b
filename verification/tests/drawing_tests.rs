use isoline::buffer::PixelBuffer;
use isoline::drawing::{blend_channel, caps, draw_line, gradient, line_fits, plot, span};
use isoline::fixed::{fpart, ipart, rfpart, round, scale, HALF, ONE};

const QUARTER: i64 = ONE / 4;

fn black(width: usize, height: usize) -> PixelBuffer {
    PixelBuffer::new(width, height, (0, 0, 0)).unwrap()
}

fn grey(v: u8) -> (u8, u8, u8) {
    (v, v, v)
}

#[test]
fn zero_length_line_sets_one_pixel() {
    let mut buf = PixelBuffer::new(10, 10, (255, 255, 255)).unwrap();
    let c = (10, 20, 30);
    draw_line(c, (5 * ONE, 5 * ONE), (5 * ONE, 5 * ONE), &mut buf);
    for y in 0..10 {
        for x in 0..10 {
            let want = if x == 5 && y == 5 { c } else { (255, 255, 255) };
            assert_eq!(buf.get(x, y), want);
        }
    }
}

#[test]
fn zero_length_line_takes_the_nearest_pixel() {
    let mut buf = black(4, 4);
    let p = (ONE + HALF, 2 * ONE + QUARTER);
    draw_line((9, 8, 7), p, p, &mut buf);
    for y in 0..4 {
        for x in 0..4 {
            let want = if x == 2 && y == 2 { (9, 8, 7) } else { (0, 0, 0) };
            assert_eq!(buf.get(x, y), want);
        }
    }
}

#[test]
fn horizontal_line_on_a_row() {
    let mut buf = black(8, 4);
    draw_line(grey(255), (0, 0), (5 * ONE, 0), &mut buf);
    for x in 0..8 {
        let top = buf.get(x, 0).0;
        let below = buf.get(x, 1).0;
        if x == 0 || x == 5 {
            // half of the end column belongs to the line
            assert_eq!((top, below), (127, 0));
        } else if x < 5 {
            // the two rows share the whole column
            assert_eq!(top as u32 + below as u32, 255);
            assert_eq!((top, below), (255, 0));
        } else {
            assert_eq!((top, below), (0, 0));
        }
        assert_eq!(buf.get(x, 2), (0, 0, 0));
        assert_eq!(buf.get(x, 3), (0, 0, 0));
    }
}

#[test]
fn horizontal_line_between_two_rows() {
    let mut buf = black(8, 4);
    draw_line(grey(200), (0, QUARTER), (5 * ONE, QUARTER), &mut buf);
    for x in 0..8 {
        let top = buf.get(x, 0);
        let below = buf.get(x, 1);
        if x == 0 || x == 5 {
            assert_eq!((top, below), (grey(75), grey(25)));
        } else if x < 5 {
            assert_eq!((top, below), (grey(150), grey(50)));
            assert_eq!(top.0 + below.0, 200);
        } else {
            assert_eq!((top, below), (grey(0), grey(0)));
        }
        assert_eq!(buf.get(x, 2), grey(0));
    }
}

#[test]
fn steep_line_walks_the_rows() {
    let mut buf = black(5, 6);
    let c = (100, 50, 250);
    draw_line(c, (2 * ONE, ONE), (2 * ONE, 4 * ONE), &mut buf);
    for y in 0..6 {
        for x in 0..5 {
            let want = if x == 2 && (y == 1 || y == 4) {
                (50, 25, 125)
            } else if x == 2 && (y == 2 || y == 3) {
                c
            } else {
                (0, 0, 0)
            };
            assert_eq!(buf.get(x, y), want);
        }
    }
}

#[test]
fn sloped_line_shares_columns_between_rows() {
    let mut buf = black(6, 5);
    draw_line(grey(200), (0, 0), (4 * ONE, 2 * ONE), &mut buf);
    let lit = [
        ((0, 0), 100),
        ((1, 0), 100),
        ((1, 1), 100),
        ((2, 1), 200),
        ((3, 1), 100),
        ((3, 2), 100),
        ((4, 2), 100),
    ];
    for y in 0..5 {
        for x in 0..6 {
            let mut want = 0;
            for &((lx, ly), v) in &lit {
                if lx == x && ly == y {
                    want = v;
                }
            }
            assert_eq!(buf.get(x, y), grey(want));
        }
    }
}

#[test]
fn drawing_from_either_end_gives_the_same_raster() {
    let ends = [
        ((3 * ONE / 10, 7 * ONE / 10), (4 * ONE + 6 * ONE / 10, 2 * ONE + ONE / 5)),
        ((ONE, 6 * ONE), (2 * ONE + 1, ONE + HALF)),
        ((5 * ONE, 5 * ONE), (ONE, ONE)),
        ((0, 0), (7 * ONE, 0)),
        ((3 * ONE, 3 * ONE), (3 * ONE, 3 * ONE)),
    ];
    for &(start, end) in &ends {
        let mut forth = PixelBuffer::new(10, 10, (200, 100, 0)).unwrap();
        let mut back = PixelBuffer::new(10, 10, (200, 100, 0)).unwrap();
        draw_line((0, 50, 255), start, end, &mut forth);
        draw_line((0, 50, 255), end, start, &mut back);
        assert_eq!(forth.data, back.data);
        assert_ne!(forth.data, PixelBuffer::new(10, 10, (200, 100, 0)).unwrap().data);
    }
}

#[test]
fn every_pixel_ends_between_prior_and_color() {
    let prior = (200u8, 100u8, 0u8);
    let color = (0u8, 100u8, 255u8);
    let mut buf = PixelBuffer::new(10, 10, prior).unwrap();
    draw_line(color, (ONE / 3, ONE), (8 * ONE, 6 * ONE + HALF), &mut buf);
    draw_line(color, (ONE, 7 * ONE), (6 * ONE, ONE), &mut buf);
    let mut touched = 0;
    for p in &buf.data {
        assert!(color.0 <= p.0 && p.0 <= prior.0);
        assert_eq!(p.1, 100);
        assert!(prior.2 <= p.2 && p.2 <= color.2);
        if *p != prior {
            touched += 1;
        }
    }
    assert!(touched > 10);
}

#[test]
fn later_lines_blend_with_what_is_there() {
    let mut buf = black(8, 4);
    draw_line(grey(200), (0, QUARTER), (5 * ONE, QUARTER), &mut buf);
    draw_line(grey(200), (0, QUARTER), (5 * ONE, QUARTER), &mut buf);
    // 150 + (200 - 150) * 3/4, rounded down; 50 + (200 - 50) * 1/4, rounded down
    assert_eq!(buf.get(2, 0), grey(187));
    assert_eq!(buf.get(2, 1), grey(87));
}

#[test]
fn blend_channel_values() {
    assert_eq!(blend_channel(0, 255, HALF as i128), 127);
    assert_eq!(blend_channel(255, 0, HALF as i128), 127);
    assert_eq!(blend_channel(10, 20, 0), 10);
    assert_eq!(blend_channel(10, 20, ONE as i128), 20);
    assert_eq!(blend_channel(20, 10, ONE as i128), 10);
    assert_eq!(blend_channel(100, 200, QUARTER as i128), 125);
    assert_eq!(blend_channel(200, 100, QUARTER as i128), 175);
}

#[test]
fn plot_blends_one_pixel() {
    let mut buf = PixelBuffer::new(3, 2, (100, 100, 100)).unwrap();
    plot(&mut buf, (200, 0, 100), 1, 1, HALF as i128);
    assert_eq!(buf.get(1, 1), (150, 50, 100));
    assert_eq!(buf.get(1, 0), (100, 100, 100));
    assert_eq!(buf.get(0, 1), (100, 100, 100));
    assert_eq!(buf.get(2, 1), (100, 100, 100));
}

#[test]
fn span_runs_along_the_longer_axis() {
    let s = span((ONE, 5 * ONE), (2 * ONE, ONE));
    assert!(s.steep);
    assert_eq!((s.x0, s.y0, s.x1, s.y1), (ONE, 2 * ONE, 5 * ONE, ONE));
    let s = span((4 * ONE, ONE), (ONE, 2 * ONE));
    assert!(!s.steep);
    assert_eq!((s.x0, s.y0, s.x1, s.y1), (ONE, 2 * ONE, 4 * ONE, ONE));
    // a diagonal is not steep
    let s = span((0, 0), (ONE, ONE));
    assert!(!s.steep);
}

#[test]
fn gradient_values() {
    assert_eq!(gradient(4 * ONE as i128, 2 * ONE as i128), HALF as i128);
    assert_eq!(gradient(4 * ONE as i128, -(ONE as i128)), -(QUARTER as i128));
    assert_eq!(gradient(0, 0), ONE as i128);
    assert_eq!(gradient(3, 1), 1431655765);
    assert_eq!(gradient(3, -1), -1431655766);
}

#[test]
fn parts_of_a_number() {
    let v = (3 * ONE + QUARTER) as i128;
    assert_eq!(ipart(v), 3);
    assert_eq!(fpart(v), QUARTER as i128);
    assert_eq!(rfpart(v), 3 * QUARTER as i128);
    let n = -(QUARTER as i128);
    assert_eq!(ipart(n), -1);
    assert_eq!(fpart(n), 3 * QUARTER as i128);
    assert_eq!(rfpart(n), QUARTER as i128);
    assert_eq!(fpart(5 * ONE as i128), 0);
    assert_eq!(rfpart(5 * ONE as i128), ONE as i128);
    for v in [-7i128, 0, 1, HALF as i128, 12345678901234] {
        assert_eq!(fpart(v) + rfpart(v), ONE as i128);
    }
}

#[test]
fn rounding_to_whole_numbers() {
    assert_eq!(round(2 * ONE + HALF), 3);
    assert_eq!(round(2 * ONE + HALF - 1), 2);
    assert_eq!(round(-HALF), 0);
    assert_eq!(round(-HALF - 1), -1);
    assert_eq!(round(i64::MAX), 2147483648);
}

#[test]
fn scaling_rounds_down() {
    assert_eq!(scale(HALF as i128, HALF as i128), QUARTER as i128);
    assert_eq!(scale(3 * ONE as i128, -(HALF as i128)), -(3 * HALF as i128));
    assert_eq!(scale(1, 1), 0);
    assert_eq!(scale(-1, 1), -1);
}

#[test]
fn lines_that_fit_and_lines_that_do_not() {
    let buf = black(6, 5);
    assert!(line_fits(&buf, (0, 0), (4 * ONE, 2 * ONE)));
    assert!(line_fits(&buf, (4 * ONE, 2 * ONE), (0, 0)));
    assert!(line_fits(&buf, (5 * ONE, 4 * ONE), (5 * ONE, 4 * ONE)));
    // the row below the crossing in the last row is outside
    assert!(!line_fits(&buf, (0, 4 * ONE), (3 * ONE, 4 * ONE)));
    assert!(line_fits(&buf, (0, 3 * ONE), (3 * ONE, 3 * ONE)));
    // left of the first column
    assert!(!line_fits(&buf, (-ONE, 0), (3 * ONE, 0)));
    assert!(line_fits(&buf, (-HALF, 0), (3 * ONE, 0)));
    // a steep line needs a column to the right of its crossings
    assert!(!line_fits(&buf, (5 * ONE, 0), (5 * ONE, 3 * ONE)));
    assert!(line_fits(&buf, (4 * ONE, 0), (4 * ONE, 3 * ONE)));
    // a point out of the raster
    assert!(!line_fits(&buf, (6 * ONE, 0), (6 * ONE, 0)));
    // the far end dips above the first row
    assert!(!line_fits(&buf, (0, 0), (4 * ONE + HALF - 1, -1)));
}

#[test]
fn caps_of_a_sloped_line() {
    let c = caps((4 * ONE + QUARTER, 2 * ONE), (QUARTER, 0));
    assert!(!c.steep);
    assert_eq!(c.g, HALF as i128);
    assert_eq!((c.col0, c.col1), (0, 4));
    // the line crosses column 0 a quarter before its end, an eighth higher
    assert_eq!(c.v0, -(ONE as i128) / 8);
    assert_eq!(c.v1, (2 * ONE - ONE / 8) as i128);
    assert_eq!(c.gap0, QUARTER as i128);
    assert_eq!(c.gap1, 3 * QUARTER as i128);
}

#[test]
fn interior_columns_share_the_whole_change() {
    let prior = (10u8, 250u8, 77u8);
    let color = (200u8, 100u8, 77u8);
    let mut buf = PixelBuffer::new(12, 9, prior).unwrap();
    let from = (ONE + ONE / 3, 2 * ONE + ONE / 7);
    let to = (9 * ONE + ONE / 5, 5 * ONE + ONE / 2);
    assert!(line_fits(&buf, from, to));
    draw_line(color, from, to, &mut buf);
    // the caps stand in columns 1 and 9
    for x in 2..9 {
        let mut changed = Vec::new();
        for y in 0..9 {
            if buf.get(x, y) != prior {
                changed.push(y);
            }
        }
        assert!(changed.len() == 1 || changed.len() == 2);
        let low = changed[0];
        if changed.len() == 2 {
            assert_eq!(changed[1], low + 1);
        }
        let a = buf.get(x, low);
        let b = buf.get(x, low + 1);
        let moved = |p: u8, c: u8, a: u8, b: u8| {
            let sum = (a as i32 - p as i32) + (b as i32 - p as i32);
            let whole = c as i32 - p as i32;
            whole - 1 <= sum && sum <= whole
        };
        assert!(moved(prior.0, color.0, a.0, b.0));
        assert!(moved(prior.1, color.1, a.1, b.1));
        assert!(moved(prior.2, color.2, a.2, b.2));
    }
}
