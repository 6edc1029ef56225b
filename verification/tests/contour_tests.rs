use isoline::contour::{
    cell_shape, extract, find_all_lines, find_contour, interpolate, place, CellLine, Contour,
    ContourIterator, Edge, Line, Shape,
};
use isoline::fixed::{HALF, ONE};
use isoline::sampling::ScalarGrid;

fn in_unit(l: &Line) -> bool {
    let ok = |v: i64| 0 <= v && v <= ONE;
    ok(l.a.0) && ok(l.a.1) && ok(l.b.0) && ok(l.b.1)
}

#[test]
fn test_interpolate() {
    let t = interpolate(0, -ONE, 2 * ONE);
    let as_float = t as f32 / ONE as f32;
    assert!(f32::abs(as_float - 1f32 / 3f32) < f32::EPSILON)
}

#[test]
fn interpolate_exact_values() {
    assert_eq!(interpolate(ONE, 0, 2 * ONE), HALF);
    assert_eq!(interpolate(ONE, 2 * ONE, 0), HALF);
    assert_eq!(interpolate(0, 0, ONE), 0);
    assert_eq!(interpolate(ONE, 0, ONE), ONE);
    assert_eq!(interpolate(0, -ONE, 2 * ONE), 1431655765);
    assert_eq!(interpolate(3 * ONE, 0, 4 * ONE), 3 * (ONE / 4));
}

#[test]
fn interpolate_rounds_toward_zero_outside_the_edge() {
    // one third below the start: the exact quotient is -1/3
    assert_eq!(interpolate(-ONE, 0, 3 * ONE), -1431655765);
}

#[test]
fn saddle_cell_gives_two_segments() {
    let c = find_contour(HALF, ONE, 0, 0, ONE);
    assert_eq!(
        c,
        Contour::Two(
            Line { a: (HALF, 0), b: (ONE, HALF) },
            Line { a: (0, HALF), b: (HALF, ONE) },
        )
    );
}

#[test]
fn opposite_saddle_cuts_off_the_other_corners() {
    let c = find_contour(HALF, 0, ONE, ONE, 0);
    assert_eq!(
        c,
        Contour::Two(
            Line { a: (0, HALF), b: (HALF, 0) },
            Line { a: (HALF, ONE), b: (ONE, HALF) },
        )
    );
}

#[test]
fn uniform_cell_has_no_contour() {
    for v in [-3 * ONE, 0, HALF, ONE, 7 * ONE] {
        for threshold in [-5 * ONE, 0, HALF, ONE, 7 * ONE, 9 * ONE] {
            assert_eq!(find_contour(threshold, v, v, v, v), Contour::Zero);
        }
    }
}

#[test]
fn corner_equal_to_threshold_is_not_inside() {
    assert_eq!(find_contour(ONE, ONE, 0, 0, 0), Contour::Zero);
    assert_eq!(find_contour(ONE, ONE, ONE, ONE, ONE), Contour::Zero);
    // the top-left corner sits on the threshold: the crossing is at that corner
    assert_eq!(
        find_contour(ONE, ONE, 2 * ONE, 2 * ONE, 2 * ONE),
        Contour::One(Line { a: (0, 0), b: (0, 0) })
    );
}

#[test]
fn single_corner_cells() {
    // bottom-right above
    assert_eq!(
        find_contour(ONE, 0, 0, 0, 4 * ONE),
        Contour::One(Line { a: (ONE / 4, ONE), b: (ONE, ONE / 4) })
    );
    // bottom-left above
    assert_eq!(
        find_contour(ONE, 0, 0, 4 * ONE, 0),
        Contour::One(Line { a: (3 * (ONE / 4), ONE), b: (0, ONE / 4) })
    );
    // top-right above
    assert_eq!(
        find_contour(ONE, 0, 4 * ONE, 0, 0),
        Contour::One(Line { a: (ONE, 3 * (ONE / 4)), b: (ONE / 4, 0) })
    );
    // top-left above
    assert_eq!(
        find_contour(ONE, 4 * ONE, 0, 0, 0),
        Contour::One(Line { a: (3 * (ONE / 4), 0), b: (0, 3 * (ONE / 4)) })
    );
}

#[test]
fn split_cells() {
    // bottom row above: the line runs from the left side to the right side
    assert_eq!(
        find_contour(ONE, 0, 0, 2 * ONE, 4 * ONE),
        Contour::One(Line { a: (0, HALF), b: (ONE, ONE / 4) })
    );
    // right column above: the line runs from the top to the bottom
    assert_eq!(
        find_contour(ONE, 0, 2 * ONE, 0, 4 * ONE),
        Contour::One(Line { a: (HALF, 0), b: (ONE / 4, ONE) })
    );
}

#[test]
fn segments_stay_in_the_unit_square() {
    let values = [-7 * ONE, -1, 0, 1, HALF, ONE, 3 * ONE + 5, i64::MAX, i64::MIN];
    for &tl in &values {
        for &tr in &values {
            for &bl in &values {
                for &br in &values {
                    for &threshold in &[-ONE, 0, 1, HALF, 2 * ONE] {
                        let c = find_contour(threshold, tl, tr, bl, br);
                        let lo = tl.min(tr).min(bl).min(br);
                        let hi = tl.max(tr).max(bl).max(br);
                        for l in c.lines() {
                            assert!(in_unit(&l));
                        }
                        if lo < threshold && threshold < hi {
                            assert_ne!(c, Contour::Zero);
                        }
                    }
                }
            }
        }
    }
}

#[test]
fn opposite_signs_give_the_same_contour() {
    let values = [-3 * ONE, -ONE - 7, 5, ONE + 1, 2 * ONE + 3, 9 * ONE];
    let threshold = HALF + 3;
    for &tl in &values {
        for &tr in &values {
            for &bl in &values {
                for &br in &values {
                    let i = |v: i64| v > threshold;
                    let saddle = i(tl) == i(br) && i(tr) == i(bl) && i(tl) != i(tr);
                    if !saddle {
                        assert_eq!(
                            find_contour(threshold, tl, tr, bl, br),
                            find_contour(-threshold, -tl, -tr, -bl, -br)
                        );
                    }
                }
            }
        }
    }
}

#[test]
fn table_of_patterns() {
    assert_eq!(cell_shape(0), Shape::Empty);
    assert_eq!(cell_shape(15), Shape::Empty);
    assert_eq!(cell_shape(1), Shape::Single(Edge::Bottom, Edge::Right));
    assert_eq!(cell_shape(14), Shape::Single(Edge::Bottom, Edge::Right));
    assert_eq!(cell_shape(2), Shape::Single(Edge::Bottom, Edge::Left));
    assert_eq!(cell_shape(13), Shape::Single(Edge::Bottom, Edge::Left));
    assert_eq!(cell_shape(3), Shape::Single(Edge::Left, Edge::Right));
    assert_eq!(cell_shape(12), Shape::Single(Edge::Left, Edge::Right));
    assert_eq!(cell_shape(5), Shape::Single(Edge::Top, Edge::Bottom));
    assert_eq!(cell_shape(10), Shape::Single(Edge::Top, Edge::Bottom));
    assert_eq!(cell_shape(4), Shape::Single(Edge::Right, Edge::Top));
    assert_eq!(cell_shape(11), Shape::Single(Edge::Right, Edge::Top));
    assert_eq!(cell_shape(8), Shape::Single(Edge::Top, Edge::Left));
    assert_eq!(cell_shape(7), Shape::Single(Edge::Top, Edge::Left));
    assert_eq!(
        cell_shape(9),
        Shape::Double(Edge::Top, Edge::Right, Edge::Left, Edge::Bottom)
    );
    assert_eq!(
        cell_shape(6),
        Shape::Double(Edge::Left, Edge::Top, Edge::Bottom, Edge::Right)
    );
}

#[test]
fn lines_lists_the_segments_in_order() {
    let l = Line { a: (0, HALF), b: (ONE, HALF) };
    let m = Line { a: (HALF, 0), b: (HALF, ONE) };
    assert_eq!(Contour::Zero.lines(), vec![]);
    assert_eq!(Contour::One(l).lines(), vec![l]);
    assert_eq!(Contour::Two(l, m).lines(), vec![l, m]);
}

#[test]
fn iterator_hands_out_each_segment_once() {
    let l = Line { a: (0, HALF), b: (ONE, HALF) };
    let m = Line { a: (HALF, 0), b: (HALF, ONE) };
    let mut it = ContourIterator { rest: Contour::Two(l, m) };
    assert_eq!(it.next(), Some(l));
    assert_eq!(it.next(), Some(m));
    assert_eq!(it.next(), None);
    assert_eq!(it.next(), None);
}

#[test]
fn all_lines_of_a_grid_are_placed_and_scaled() {
    let data = vec![0, 2 * ONE, 0, 0, 2 * ONE, 0];
    let grid = ScalarGrid::new(3, 2, data).unwrap();
    let lines = find_all_lines(ONE, 10 * ONE, &grid);
    assert_eq!(
        lines,
        vec![
            Line { a: (5 * ONE, 0), b: (5 * ONE, 10 * ONE) },
            Line { a: (15 * ONE, 0), b: (15 * ONE, 10 * ONE) },
        ]
    );
}

#[test]
fn all_lines_go_row_by_row() {
    // one column of cells, two rows; the lower cell is a saddle
    let data = vec![0, 0, 0, 2 * ONE, 2 * ONE, 0];
    let grid = ScalarGrid::new(2, 3, data).unwrap();
    let lines = find_all_lines(ONE, ONE, &grid);
    assert_eq!(
        lines,
        vec![
            Line { a: (HALF, ONE), b: (ONE, HALF) },
            Line { a: (0, ONE + HALF), b: (HALF, ONE) },
            Line { a: (HALF, 2 * ONE), b: (ONE, ONE + HALF) },
        ]
    );
}

#[test]
fn a_grid_of_one_node_has_no_cells() {
    let grid = ScalarGrid::new(1, 1, vec![5 * ONE]).unwrap();
    assert_eq!(find_all_lines(ONE, ONE, &grid), vec![]);
}

#[test]
fn extract_names_the_cell_of_each_segment() {
    let data = vec![0, 2 * ONE, 0, 0, 2 * ONE, 0];
    let grid = ScalarGrid::new(3, 2, data).unwrap();
    assert_eq!(
        extract(&grid, ONE),
        vec![
            CellLine { x: 0, y: 0, line: Line { a: (HALF, 0), b: (HALF, ONE) } },
            CellLine { x: 1, y: 0, line: Line { a: (HALF, 0), b: (HALF, ONE) } },
        ]
    );
    // one column of cells, two rows; the lower cell is a saddle
    let data = vec![0, 0, 0, 2 * ONE, 2 * ONE, 0];
    let grid = ScalarGrid::new(2, 3, data).unwrap();
    assert_eq!(
        extract(&grid, ONE),
        vec![
            CellLine { x: 0, y: 0, line: Line { a: (HALF, ONE), b: (ONE, HALF) } },
            CellLine { x: 0, y: 1, line: Line { a: (0, HALF), b: (HALF, 0) } },
            CellLine { x: 0, y: 1, line: Line { a: (HALF, ONE), b: (ONE, HALF) } },
        ]
    );
}

#[test]
fn extract_of_a_flat_grid_is_empty() {
    let grid = ScalarGrid::new(4, 3, vec![7 * ONE; 12]).unwrap();
    assert_eq!(extract(&grid, ONE), vec![]);
    assert_eq!(extract(&grid, 7 * ONE), vec![]);
    assert_eq!(extract(&grid, 9 * ONE), vec![]);
}

#[test]
fn placing_a_coordinate() {
    assert_eq!(place(HALF, 0, 10 * ONE), 5 * ONE);
    assert_eq!(place(HALF, 3, 10 * ONE), 35 * ONE);
    assert_eq!(place(ONE, 3, -2 * ONE), -8 * ONE);
    assert_eq!(place(1, 0, HALF), 0);
    assert_eq!(place(1, 0, -HALF), -1);
}

#[test]
fn a_grid_on_one_side_of_the_threshold_has_no_lines() {
    let data = vec![5 * ONE, 2 * ONE, 9 * ONE, ONE + 1, 3 * ONE, 7 * ONE];
    let grid = ScalarGrid::new(3, 2, data).unwrap();
    // every sample above
    assert_eq!(find_all_lines(ONE, 10 * ONE, &grid), vec![]);
    assert_eq!(extract(&grid, -ONE), vec![]);
    // no sample above; the largest equals the threshold
    assert_eq!(find_all_lines(9 * ONE, 10 * ONE, &grid), vec![]);
    assert_eq!(extract(&grid, 20 * ONE), vec![]);
    // in between there are lines
    assert_ne!(extract(&grid, 4 * ONE), vec![]);
}
