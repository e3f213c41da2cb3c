use line_drawing::Bresenham;
use triangle::Line;
use triangle::Triangle;

#[test]
fn rasterize_diagonal_exact() {
    let points = Line::new((0, 0), (5, 5)).points();
    assert_eq!(points, vec![(0, 0), (1, 1), (2, 2), (3, 3), (4, 4), (5, 5)]);
}

#[test]
fn rasterize_matches_bresenham_crate() {
    for x0 in -5..=5_i32 {
        for y0 in -5..=5_i32 {
            for x1 in -5..=5_i32 {
                for y1 in -5..=5_i32 {
                    let ours = Line::new((x0, y0), (x1, y1)).points();
                    let theirs: Vec<(i32, i32)> =
                        Bresenham::new((x0, y0), (x1, y1)).collect();
                    assert_eq!(ours, theirs, "endpoints ({x0},{y0}) ({x1},{y1})");
                }
            }
        }
    }
}

#[test]
fn rasterize_contains_endpoints_and_is_connected() {
    let cases = [
        ((0, 0), (5, 5)),
        ((0, 0), (7, 2)),
        ((3, -4), (-9, 11)),
        ((2, 2), (2, 2)),
        ((10, 0), (0, 1)),
        ((-6, -6), (6, 0)),
        ((0, 9), (0, -9)),
    ];
    for (a, b) in cases {
        let points = Line::new(a, b).points();
        assert_eq!(points.first(), Some(&a));
        assert_eq!(points.last(), Some(&b));
        for w in points.windows(2) {
            assert!((w[1].0 - w[0].0).abs() <= 1);
            assert!((w[1].1 - w[0].1).abs() <= 1);
        }
    }
}

#[test]
fn midpoint_is_on_the_rasterized_line() {
    let cases = [
        ((0, 0), (5, 5)),
        ((0, 0), (10, 3)),
        ((-7, 2), (8, -5)),
        ((1, 1), (1, 1)),
        ((0, 0), (0, 8)),
    ];
    for (a, b) in cases {
        let line = Line::new(a, b);
        let points = line.points();
        let mid = line.mid();
        assert!(points.contains(&mid));
        assert_eq!(mid, points[points.len() / 2]);
    }
}

#[test]
fn midpoint_of_horizontal_line() {
    assert_eq!(Line::new((0, 0), (10, 0)).mid(), (5, 0));
    assert_eq!(Line::new((0, 0), (9, 0)).mid(), (5, 0));
}

#[test]
fn triangle_lines_are_the_three_edges() {
    let t = Triangle::new((0, 0), (4, 0), (2, 4));
    let lines = t.lines();
    assert_eq!(lines.len(), 3);
    assert_eq!((lines[0].start, lines[0].end), ((0, 0), (4, 0)));
    assert_eq!((lines[1].start, lines[1].end), ((0, 0), (2, 4)));
    assert_eq!((lines[2].start, lines[2].end), ((4, 0), (2, 4)));
}
