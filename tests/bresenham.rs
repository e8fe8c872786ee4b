use torchbearer::bresenham::LineBresenham;
use torchbearer::Point;

#[test]
fn test_wp_example() {
    let bi = LineBresenham::new((0, 1), (6, 4));
    let len = bi.len();
    let res: Vec<Point> = bi.collect();

    assert_eq!(
        res,
        [(0, 1), (1, 1), (2, 2), (3, 2), (4, 3), (5, 3), (6, 4)]
    );
    assert_eq!(len, 7);
}

#[test]
fn test_inverse_wp() {
    let bi = LineBresenham::new((6, 4), (0, 1));
    let len = bi.len();
    let res: Vec<Point> = bi.collect();

    assert_eq!(
        res,
        [(6, 4), (5, 4), (4, 3), (3, 3), (2, 2), (1, 2), (0, 1)]
    );
    assert_eq!(len, 7);
}

#[test]
fn test_straight_hline() {
    let bi = LineBresenham::new((2, 3), (5, 3));
    let len = bi.len();
    let res: Vec<Point> = bi.collect();

    assert_eq!(res, [(2, 3), (3, 3), (4, 3), (5, 3)]);
    assert_eq!(len, 4);
}

#[test]
fn test_straight_vline() {
    let bi = LineBresenham::new((2, 3), (2, 6));
    let len = bi.len();
    let res: Vec<Point> = bi.collect();

    assert_eq!(res, [(2, 3), (2, 4), (2, 5), (2, 6)]);
    assert_eq!(len, 4);
}

#[test]
fn line_single_point() {
    let bi = LineBresenham::new((3, -2), (3, -2));
    assert_eq!(bi.len(), 1);
    assert_eq!(bi.collect(), [(3, -2)]);
}

#[test]
fn line_every_octant_has_ends_and_length() {
    let start = (0, 0);
    let ends = [
        (5, 2), (2, 5), (-2, 5), (-5, 2), (-5, -2), (-2, -5), (2, -5), (5, -2),
    ];
    for end in ends.iter() {
        let points = LineBresenham::new(start, *end).collect();
        assert_eq!(points.len(), 6);
        assert_eq!(points[0], start);
        assert_eq!(points[points.len() - 1], *end);
    }
}

#[test]
fn line_steep_negative_values() {
    let points = LineBresenham::new((0, 0), (-2, -5)).collect();
    assert_eq!(points, [(0, 0), (0, -1), (0, -2), (-1, -3), (-1, -4), (-2, -5)]);
}

#[test]
fn line_next_hands_out_points_then_none() {
    let mut line = LineBresenham::new((0, 0), (2, 0));
    assert_eq!(line.next(), Some((0, 0)));
    assert_eq!(line.len(), 2);
    assert_eq!(line.next(), Some((1, 0)));
    assert_eq!(line.next(), Some((2, 0)));
    assert_eq!(line.next(), None);
    assert_eq!(line.len(), 0);
}

#[test]
fn line_extreme_coordinates() {
    let points = LineBresenham::new((i32::MIN, 0), (i32::MAX, 0)).len();
    assert_eq!(points, (u32::MAX as usize) + 1);
}
