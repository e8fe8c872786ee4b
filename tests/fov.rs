use std::collections::HashSet;
use std::collections::VecDeque;

use torchbearer::fov::{field_of_view, VisionMap};
use torchbearer::utils::field_of_view_no_walls;
use torchbearer::vision::FovMap;
use torchbearer::Point;

fn walled(width: i32, height: i32, walls: &[Point]) -> FovMap {
    let mut map = FovMap::new(width, height);
    for &(x, y) in walls {
        map.set_transparent(x, y, false);
    }
    map
}

fn as_set(points: &[Point]) -> HashSet<Point> {
    points.iter().cloned().collect()
}

fn no_duplicates(points: &[Point]) -> bool {
    as_set(points).len() == points.len()
}

#[test]
fn radius_below_one_is_origin_only() {
    let map = walled(5, 5, &[(2, 2)]);
    assert_eq!(field_of_view(&map, 1, 1, 0, true), vec![(1, 1)]);
    assert_eq!(field_of_view(&map, 1, 1, -3, false), vec![(1, 1)]);
    assert_eq!(field_of_view(&map, 2, 2, 0, false), vec![(2, 2)]);
}

#[test]
fn degenerate_window_is_empty() {
    let map = FovMap::new(1, 5);
    assert_eq!(field_of_view(&map, 0, 2, 2, true), Vec::<Point>::new());
}

#[test]
fn radius_one_on_open_ground() {
    let map = FovMap::new(3, 3);
    let seen = field_of_view(&map, 1, 1, 1, true);
    assert!(no_duplicates(&seen));
    assert_eq!(
        as_set(&seen),
        as_set(&[(1, 1), (0, 1), (2, 1), (1, 0), (1, 2)])
    );
}

#[test]
fn wall_blocks_the_diagonal() {
    let map = walled(3, 3, &[(1, 1)]);
    let seen = field_of_view(&map, 0, 0, 5, true);
    assert_eq!(
        as_set(&seen),
        as_set(&[(0, 0), (1, 0), (2, 0), (0, 1), (1, 1), (2, 1), (0, 2), (1, 2)])
    );
    let floor = field_of_view(&map, 0, 0, 5, false);
    assert_eq!(
        as_set(&floor),
        as_set(&[(0, 0), (1, 0), (2, 0), (0, 1), (2, 1), (0, 2), (1, 2)])
    );
}

#[test]
fn hidden_corner_wall_is_revealed() {
    let map = walled(3, 3, &[(1, 1), (2, 2)]);
    let seen = field_of_view(&map, 0, 0, 5, true);
    assert_eq!(seen.len(), 9);
    assert!(seen.contains(&(2, 2)));
}

#[test]
fn without_walls_no_opaque_cell() {
    let walls = [(4, 2), (5, 5), (1, 6), (7, 1), (3, 3)];
    let map = walled(9, 9, &walls);
    let seen = field_of_view(&map, 4, 4, 6, false);
    assert!(!seen.is_empty());
    for &(x, y) in seen.iter() {
        assert!(!map.is_opaque(x, y));
    }
}

#[test]
fn with_walls_within_radius_or_wall() {
    let walls = [(4, 2), (5, 5), (1, 6), (7, 1), (3, 3)];
    let map = walled(9, 9, &walls);
    let radius = 3;
    let seen = field_of_view(&map, 4, 4, radius, true);
    assert!(no_duplicates(&seen));
    assert!(seen.contains(&(4, 4)));
    for &(x, y) in seen.iter() {
        let d = (x - 4) * (x - 4) + (y - 4) * (y - 4);
        assert!(d <= radius * radius || map.is_opaque(x, y));
    }
}

#[test]
fn no_walls_helper_keeps_transparent_cells() {
    let map = walled(3, 3, &[(1, 1)]);
    let floor = field_of_view_no_walls(&map, (0, 0), 5);
    assert_eq!(
        as_set(&floor),
        as_set(&[(0, 0), (1, 0), (2, 0), (0, 1), (2, 1), (0, 2), (1, 2)])
    );
}

#[test]
fn large_open_map_is_one_region() {
    let map = FovMap::new(45, 45);
    let seen = field_of_view(&map, 22, 22, 24, true);
    assert!(no_duplicates(&seen));
    assert!(seen.contains(&(22, 22)));
    let cells = as_set(&seen);
    let mut reached: HashSet<Point> = HashSet::new();
    let mut queue: VecDeque<Point> = VecDeque::new();
    reached.insert((22, 22));
    queue.push_back((22, 22));
    while let Some((x, y)) = queue.pop_front() {
        for next in [(x + 1, y), (x - 1, y), (x, y + 1), (x, y - 1)].iter() {
            if cells.contains(next) && reached.insert(*next) {
                queue.push_back(*next);
            }
        }
    }
    assert_eq!(reached.len(), cells.len());
}
