use torchbearer::bresenham::LineBresenham;
use torchbearer::path::{astar_path, astar_path_fourwaygrid, ExampleMap, FourWayGridGraph, Graph, PathMap};
use torchbearer::Point;

fn build_wall(map: &mut ExampleMap, from: Point, to: Point) {
    for (x, y) in LineBresenham::new(from, to).collect() {
        map.set_walkable(x, y, false);
    }
}

#[test]
fn astar_find_path() {
    let mut map = ExampleMap::new(10, 10);
    build_wall(&mut map, (3, 3), (3, 6));
    build_wall(&mut map, (0, 3), (3, 3));

    let from = (0, 4);
    let to = (5, 4);

    let path = astar_path_fourwaygrid(&map, from, to);
    assert!(path.is_some());

    if let Some(path) = path {
        assert_eq!(from, path[0]);
        assert_eq!(to, path[path.len() - 1]);

        assert_eq!(
            path,
            [
                (0, 4),
                (0, 5),
                (1, 5),
                (1, 6),
                (2, 6),
                (2, 7),
                (3, 7),
                (4, 7),
                (5, 7),
                (5, 6),
                (5, 5),
                (5, 4)
            ]
        );
    }
}

#[test]
fn astar_no_path() {
    let mut map = ExampleMap::new(10, 10);
    build_wall(&mut map, (3, 3), (3, 6));
    build_wall(&mut map, (0, 3), (3, 3));
    build_wall(&mut map, (0, 6), (3, 6));

    let from = (0, 4);
    let to = (5, 4);

    let path = astar_path_fourwaygrid(&map, from, to);
    assert!(path.is_none());
}

#[test]
fn astar_same_cell_is_a_single_point() {
    let map = ExampleMap::new(4, 4);
    assert_eq!(astar_path_fourwaygrid(&map, (2, 1), (2, 1)), Some(vec![(2, 1)]));
}

#[test]
fn astar_same_cell_even_when_blocked() {
    let mut map = ExampleMap::new(4, 4);
    map.set_walkable(1, 1, false);
    assert_eq!(astar_path_fourwaygrid(&map, (1, 1), (1, 1)), Some(vec![(1, 1)]));
}

#[test]
fn astar_blocked_destination_has_no_path() {
    let mut map = ExampleMap::new(5, 5);
    map.set_walkable(4, 4, false);
    assert_eq!(astar_path_fourwaygrid(&map, (0, 0), (4, 4)), None);
}

#[test]
fn astar_straight_corridor() {
    let map = ExampleMap::new(6, 1);
    assert_eq!(
        astar_path_fourwaygrid(&map, (0, 0), (5, 0)),
        Some(vec![(0, 0), (1, 0), (2, 0), (3, 0), (4, 0), (5, 0)])
    );
}

#[test]
fn astar_path_steps_are_neighbours_on_walkable_cells() {
    let mut map = ExampleMap::new(8, 8);
    build_wall(&mut map, (2, 0), (2, 6));
    build_wall(&mut map, (5, 1), (5, 7));
    let graph = FourWayGridGraph::new(&map);
    let path = astar_path(&graph, (0, 0), (7, 7)).unwrap();
    assert_eq!(path[0], (0, 0));
    assert_eq!(path[path.len() - 1], (7, 7));
    for pair in path.windows(2) {
        let (a, b) = (pair[0], pair[1]);
        assert_eq!((a.0 - b.0).abs() + (a.1 - b.1).abs(), 1);
        assert!(map_walkable(&map, b));
    }
    // Shortest length around both walls.
    assert_eq!(path.len(), 29);
}

fn map_walkable(map: &ExampleMap, p: Point) -> bool {
    map.is_walkable(p.0, p.1)
}

#[test]
fn four_way_costs_and_heuristic() {
    let map = ExampleMap::new(5, 5);
    let graph = FourWayGridGraph::new(&map);
    assert_eq!(graph.cost_between((0, 0), (1, 0)), 1001);
    assert_eq!(graph.cost_between((0, 0), (0, 1)), 1000);
    assert_eq!(graph.cost_between((1, 0), (1, 1)), 1001);
    assert_eq!(graph.cost_between((1, 0), (2, 0)), 1000);
    assert_eq!(graph.heuristic((0, 0), (3, 4)), 7000);
    assert_eq!(graph.heuristic((4, 1), (1, 3)), 5000);
}

#[test]
fn astar_open_grid_takes_fewest_steps() {
    let map = ExampleMap::new(7, 7);
    let path = astar_path_fourwaygrid(&map, (1, 5), (6, 0)).unwrap();
    assert_eq!(path.len(), 11);
    let mut seen = path.clone();
    seen.sort();
    seen.dedup();
    assert_eq!(seen.len(), path.len());
}
