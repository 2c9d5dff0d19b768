use astar_path::Grid;
use astar_path::GridError;
use astar_path::Node;

fn same_fields(a: &Node, b: &Node) -> bool {
    a.index == b.index
        && a.parent_index == b.parent_index
        && a.p_diagonal == b.p_diagonal
        && a.traversable == b.traversable
        && a.x == b.x
        && a.y == b.y
        && a.g == b.g
        && a.h == b.h
        && a.f == b.f
}

fn tags(grid: &Grid, index: usize) -> Vec<(i32, bool)> {
    let nodes = grid.get_nodes();
    grid.get_neighbors(nodes[index]).iter().map(|n| (n.index, n.p_diagonal)).collect()
}

#[test]
fn new_grid_numbers_cells_row_by_row() {
    let grid = Grid::new(3, 2, vec![4]).unwrap();
    assert_eq!(grid.width(), 3);
    assert_eq!(grid.height(), 2);
    let nodes = grid.get_nodes();
    assert_eq!(nodes.len(), 6);
    for (i, node) in nodes.iter().enumerate() {
        let mut expected = Node::new(i as i32, (i % 3) as i32, (i / 3) as i32);
        expected.traversable = i != 4;
        assert!(same_fields(node, &expected));
    }
}

#[test]
fn node_reads_one_cell() {
    let grid = Grid::new(7, 7, vec![9, 16]).unwrap();
    let node = grid.node(36);
    assert_eq!((node.index, node.x, node.y), (36, 1, 5));
    assert!(node.traversable);
    assert!(!grid.node(16).traversable);
    assert!(same_fields(&grid.node(16), &grid.get_nodes()[16]));
}

#[test]
fn new_grid_refuses_empty_dimensions() {
    assert_eq!(Grid::new(0, 3, vec![]).err(), Some(GridError::EmptyDimension));
    assert_eq!(Grid::new(3, 0, vec![]).err(), Some(GridError::EmptyDimension));
    assert_eq!(Grid::new(-1, 4, vec![]).err(), Some(GridError::EmptyDimension));
    assert_eq!(Grid::new(0, 0, vec![7]).err(), Some(GridError::EmptyDimension));
}

#[test]
fn new_grid_refuses_too_many_cells() {
    assert_eq!(Grid::new(76_695_845, 1, vec![]).err(), Some(GridError::TooLarge));
    assert_eq!(Grid::new(i32::MAX, i32::MAX, vec![]).err(), Some(GridError::TooLarge));
    assert_eq!(Grid::new(65_536, 65_536, vec![-1]).err(), Some(GridError::TooLarge));
}

#[test]
fn new_grid_refuses_walls_off_the_grid() {
    assert_eq!(Grid::new(3, 3, vec![9]).err(), Some(GridError::WallOutOfRange));
    assert_eq!(Grid::new(3, 3, vec![0, -1]).err(), Some(GridError::WallOutOfRange));
    assert_eq!(Grid::new(3, 3, vec![4, 100, 2]).err(), Some(GridError::WallOutOfRange));
    assert!(Grid::new(3, 3, vec![8, 0, 8]).is_ok());
}

#[test]
fn single_cell_grid_has_no_neighbors() {
    let grid = Grid::new(1, 1, vec![]).unwrap();
    assert!(tags(&grid, 0).is_empty());
}

#[test]
fn interior_cell_has_eight_neighbors_tagged_alternately() {
    let grid = Grid::new(3, 3, vec![]).unwrap();
    assert_eq!(
        tags(&grid, 4),
        vec![
            (0, true),
            (1, false),
            (2, true),
            (3, false),
            (5, true),
            (6, false),
            (7, true),
            (8, false)
        ]
    );
}

#[test]
fn corner_and_edge_cells_keep_the_tag_of_the_window_position() {
    let grid = Grid::new(3, 3, vec![]).unwrap();
    assert_eq!(tags(&grid, 0), vec![(1, true), (3, true), (4, false)]);
    assert_eq!(tags(&grid, 5), vec![(1, true), (2, false), (4, false), (7, false), (8, true)]);
    assert_eq!(tags(&grid, 8), vec![(4, true), (5, false), (7, false)]);
}

#[test]
fn walls_are_left_out_of_the_neighbors() {
    let grid = Grid::new(3, 3, vec![4, 5]).unwrap();
    assert_eq!(tags(&grid, 8), vec![(7, false)]);
    let band = Grid::new(7, 7, vec![9, 16, 23, 30, 37, 44]).unwrap();
    assert_eq!(
        tags(&band, 36),
        vec![(28, true), (29, false), (35, false), (42, false), (43, true)]
    );
}

#[test]
fn neighbors_are_cells_of_the_grid_and_no_walls() {
    let walls = vec![1, 7, 12, 13, 18];
    let grid = Grid::new(5, 4, walls.clone()).unwrap();
    let nodes = grid.get_nodes();
    for node in nodes.iter() {
        let around = grid.get_neighbors(*node);
        assert!(around.len() <= 8);
        for next in around.iter() {
            assert!(next.index >= 0 && next.index < 20);
            assert!(next.traversable);
            assert!(!walls.contains(&next.index));
            assert!((next.x - node.x).abs() <= 1 && (next.y - node.y).abs() <= 1);
            assert!(next.index != node.index);
            assert_eq!(next.index, next.y * 5 + next.x);
            assert_eq!((next.parent_index, next.g, next.h, next.f), (-1, 0, 0, 0));
        }
    }
}

#[test]
fn neighbors_go_by_the_coordinates_given() {
    let grid = Grid::new(3, 3, vec![]).unwrap();
    let outside = Node::new(0, -1, -1);
    let around = grid.get_neighbors(outside);
    assert_eq!(around.len(), 1);
    assert_eq!(around[0].index, 0);
    assert!(!around[0].p_diagonal);
    let far = Node::new(0, i32::MAX, i32::MIN);
    assert!(grid.get_neighbors(far).is_empty());
}

#[test]
fn get_nodes_hands_out_copies() {
    let grid = Grid::new(2, 2, vec![]).unwrap();
    let mut nodes = grid.get_nodes();
    nodes[0].g = 77;
    nodes[0].traversable = false;
    let again = grid.get_nodes();
    assert_eq!(again[0].g, 0);
    assert!(again[0].traversable);
}
