use astar_path::search::relax;
use astar_path::Grid;
use astar_path::Node;

fn indices(path: &Vec<Node>) -> Vec<i32> {
    path.iter().map(|n| n.index).collect()
}

fn route(width: i32, height: i32, walls: Vec<i32>, start: usize, goal: usize) -> Vec<Node> {
    let grid = Grid::new(width, height, walls).unwrap();
    let nodes = grid.get_nodes();
    grid.a_star(nodes[start], nodes[goal])
}

fn tagged(from: &Node, to: &Node) -> bool {
    let raw = (to.y - from.y + 1) * 3 + (to.x - from.x + 1);
    let pos = if raw < 4 { raw } else { raw - 1 };
    pos % 2 == 0
}

fn open_entry(index: i32, x: i32, y: i32, parent: i32, g: i32, h: i32) -> Node {
    let mut node = Node::new(index, x, y);
    node.parent_index = parent;
    node.g = g;
    node.h = h;
    node.f = g + h;
    node
}

#[test]
fn route_around_the_wall_band() {
    let walls = vec![9, 16, 23, 30, 37, 44];
    let path = route(7, 7, walls.clone(), 36, 48);
    assert_eq!(indices(&path), vec![36, 29, 22, 15, 8, 2, 10, 18, 24, 32, 40, 48]);
    let g: Vec<i32> = path.iter().map(|n| n.g).collect();
    assert_eq!(g, vec![0, 10, 20, 30, 40, 54, 64, 74, 84, 94, 104, 114]);
    let f: Vec<i32> = path.iter().map(|n| n.f).collect();
    assert_eq!(f, vec![70, 80, 90, 100, 110, 138, 134, 130, 126, 122, 118, 114]);
    assert_eq!(path.last().unwrap().f, 114);
}

#[test]
fn route_around_the_wall_band_is_made_of_steps() {
    let walls = vec![9, 16, 23, 30, 37, 44];
    let path = route(7, 7, walls.clone(), 36, 48);
    assert!(!path.is_empty());
    assert_eq!(path.first().unwrap().index, 36);
    assert_eq!(path.last().unwrap().index, 48);
    assert_eq!(path[0].parent_index, -1);
    let mut total = 0;
    for i in 1..path.len() {
        let (from, to) = (&path[i - 1], &path[i]);
        assert!(!walls.contains(&to.index));
        assert!(to.traversable);
        assert_eq!(to.parent_index, from.index);
        assert!((to.x - from.x).abs() <= 1 && (to.y - from.y).abs() <= 1);
        assert!(to.g > from.g);
        let step = if tagged(from, to) { 14 } else { 10 };
        assert_eq!(to.g - from.g, step);
        total += step;
    }
    for node in path.iter() {
        assert_eq!(node.f, node.g + node.h);
        assert_eq!(node.h, 14 * (6 - node.x).abs().max((6 - node.y).abs()));
    }
    assert_eq!(path.last().unwrap().f, total);
}

#[test]
fn searching_twice_gives_the_same_route() {
    let grid = Grid::new(7, 7, vec![9, 16, 23, 30, 37, 44]).unwrap();
    let nodes = grid.get_nodes();
    let first = grid.a_star(nodes[36], nodes[48]);
    let second = grid.a_star(nodes[36], nodes[48]);
    assert_eq!(first.len(), second.len());
    for (a, b) in first.iter().zip(second.iter()) {
        assert_eq!(
            (a.index, a.parent_index, a.p_diagonal, a.x, a.y, a.g, a.h, a.f),
            (b.index, b.parent_index, b.p_diagonal, b.x, b.y, b.g, b.h, b.f)
        );
    }
    let after = grid.get_nodes();
    assert_eq!((after[48].g, after[48].f, after[48].parent_index), (0, 0, -1));
}

#[test]
fn stale_costs_in_the_arguments_are_ignored() {
    let grid = Grid::new(5, 5, vec![]).unwrap();
    let nodes = grid.get_nodes();
    let mut start = nodes[24];
    start.g = 500;
    start.f = 900;
    start.h = 3;
    start.parent_index = 7;
    start.p_diagonal = true;
    let path = grid.a_star(start, nodes[0]);
    assert_eq!(indices(&path), vec![24, 18, 12, 6, 0]);
    assert_eq!((path[0].g, path[0].h, path[0].f, path[0].parent_index), (0, 56, 56, -1));
    assert!(!path[0].p_diagonal);
    assert_eq!(path[4].f, 56);
}

#[test]
fn start_equal_to_goal_is_one_cell_at_cost_zero() {
    let path = route(3, 3, vec![], 4, 4);
    assert_eq!(indices(&path), vec![4]);
    assert_eq!((path[0].g, path[0].h, path[0].f), (0, 0, 0));
    assert_eq!(path[0].parent_index, -1);
    let alone = route(1, 1, vec![], 0, 0);
    assert_eq!(indices(&alone), vec![0]);
    assert_eq!(alone[0].f, 0);
}

#[test]
fn enclosed_goal_gives_no_route() {
    assert!(route(3, 3, vec![1, 3, 4], 8, 0).is_empty());
    assert!(route(3, 3, vec![1, 3, 4], 0, 8).is_empty());
    assert!(route(4, 1, vec![2], 0, 3).is_empty());
}

#[test]
fn wall_as_goal_gives_no_route() {
    assert!(route(3, 3, vec![8], 0, 8).is_empty());
}

#[test]
fn wall_as_start_keeps_a_zero_estimate() {
    let path = route(3, 3, vec![0], 0, 8);
    assert_eq!(indices(&path), vec![0, 4, 8]);
    assert_eq!((path[0].g, path[0].h, path[0].f), (0, 0, 0));
    assert_eq!((path[1].g, path[1].f), (10, 24));
    assert_eq!((path[2].g, path[2].f), (20, 20));
}

#[test]
fn diagonal_route_up_and_left_costs_fourteen_a_step() {
    let path = route(5, 5, vec![], 24, 0);
    assert_eq!(indices(&path), vec![24, 18, 12, 6, 0]);
    assert_eq!(path.len(), 5);
    assert_eq!(path.last().unwrap().f, 56);
}

#[test]
fn cost_goes_by_the_tag_of_each_step() {
    let right = route(5, 5, vec![], 0, 1);
    assert_eq!(indices(&right), vec![0, 1]);
    assert_eq!(right[1].f, 14);
    assert!(right[1].p_diagonal);
    let down_right = route(5, 5, vec![], 0, 24);
    assert_eq!(indices(&down_right), vec![0, 6, 12, 18, 24]);
    assert_eq!(down_right[4].f, 40);
    let along = route(4, 1, vec![], 0, 3);
    assert_eq!(indices(&along), vec![0, 1, 2, 3]);
    assert_eq!(along[3].f, 42);
}

#[test]
fn route_past_a_centre_wall() {
    let path = route(3, 3, vec![4], 0, 8);
    assert_eq!(indices(&path), vec![0, 1, 5, 8]);
    let g: Vec<i32> = path.iter().map(|n| n.g).collect();
    assert_eq!(g, vec![0, 14, 24, 38]);
    let f: Vec<i32> = path.iter().map(|n| n.f).collect();
    assert_eq!(f, vec![28, 42, 38, 38]);
}

#[test]
fn equal_costs_are_taken_in_the_order_of_the_open_list() {
    let path = route(4, 3, vec![0, 1, 4, 10, 11], 8, 3);
    assert_eq!(indices(&path), vec![8, 5, 6, 3]);
    let g: Vec<i32> = path.iter().map(|n| n.g).collect();
    assert_eq!(g, vec![0, 14, 28, 42]);
}

#[test]
fn cheaper_arrival_rewrites_the_open_entry() {
    let path = route(4, 5, vec![1, 2, 5, 11, 16], 19, 0);
    assert_eq!(indices(&path), vec![19, 14, 9, 4, 0]);
    let g: Vec<i32> = path.iter().map(|n| n.g).collect();
    assert_eq!(g, vec![0, 14, 28, 42, 52]);
    let f: Vec<i32> = path.iter().map(|n| n.f).collect();
    assert_eq!(f, vec![56, 56, 56, 56, 52]);
    for i in 1..path.len() {
        assert_eq!(path[i].parent_index, path[i - 1].index);
        assert_eq!(path[i].f, path[i].g + path[i].h);
    }
}

#[test]
fn relax_appends_an_unseen_neighbor() {
    let goal = Node::new(8, 2, 2);
    let mut current = open_entry(4, 1, 1, 0, 10, 14);
    current.parent_index = 0;
    let closed = vec![open_entry(0, 0, 0, -1, 0, 28), current];
    let mut open = vec![open_entry(1, 1, 0, 0, 14, 28)];
    let mut probe = Node::new(5, 2, 1);
    probe.p_diagonal = true;
    relax(&mut open, &closed, current, probe, goal);
    assert_eq!(open.len(), 2);
    let added = open[1];
    assert_eq!(added.index, 5);
    assert_eq!(added.parent_index, 4);
    assert_eq!((added.g, added.h, added.f), (24, 14, 38));
    assert!(added.p_diagonal);
    assert_eq!((open[0].index, open[0].g, open[0].f, open[0].parent_index), (1, 14, 42, 0));
}

#[test]
fn relax_passes_over_a_closed_neighbor() {
    let goal = Node::new(8, 2, 2);
    let current = open_entry(4, 1, 1, 0, 10, 14);
    let closed = vec![open_entry(0, 0, 0, -1, 0, 28), current];
    let mut open = vec![open_entry(1, 1, 0, 0, 14, 28)];
    relax(&mut open, &closed, current, Node::new(0, 0, 0), goal);
    assert_eq!(open.len(), 1);
    assert_eq!((open[0].index, open[0].g, open[0].f, open[0].parent_index), (1, 14, 42, 0));
}

#[test]
fn relax_lowers_g_parent_and_f_together() {
    let goal = Node::new(8, 2, 2);
    let current = open_entry(4, 1, 1, 0, 10, 14);
    let closed = vec![open_entry(0, 0, 0, -1, 0, 28), current];
    let mut open = vec![open_entry(3, 0, 1, 0, 14, 28), open_entry(5, 2, 1, 0, 40, 14)];
    let probe = Node::new(5, 2, 1);
    relax(&mut open, &closed, current, probe, goal);
    assert_eq!(open.len(), 2);
    assert_eq!(open[1].index, 5);
    assert_eq!(open[1].g, 20);
    assert_eq!(open[1].parent_index, 4);
    assert_eq!(open[1].h, 14);
    assert_eq!(open[1].f, 34);
    assert_eq!((open[0].g, open[0].f, open[0].parent_index), (14, 42, 0));
}

#[test]
fn relax_leaves_an_entry_that_is_not_dearer() {
    let goal = Node::new(8, 2, 2);
    let current = open_entry(4, 1, 1, 0, 10, 14);
    let closed = vec![open_entry(0, 0, 0, -1, 0, 28), current];
    let mut open = vec![open_entry(5, 2, 1, 0, 20, 14)];
    relax(&mut open, &closed, current, Node::new(5, 2, 1), goal);
    assert_eq!((open[0].g, open[0].f, open[0].parent_index), (20, 34, 0));
    let mut cheaper = vec![open_entry(5, 2, 1, 0, 14, 14)];
    let mut probe = Node::new(5, 2, 1);
    probe.p_diagonal = true;
    relax(&mut cheaper, &closed, current, probe, goal);
    assert_eq!((cheaper[0].g, cheaper[0].f, cheaper[0].parent_index), (14, 28, 0));
}

#[test]
fn get_path_walks_back_to_the_cell_without_parent() {
    let grid = Grid::new(3, 3, vec![]).unwrap();
    let closed = vec![
        open_entry(0, 0, 0, -1, 0, 28),
        open_entry(1, 1, 0, 0, 14, 28),
        open_entry(4, 1, 1, 0, 10, 14),
        open_entry(8, 2, 2, 4, 20, 0),
    ];
    let path = grid.get_path(closed.clone(), closed[3]);
    assert_eq!(indices(&path), vec![0, 4, 8]);
    assert_eq!(path[2].g, 20);
    let alone = grid.get_path(closed.clone(), closed[0]);
    assert_eq!(indices(&alone), vec![0]);
    let unlisted = grid.get_path(Vec::new(), Node::new(5, 2, 1));
    assert_eq!(indices(&unlisted), vec![5]);
}

#[test]
fn get_path_stops_where_a_parent_is_missing() {
    let grid = Grid::new(3, 3, vec![]).unwrap();
    let closed = vec![open_entry(4, 1, 1, 3, 10, 14), open_entry(8, 2, 2, 4, 20, 0)];
    let path = grid.get_path(closed.clone(), closed[1]);
    assert_eq!(indices(&path), vec![4, 8]);
}

#[test]
fn get_path_takes_the_first_entry_of_a_parent() {
    let grid = Grid::new(3, 3, vec![]).unwrap();
    let closed = vec![
        open_entry(4, 1, 1, -1, 10, 14),
        open_entry(4, 1, 1, 0, 99, 14),
        open_entry(8, 2, 2, 4, 20, 0),
    ];
    let path = grid.get_path(closed.clone(), closed[2]);
    assert_eq!(indices(&path), vec![4, 8]);
    assert_eq!(path[0].g, 10);
}

#[test]
fn get_path_ends_on_a_ring_of_parents() {
    let grid = Grid::new(3, 3, vec![]).unwrap();
    let closed = vec![open_entry(0, 0, 0, 1, 0, 0), open_entry(1, 1, 0, 0, 0, 0)];
    let path = grid.get_path(closed.clone(), closed[1]);
    assert_eq!(indices(&path), vec![1, 0, 1]);
}

fn walkable(width: i32, height: i32, walls: &Vec<i32>, start: i32, goal: i32) -> bool {
    let mut reached = vec![start];
    let mut next = 0;
    while next < reached.len() {
        let (x, y) = (reached[next] % width, reached[next] / width);
        next += 1;
        for dy in -1..=1 {
            for dx in -1..=1 {
                let (cx, cy) = (x + dx, y + dy);
                if (dx, dy) == (0, 0) || cx < 0 || cx >= width || cy < 0 || cy >= height {
                    continue;
                }
                let index = cy * width + cx;
                if !walls.contains(&index) && !reached.contains(&index) {
                    reached.push(index);
                }
            }
        }
    }
    reached.contains(&goal)
}

#[test]
fn route_is_found_exactly_where_the_goal_can_be_walked_to() {
    let plans: Vec<(i32, i32, Vec<i32>)> = vec![
        (4, 4, vec![1, 5, 9, 14]),
        (5, 3, vec![2, 7, 12]),
        (5, 4, vec![6, 7, 8, 11, 13, 16, 17, 18]),
        (3, 3, vec![0, 1, 2, 3, 5, 6, 7, 8]),
        (6, 1, vec![3]),
    ];
    for (width, height, walls) in plans.iter() {
        let grid = Grid::new(*width, *height, walls.clone()).unwrap();
        let nodes = grid.get_nodes();
        for start in nodes.iter() {
            for goal in nodes.iter() {
                let path = grid.a_star(*start, *goal);
                let expected = walkable(*width, *height, walls, start.index, goal.index);
                assert_eq!(!path.is_empty(), expected);
                if expected {
                    assert_eq!(path.first().unwrap().index, start.index);
                    assert_eq!(path.last().unwrap().index, goal.index);
                }
            }
        }
    }
}

#[test]
fn cost_lies_between_ten_and_fourteen_a_step() {
    let walls = vec![7, 8, 13, 22, 26];
    let grid = Grid::new(6, 5, walls.clone()).unwrap();
    let nodes = grid.get_nodes();
    for start in nodes.iter() {
        for goal in nodes.iter() {
            let path = grid.a_star(*start, *goal);
            if path.is_empty() {
                continue;
            }
            let steps = path.len() as i32 - 1;
            let cost = path.last().unwrap().f;
            assert!(10 * steps <= cost && cost <= 14 * steps);
            assert!(steps >= (start.x - goal.x).abs().max((start.y - goal.y).abs()));
            assert_eq!(cost, path.last().unwrap().g);
            for i in 1..path.len() {
                assert!(!walls.contains(&path[i].index));
                assert!(path[i].g > path[i - 1].g);
                let step = if tagged(&path[i - 1], &path[i]) { 14 } else { 10 };
                assert_eq!(path[i].g - path[i - 1].g, step);
            }
        }
    }
}

#[test]
fn rewritten_entry_keeps_its_first_tag() {
    let path = route(4, 5, vec![1, 2, 5, 11, 16], 19, 0);
    let tags: Vec<bool> = path.iter().map(|n| n.p_diagonal).collect();
    assert_eq!(tags, vec![false, true, false, true, false]);
    assert_eq!(path[2].g - path[1].g, 14);
}
