use astar_path::open_list::find_index;
use astar_path::open_list::order_by_f;
use astar_path::Node;

fn entry(index: i32, f: i32) -> Node {
    let mut node = Node::new(index, 0, 0);
    node.f = f;
    node
}

fn order(list: &Vec<Node>) -> Vec<(i32, i32)> {
    list.iter().map(|n| (n.index, n.f)).collect()
}

#[test]
fn find_index_gives_the_first_place() {
    let list = vec![entry(4, 0), entry(7, 0), entry(4, 1), entry(9, 0)];
    assert_eq!(find_index(&list, 4), Some(0));
    assert_eq!(find_index(&list, 7), Some(1));
    assert_eq!(find_index(&list, 9), Some(3));
    assert_eq!(find_index(&list, 5), None);
    assert_eq!(find_index(&Vec::new(), 0), None);
}

#[test]
fn order_by_f_sorts_ascending() {
    let mut list = vec![entry(0, 30), entry(1, 10), entry(2, 20), entry(3, -5)];
    order_by_f(&mut list);
    assert_eq!(order(&list), vec![(3, -5), (1, 10), (2, 20), (0, 30)]);
}

#[test]
fn order_by_f_keeps_the_order_of_equal_costs() {
    let mut list = vec![entry(0, 20), entry(1, 10), entry(2, 20), entry(3, 10), entry(4, 20)];
    order_by_f(&mut list);
    assert_eq!(order(&list), vec![(1, 10), (3, 10), (0, 20), (2, 20), (4, 20)]);
}

#[test]
fn order_by_f_on_short_lists() {
    let mut none: Vec<Node> = Vec::new();
    order_by_f(&mut none);
    assert!(none.is_empty());
    let mut one = vec![entry(3, 5)];
    order_by_f(&mut one);
    assert_eq!(order(&one), vec![(3, 5)]);
}

#[test]
fn order_by_f_brings_the_first_minimum_to_the_front() {
    let mut list = vec![entry(5, 9), entry(6, 4), entry(7, 4), entry(8, 9)];
    order_by_f(&mut list);
    assert_eq!(list[0].index, 6);
}
