use builder_cpp::graph::{first_misplaced, walk_from, walk_order};

#[test]
fn walk_leaves_successors_first() {
    let adj = vec![vec![1], vec![2], vec![]];
    assert_eq!(walk_order(&adj, &vec![0]), vec![2, 1, 0]);
    assert_eq!(walk_order(&adj, &vec![0, 1, 2]), vec![2, 1, 0]);
    assert_eq!(walk_order(&adj, &vec![1]), vec![2, 1]);
}

#[test]
fn walk_visits_each_node_once() {
    let adj = vec![vec![1, 2], vec![3], vec![3], vec![]];
    assert_eq!(walk_order(&adj, &vec![0]), vec![3, 1, 2, 0]);
}

#[test]
fn walk_ends_on_a_cycle() {
    let adj = vec![vec![1], vec![0]];
    assert_eq!(walk_order(&adj, &vec![0]), vec![1, 0]);
    assert_eq!(walk_order(&adj, &vec![1]), vec![0, 1]);
    let own = vec![vec![0]];
    assert_eq!(walk_order(&own, &vec![0]), vec![0]);
}

#[test]
fn walk_of_nothing_is_empty() {
    let adj: Vec<Vec<usize>> = vec![];
    assert_eq!(walk_order(&adj, &vec![]), Vec::<usize>::new());
    let one = vec![vec![]];
    assert_eq!(walk_order(&one, &vec![]), Vec::<usize>::new());
    assert_eq!(walk_order(&one, &vec![5]), Vec::<usize>::new());
}

#[test]
fn walk_from_goes_on_where_it_was() {
    let adj = vec![vec![1], vec![], vec![1]];
    let mut seen = vec![false, false, false];
    let mut order = vec![];
    walk_from(&adj, 0, &mut seen, &mut order);
    assert_eq!(order, vec![1, 0]);
    walk_from(&adj, 2, &mut seen, &mut order);
    assert_eq!(order, vec![1, 0, 2]);
    assert_eq!(seen, vec![true, true, true]);
}

#[test]
fn topological_order_has_nothing_misplaced() {
    let adj = vec![vec![1], vec![2], vec![]];
    assert_eq!(first_misplaced(&adj, &vec![2, 1, 0]), None);
    assert_eq!(first_misplaced(&adj, &vec![0, 1, 2]), Some((0, 0)));
}

#[test]
fn cycle_leaves_an_edge_misplaced() {
    let adj = vec![vec![1], vec![0]];
    let order = walk_order(&adj, &vec![0, 1]);
    assert_eq!(order, vec![1, 0]);
    assert_eq!(first_misplaced(&adj, &order), Some((0, 0)));
}
