use bigram_engine::mlp::layer_shapes;
use bigram_engine::topo::TopoWalk;

fn walk(root: usize, parents: &[Vec<usize>]) -> Vec<usize> {
    let mut w = TopoWalk::new(root);
    let mut order = Vec::new();
    while let Some(n) = w.visit() {
        order.push(n);
        w.expand(&parents[n]);
    }
    order
}

#[test]
fn walk_visits_before_parents_in_given_order() {
    // 0 = 1 + 2, 1 = 3 * 4, 2 = 3 * 5
    let parents = vec![vec![1, 2], vec![3, 4], vec![3, 5], vec![], vec![], vec![]];
    assert_eq!(walk(0, &parents), vec![0, 1, 3, 4, 2, 5]);
}

#[test]
fn walk_visits_shared_nodes_once() {
    // 0 = 1 + 1 (a node used twice)
    let parents = vec![vec![1, 1], vec![]];
    assert_eq!(walk(0, &parents), vec![0, 1]);
}

#[test]
fn walk_of_a_leaf() {
    let parents = vec![vec![]];
    assert_eq!(walk(0, &parents), vec![0]);
}

#[test]
fn walk_follows_only_reachable_nodes() {
    let parents = vec![vec![], vec![0], vec![1]];
    assert_eq!(walk(1, &parents), vec![1, 0]);
}

#[test]
fn layer_shapes_chain() {
    assert_eq!(layer_shapes(2, &[3, 2]), vec![(2, 3), (3, 2)]);
    assert_eq!(layer_shapes(5, &[]), Vec::<(usize, usize)>::new());
    assert_eq!(layer_shapes(4, &[1]), vec![(4, 1)]);
}
