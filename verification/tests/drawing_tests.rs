use bigram_engine::graph::{graph_lines, GraphLine};
use GraphLine::{Node, OpEdge, OpNode, ParentEdge};

#[test]
fn drawing_of_a_leaf() {
    assert_eq!(graph_lines(0, &vec![false], &vec![vec![]]), vec![Node(0)]);
}

#[test]
fn drawing_of_a_sum() {
    // 0 = 1 + 2
    let has_op = vec![true, false, false];
    let parents = vec![vec![1, 2], vec![], vec![]];
    assert_eq!(
        graph_lines(0, &has_op, &parents),
        vec![
            Node(0),
            OpNode(0),
            OpEdge(0),
            ParentEdge(1, 0),
            Node(1),
            ParentEdge(2, 0),
            Node(2)
        ]
    );
}

#[test]
fn drawing_visits_shared_nodes_once_but_draws_every_edge() {
    // 0 = 1 * 2, 1 = 2 + 3, node 2 used twice
    let has_op = vec![true, true, false, false];
    let parents = vec![vec![1, 2], vec![2, 3], vec![], vec![]];
    assert_eq!(
        graph_lines(0, &has_op, &parents),
        vec![
            Node(0),
            OpNode(0),
            OpEdge(0),
            ParentEdge(1, 0),
            Node(1),
            OpNode(1),
            OpEdge(1),
            ParentEdge(2, 1),
            Node(2),
            ParentEdge(3, 1),
            Node(3),
            ParentEdge(2, 0)
        ]
    );
}

#[test]
fn drawing_of_a_node_used_twice_by_one_operation() {
    // 0 = 1 + 1
    let has_op = vec![true, false];
    let parents = vec![vec![1, 1], vec![]];
    assert_eq!(
        graph_lines(0, &has_op, &parents),
        vec![Node(0), OpNode(0), OpEdge(0), ParentEdge(1, 0), Node(1), ParentEdge(1, 0)]
    );
}

#[test]
fn drawing_follows_parents_only_of_nodes_with_an_operation() {
    let has_op = vec![false, false];
    let parents = vec![vec![1], vec![]];
    assert_eq!(graph_lines(0, &has_op, &parents), vec![Node(0)]);
}
