use vstd::prelude::*;

verus! {

/// One line of the drawing of a computation graph. Nodes are named by
/// their index; the caller renders each line as text.
#[derive(Clone, Copy, Debug, PartialEq, Eq, Structural)]
pub enum GraphLine {
    /// The box of node `n`, with its data and gradient.
    Node(usize),
    /// The operation that computed node `n`.
    OpNode(usize),
    /// The edge from the operation of node `n` to node `n`.
    OpEdge(usize),
    /// The edge from parent `p` to the operation of node `n`.
    ParentEdge(usize, usize),
}

/// Work left in the drawing walk.
#[derive(Clone, Copy, Debug, PartialEq, Eq, Structural)]
pub enum GraphTask {
    /// Draw node `n` and, the first time, what it was computed from.
    Enter(usize),
    /// Draw the edge from parent `p` to the operation of node `n`.
    Edge(usize, usize),
}

/// The number of `false` entries of `s`.
pub open spec fn count_false(s: Seq<bool>) -> nat
    decreases s.len(),
{
    if s.len() == 0 {
        0
    } else {
        count_false(s.drop_last()) + if s.last() {
            0nat
        } else {
            1nat
        }
    }
}

/// Marking an unmarked entry leaves one `false` entry fewer.
pub proof fn lemma_count_false_update(s: Seq<bool>, i: int)
    requires
        0 <= i < s.len(),
        !s[i],
    ensures
        count_false(s.update(i, true)) + 1 == count_false(s),
    decreases s.len(),
{
    let t = s.update(i, true);
    if i == s.len() - 1 {
        assert(t.drop_last() =~= s.drop_last());
    } else {
        assert(t.drop_last() =~= s.drop_last().update(i, true));
        lemma_count_false_update(s.drop_last(), i);
    }
}

/// The tasks that node `n` leaves for its parents `ps`, the next one last:
/// for each parent in turn, its edge and then the parent itself.
pub open spec fn parent_tasks(ps: Seq<usize>, n: usize) -> Seq<GraphTask>
    decreases ps.len(),
{
    if ps.len() == 0 {
        Seq::empty()
    } else {
        parent_tasks(ps.drop_first(), n).push(GraphTask::Enter(ps[0])).push(
            GraphTask::Edge(ps[0], n),
        )
    }
}

/// The lines drawn from the given state on: `visited` marks the nodes
/// already drawn and `tasks` holds the work left, the next task last.
pub open spec fn draw(
    has_op: Seq<bool>,
    parents: Seq<Seq<usize>>,
    visited: Seq<bool>,
    tasks: Seq<GraphTask>,
) -> Seq<GraphLine>
    decreases count_false(visited), tasks.len(),
{
    if tasks.len() == 0 {
        Seq::empty()
    } else {
        match tasks.last() {
            GraphTask::Edge(p, n) => seq![GraphLine::ParentEdge(p, n)] + draw(
                has_op,
                parents,
                visited,
                tasks.drop_last(),
            ),
            GraphTask::Enter(n) => {
                if n >= visited.len() || visited[n as int] {
                    draw(has_op, parents, visited, tasks.drop_last())
                } else {
                    proof {
                        lemma_count_false_update(visited, n as int);
                    }
                    if n < has_op.len() && has_op[n as int] {
                        seq![GraphLine::Node(n), GraphLine::OpNode(n), GraphLine::OpEdge(n)] + draw(
                            has_op,
                            parents,
                            visited.update(n as int, true),
                            tasks.drop_last() + parent_tasks(parents[n as int], n),
                        )
                    } else {
                        seq![GraphLine::Node(n)] + draw(
                            has_op,
                            parents,
                            visited.update(n as int, true),
                            tasks.drop_last(),
                        )
                    }
                }
            },
        }
    }
}

/// The drawing of the graph reachable from `root`: each node is drawn the
/// first time it is reached; a node with an operation then draws that
/// operation, its edge to the node and, for each parent in turn, the edge
/// from the parent followed by the drawing of the parent.
pub open spec fn spec_graph_lines(
    root: usize,
    has_op: Seq<bool>,
    parents: Seq<Seq<usize>>,
) -> Seq<GraphLine> {
    draw(has_op, parents, Seq::new(parents.len(), |i: int| false), seq![GraphTask::Enter(root)])
}

/// The nodes whose boxes the lines `d` draw are all different.
pub open spec fn nodes_drawn_once(d: Seq<GraphLine>) -> bool {
    forall|i: int, j: int|
        0 <= i < j < d.len() && (#[trigger] d[i]) is Node ==> #[trigger] d[j] != d[i]
}

/// None of the lines `d` draws the box of a node marked in `visited`.
pub open spec fn draws_none_of(d: Seq<GraphLine>, visited: Seq<bool>) -> bool {
    forall|i: int|
        0 <= i < d.len() && (#[trigger] d[i]) is Node ==> !(d[i]->Node_0 < visited.len()
            && visited[d[i]->Node_0 as int])
}

/// From any state, the walk draws the box of a node at most once, and never
/// that of a node already drawn.
pub proof fn lemma_draw_nodes_once(
    has_op: Seq<bool>,
    parents: Seq<Seq<usize>>,
    visited: Seq<bool>,
    tasks: Seq<GraphTask>,
)
    ensures
        nodes_drawn_once(draw(has_op, parents, visited, tasks)),
        draws_none_of(draw(has_op, parents, visited, tasks), visited),
    decreases count_false(visited), tasks.len(),
{
    let d = draw(has_op, parents, visited, tasks);
    if tasks.len() == 0 {
    } else {
        match tasks.last() {
            GraphTask::Edge(p, m) => {
                let rest = draw(has_op, parents, visited, tasks.drop_last());
                lemma_draw_nodes_once(has_op, parents, visited, tasks.drop_last());
                assert(d == seq![GraphLine::ParentEdge(p, m)] + rest);
                assert forall|i: int, j: int|
                    0 <= i < j < d.len() && (#[trigger] d[i]) is Node implies #[trigger] d[j] != d[i] by {
                    assert(d[i] == rest[i - 1]);
                    assert(d[j] == rest[j - 1]);
                }
                assert forall|i: int|
                    0 <= i < d.len() && (#[trigger] d[i]) is Node implies !(d[i]->Node_0 < visited.len()
                        && visited[d[i]->Node_0 as int]) by {
                    assert(d[i] == rest[i - 1]);
                }
            },
            GraphTask::Enter(m) => {
                if m >= visited.len() || visited[m as int] {
                    lemma_draw_nodes_once(has_op, parents, visited, tasks.drop_last());
                } else {
                    lemma_count_false_update(visited, m as int);
                    let vis2 = visited.update(m as int, true);
                    let t2 = if m < has_op.len() && has_op[m as int] {
                        tasks.drop_last() + parent_tasks(parents[m as int], m)
                    } else {
                        tasks.drop_last()
                    };
                    let head = if m < has_op.len() && has_op[m as int] {
                        seq![GraphLine::Node(m), GraphLine::OpNode(m), GraphLine::OpEdge(m)]
                    } else {
                        seq![GraphLine::Node(m)]
                    };
                    let rest = draw(has_op, parents, vis2, t2);
                    lemma_draw_nodes_once(has_op, parents, vis2, t2);
                    assert(d == head + rest);
                    let h = head.len() as int;
                    assert forall|i: int|
                        0 <= i < rest.len() && (#[trigger] rest[i]) is Node implies rest[i]->Node_0 != m
                            && !(rest[i]->Node_0 < visited.len() && visited[rest[i]->Node_0 as int]) by {
                        assert(vis2[m as int]);
                        let q = rest[i]->Node_0;
                        if q < visited.len() && visited[q as int] {
                            assert(vis2[q as int]);
                        }
                    }
                    assert forall|i: int, j: int|
                        0 <= i < j < d.len() && (#[trigger] d[i]) is Node implies #[trigger] d[j] != d[i] by {
                        if j >= h {
                            assert(d[j] == rest[j - h]);
                            if i >= h {
                                assert(d[i] == rest[i - h]);
                            } else {
                                assert(d[i] == head[i]);
                            }
                        } else {
                            assert(d[i] == head[i] && d[j] == head[j]);
                        }
                    }
                    assert forall|i: int|
                        0 <= i < d.len() && (#[trigger] d[i]) is Node implies !(d[i]->Node_0 < visited.len()
                            && visited[d[i]->Node_0 as int]) by {
                        if i >= h {
                            assert(d[i] == rest[i - h]);
                        } else {
                            assert(d[i] == head[i]);
                        }
                    }
                }
            },
        }
    }
}

/// Whether every edge task names a parent of a node with an operation.
pub open spec fn edge_tasks_ok(has_op: Seq<bool>, parents: Seq<Seq<usize>>, tasks: Seq<GraphTask>) -> bool {
    forall|k: int|
        0 <= k < tasks.len() ==> match #[trigger] tasks[k] {
            GraphTask::Edge(p, n) => n < has_op.len() && has_op[n as int] && n < parents.len()
                && parents[n as int].contains(p),
            GraphTask::Enter(_) => true,
        }
}

proof fn lemma_parent_tasks_edges(ps: Seq<usize>, n: usize)
    ensures
        forall|k: int|
            0 <= k < parent_tasks(ps, n).len() ==> match #[trigger] parent_tasks(ps, n)[k] {
                GraphTask::Edge(p, m) => m == n && ps.contains(p),
                GraphTask::Enter(_) => true,
            },
    decreases ps.len(),
{
    if ps.len() > 0 {
        lemma_parent_tasks_edges(ps.drop_first(), n);
        let t = parent_tasks(ps, n);
        let r = parent_tasks(ps.drop_first(), n);
        assert forall|k: int| 0 <= k < t.len() implies match #[trigger] t[k] {
            GraphTask::Edge(p, m) => m == n && ps.contains(p),
            GraphTask::Enter(_) => true,
        } by {
            if k < r.len() {
                assert(t[k] == r[k]);
                match r[k] {
                    GraphTask::Edge(p, m) => {
                        let j = choose|j: int| 0 <= j < ps.drop_first().len() && ps.drop_first()[j] == p;
                        assert(ps[j + 1] == p);
                    },
                    GraphTask::Enter(_) => {},
                }
            } else if k == r.len() + 1 {
                assert(t[k] == GraphTask::Edge(ps[0], n));
                assert(ps[0] == ps[0]);
            }
        }
    }
}

/// The shape of the lines drawn from any state whose edge tasks are sound.
pub open spec fn well_drawn(has_op: Seq<bool>, parents: Seq<Seq<usize>>, d: Seq<GraphLine>) -> bool {
    &&& d.len() > 0 ==> (d[0] is Node || d[0] is ParentEdge)
    &&& forall|i: int|
        0 <= i < d.len() && (#[trigger] d[i]) is Node && d[i]->Node_0 < has_op.len() && has_op[d[i]->Node_0 as int]
            ==> i + 2 < d.len() && d[i + 1] == GraphLine::OpNode(d[i]->Node_0) && d[i + 2]
            == GraphLine::OpEdge(d[i]->Node_0)
    &&& forall|i: int|
        0 <= i < d.len() && (#[trigger] d[i]) is OpNode ==> i > 0 && d[i - 1] == GraphLine::Node(
            d[i]->OpNode_0,
        ) && d[i]->OpNode_0 < has_op.len() && has_op[d[i]->OpNode_0 as int]
    &&& forall|i: int|
        0 <= i < d.len() && (#[trigger] d[i]) is OpEdge ==> i > 0 && d[i - 1] == GraphLine::OpNode(
            d[i]->OpEdge_0,
        )
    &&& forall|i: int|
        0 <= i < d.len() && (#[trigger] d[i]) is ParentEdge ==> d[i]->ParentEdge_1 < parents.len()
            && d[i]->ParentEdge_1 < has_op.len() && has_op[d[i]->ParentEdge_1 as int]
            && parents[d[i]->ParentEdge_1 as int].contains(d[i]->ParentEdge_0)
}

proof fn lemma_well_drawn_prepend(
    has_op: Seq<bool>,
    parents: Seq<Seq<usize>>,
    head: Seq<GraphLine>,
    rest: Seq<GraphLine>,
)
    requires
        well_drawn(has_op, parents, rest),
        well_drawn(has_op, parents, head),
        head.len() > 0,
        head.last() is OpEdge || head.last() is ParentEdge || (head.last() is Node && !(
        head.last()->Node_0 < has_op.len() && has_op[head.last()->Node_0 as int])),
    ensures
        well_drawn(has_op, parents, head + rest),
{
    let d = head + rest;
    let h = head.len() as int;
    assert(d[0] == head[0]);
    assert forall|i: int|
        0 <= i < d.len() && (#[trigger] d[i]) is Node && d[i]->Node_0 < has_op.len() && has_op[d[i]->Node_0 as int]
            implies i + 2 < d.len() && d[i + 1] == GraphLine::OpNode(d[i]->Node_0) && d[i + 2]
            == GraphLine::OpEdge(d[i]->Node_0) by {
        if i >= h {
            assert(d[i] == rest[i - h]);
            assert(d[i + 1] == rest[i + 1 - h]);
            assert(d[i + 2] == rest[i + 2 - h]);
        } else {
            assert(d[i] == head[i]);
            assert(d[i + 1] == head[i + 1]);
            assert(d[i + 2] == head[i + 2]);
        }
    }
    assert forall|i: int|
        0 <= i < d.len() && (#[trigger] d[i]) is OpNode implies i > 0 && d[i - 1] == GraphLine::Node(
            d[i]->OpNode_0,
        ) && d[i]->OpNode_0 < has_op.len() && has_op[d[i]->OpNode_0 as int] by {
        if i > h {
            assert(d[i] == rest[i - h]);
            assert(d[i - 1] == rest[i - 1 - h]);
        } else if i == h {
            assert(d[i] == rest[0]);
        } else {
            assert(d[i] == head[i]);
            assert(d[i - 1] == head[i - 1]);
        }
    }
    assert forall|i: int|
        0 <= i < d.len() && (#[trigger] d[i]) is OpEdge implies i > 0 && d[i - 1] == GraphLine::OpNode(
            d[i]->OpEdge_0,
        ) by {
        if i > h {
            assert(d[i] == rest[i - h]);
            assert(d[i - 1] == rest[i - 1 - h]);
        } else if i == h {
            assert(d[i] == rest[0]);
        } else {
            assert(d[i] == head[i]);
            assert(d[i - 1] == head[i - 1]);
        }
    }
    assert forall|i: int|
        0 <= i < d.len() && (#[trigger] d[i]) is ParentEdge implies d[i]->ParentEdge_1 < parents.len()
            && d[i]->ParentEdge_1 < has_op.len() && has_op[d[i]->ParentEdge_1 as int]
            && parents[d[i]->ParentEdge_1 as int].contains(d[i]->ParentEdge_0) by {
        if i >= h {
            assert(d[i] == rest[i - h]);
        } else {
            assert(d[i] == head[i]);
        }
    }
}

/// From any state whose edge tasks are sound, the drawing has its shape.
pub proof fn lemma_draw_well_drawn(
    has_op: Seq<bool>,
    parents: Seq<Seq<usize>>,
    visited: Seq<bool>,
    tasks: Seq<GraphTask>,
)
    requires
        visited.len() == parents.len(),
        edge_tasks_ok(has_op, parents, tasks),
    ensures
        well_drawn(has_op, parents, draw(has_op, parents, visited, tasks)),
    decreases count_false(visited), tasks.len(),
{
    let d = draw(has_op, parents, visited, tasks);
    if tasks.len() > 0 {
        assert(edge_tasks_ok(has_op, parents, tasks.drop_last())) by {
            assert forall|k: int| 0 <= k < tasks.drop_last().len() implies match #[trigger] tasks.drop_last()[k] {
                GraphTask::Edge(p, n) => n < has_op.len() && has_op[n as int] && n < parents.len()
                    && parents[n as int].contains(p),
                GraphTask::Enter(_) => true,
            } by {
                assert(tasks.drop_last()[k] == tasks[k]);
            }
        }
        let last = tasks[tasks.len() - 1];
        assert(tasks.last() == last);
        match last {
            GraphTask::Edge(p, m) => {
                let rest = draw(has_op, parents, visited, tasks.drop_last());
                lemma_draw_well_drawn(has_op, parents, visited, tasks.drop_last());
                let head = seq![GraphLine::ParentEdge(p, m)];
                assert(head[0] == GraphLine::ParentEdge(p, m));
                assert(d == head + rest);
                lemma_well_drawn_prepend(has_op, parents, head, rest);
            },
            GraphTask::Enter(m) => {
                if m >= visited.len() || visited[m as int] {
                    lemma_draw_well_drawn(has_op, parents, visited, tasks.drop_last());
                } else {
                    lemma_count_false_update(visited, m as int);
                    let vis2 = visited.update(m as int, true);
                    if m < has_op.len() && has_op[m as int] {
                        let t2 = tasks.drop_last() + parent_tasks(parents[m as int], m);
                        lemma_parent_tasks_edges(parents[m as int], m);
                        assert forall|k: int| 0 <= k < t2.len() implies match #[trigger] t2[k] {
                            GraphTask::Edge(p, n) => n < has_op.len() && has_op[n as int] && n < parents.len()
                                && parents[n as int].contains(p),
                            GraphTask::Enter(_) => true,
                        } by {
                            if k < tasks.drop_last().len() {
                                assert(t2[k] == tasks.drop_last()[k]);
                            } else {
                                assert(t2[k] == parent_tasks(parents[m as int], m)[k - tasks.drop_last().len()]);
                            }
                        }
                        let head = seq![GraphLine::Node(m), GraphLine::OpNode(m), GraphLine::OpEdge(m)];
                        let rest = draw(has_op, parents, vis2, t2);
                        lemma_draw_well_drawn(has_op, parents, vis2, t2);
                        assert(d == head + rest);
                        assert(head[0] == GraphLine::Node(m) && head[1] == GraphLine::OpNode(m)
                            && head[2] == GraphLine::OpEdge(m));
                        lemma_well_drawn_prepend(has_op, parents, head, rest);
                    } else {
                        let head = seq![GraphLine::Node(m)];
                        let rest = draw(has_op, parents, vis2, tasks.drop_last());
                        lemma_draw_well_drawn(has_op, parents, vis2, tasks.drop_last());
                        assert(d == head + rest);
                        assert(head[0] == GraphLine::Node(m));
                        lemma_well_drawn_prepend(has_op, parents, head, rest);
                    }
                }
            },
        }
    }
}

/// Every drawn node with an operation is followed by its operation node and
/// then the edge from that operation to it; operation nodes and their edges
/// stand nowhere else; and each parent edge runs from a parent of a node
/// with an operation.
pub proof fn lemma_graph_lines_shape(root: usize, has_op: Seq<bool>, parents: Seq<Seq<usize>>)
    requires
        graph_closed(root, has_op, parents),
    ensures
        well_drawn(has_op, parents, spec_graph_lines(root, has_op, parents)),
{
    let vis = Seq::new(parents.len(), |i: int| false);
    let tasks = seq![GraphTask::Enter(root)];
    assert forall|k: int| 0 <= k < tasks.len() implies match #[trigger] tasks[k] {
        GraphTask::Edge(p, n) => n < has_op.len() && has_op[n as int] && n < parents.len()
            && parents[n as int].contains(p),
        GraphTask::Enter(_) => true,
    } by {
        assert(tasks[k] == GraphTask::Enter(root));
    }
    lemma_draw_well_drawn(has_op, parents, vis, tasks);
}

/// The drawing begins with the box of the root and draws the box of each
/// node at most once.
pub proof fn lemma_graph_lines_once(root: usize, has_op: Seq<bool>, parents: Seq<Seq<usize>>)
    requires
        graph_closed(root, has_op, parents),
    ensures
        spec_graph_lines(root, has_op, parents).len() > 0,
        spec_graph_lines(root, has_op, parents)[0] == GraphLine::Node(root),
        nodes_drawn_once(spec_graph_lines(root, has_op, parents)),
{
    let vis = Seq::new(parents.len(), |i: int| false);
    let tasks = seq![GraphTask::Enter(root)];
    lemma_draw_nodes_once(has_op, parents, vis, tasks);
    lemma_count_false_update(vis, root as int);
    assert(tasks.last() == GraphTask::Enter(root));
    assert(!vis[root as int]);
}

/// Whether every node named in a graph of `len` nodes exists.
pub open spec fn graph_closed(root: usize, has_op: Seq<bool>, parents: Seq<Seq<usize>>) -> bool {
    &&& root < parents.len()
    &&& has_op.len() == parents.len()
    &&& forall|n: int, k: int|
        0 <= n < parents.len() && 0 <= k < parents[n].len() ==> #[trigger] parents[n][k]
            < parents.len()
}

/// The lines of the drawing of the computation graph reachable from `root`.
/// Node `n` has an operation where `has_op[n]` holds, and was computed from
/// the nodes `parents[n]`.
pub fn graph_lines(root: usize, has_op: &Vec<bool>, parents: &Vec<Vec<usize>>) -> (r: Vec<GraphLine>)
    requires
        graph_closed(root, has_op@, parents.deep_view()),
    ensures
        r@ == spec_graph_lines(root, has_op@, parents.deep_view()),
        r@.len() > 0 && r@[0] == GraphLine::Node(root),
        nodes_drawn_once(r@),
        well_drawn(has_op@, parents.deep_view(), r@),
{
    let ghost pv = parents.deep_view();
    let len = parents.len();
    let mut visited: Vec<bool> = Vec::new();
    let mut i: usize = 0;
    while i < len
        invariant
            i <= len,
            visited@ == Seq::new(i as nat, |j: int| false),
        decreases len - i,
    {
        visited.push(false);
        i = i + 1;
        assert(visited@ =~= Seq::new(i as nat, |j: int| false));
    }
    let mut tasks: Vec<GraphTask> = Vec::new();
    tasks.push(GraphTask::Enter(root));
    let mut lines: Vec<GraphLine> = Vec::new();
    assert(lines@ + draw(has_op@, pv, visited@, tasks@) =~= spec_graph_lines(root, has_op@, pv));
    loop
        invariant
            len == parents@.len(),
            pv == parents.deep_view(),
            graph_closed(root, has_op@, pv),
            visited@.len() == len,
            forall|k: int|
                0 <= k < tasks@.len() ==> match #[trigger] tasks@[k] {
                    GraphTask::Enter(n) => n < len,
                    GraphTask::Edge(p, n) => true,
                },
            lines@ + draw(has_op@, pv, visited@, tasks@) == spec_graph_lines(root, has_op@, pv),
        decreases count_false(visited@), tasks@.len(),
    {
        let ghost before = tasks@;
        match tasks.pop() {
            None => {
                assert(lines@ =~= lines@ + draw(has_op@, pv, visited@, before));
                proof {
                    lemma_graph_lines_once(root, has_op@, pv);
                    lemma_graph_lines_shape(root, has_op@, pv);
                }
                return lines;
            },
            Some(task) => {
                assert(task == before.last());
                assert(tasks@ == before.drop_last());
                match task {
                    GraphTask::Edge(p, n) => {
                        lines.push(GraphLine::ParentEdge(p, n));
                        assert(lines@ + draw(has_op@, pv, visited@, tasks@) =~= spec_graph_lines(
                            root,
                            has_op@,
                            pv,
                        ));
                    },
                    GraphTask::Enter(n) => {
                        assert(n < len);
                        if visited[n] {
                        } else {
                            let ghost vis0 = visited@;
                            proof {
                                lemma_count_false_update(vis0, n as int);
                            }
                            visited.set(n, true);
                            lines.push(GraphLine::Node(n));
                            if has_op[n] {
                                lines.push(GraphLine::OpNode(n));
                                lines.push(GraphLine::OpEdge(n));
                                let ps = &parents[n];
                                let ghost base = tasks@;
                                assert(ps@ == pv[n as int]);
                                let plen = ps.len();
                                let mut k: usize = plen;
                                assert(ps@.subrange(plen as int, plen as int) =~= Seq::<usize>::empty());
                                while k > 0
                                    invariant
                                        plen == ps@.len(),
                                        k <= plen,
                                        pv.len() == len,
                                        ps@ == pv[n as int],
                                        n < len,
                                        forall|q: int|
                                            0 <= q < tasks@.len() ==> match #[trigger] tasks@[q] {
                                                GraphTask::Enter(m) => m < len,
                                                GraphTask::Edge(p, m) => true,
                                            },
                                        len == parents@.len(),
                                        graph_closed(root, has_op@, pv),
                                        tasks@ == base + parent_tasks(
                                            ps@.subrange(k as int, plen as int),
                                            n,
                                        ),
                                    decreases k,
                                {
                                    k = k - 1;
                                    assert(ps@[k as int] == pv[n as int][k as int]);
                                    assert(ps@[k as int] < len);
                                    tasks.push(GraphTask::Enter(ps[k]));
                                    tasks.push(GraphTask::Edge(ps[k], n));
                                    assert(ps@.subrange(k as int, plen as int).drop_first() =~= ps@.subrange(
                                        k + 1,
                                        plen as int,
                                    ));
                                    assert(tasks@ =~= base + parent_tasks(
                                        ps@.subrange(k as int, plen as int),
                                        n,
                                    ));
                                }
                                assert(ps@.subrange(0, plen as int) =~= ps@);
                            }
                            assert(lines@ + draw(has_op@, pv, visited@, tasks@) =~= spec_graph_lines(
                                root,
                                has_op@,
                                pv,
                            ));
                        }
                    },
                }
            },
        }
    }
}

} // verus!
