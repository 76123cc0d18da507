use std::collections::HashSet;
use vstd::prelude::*;

verus! {

broadcast use {vstd::std_specs::hash::group_hash_axioms, vstd::set::group_set_axioms};

/// The pending stack after dropping, from its top, the nodes already visited.
pub open spec fn drop_visited(visited: Set<usize>, stack: Seq<usize>) -> Seq<usize>
    decreases stack.len(),
{
    if stack.len() > 0 && visited.contains(stack.last()) {
        drop_visited(visited, stack.drop_last())
    } else {
        stack
    }
}

/// Dropping visited nodes cuts the pending stack at the first node from the
/// top that has not been visited: every node cut away has been visited, the
/// kept part is the stack up to that node, and that node is its top. In
/// particular, where the top of the stack has not been visited, nothing is
/// dropped and the walk visits exactly that node next.
pub proof fn lemma_drop_visited_cuts_visited_top(visited: Set<usize>, stack: Seq<usize>)
    ensures
        exists|k: int|
            0 <= k <= stack.len() && drop_visited(visited, stack) == stack.subrange(0, k) && (forall|j: int|
                k <= j < stack.len() ==> visited.contains(#[trigger] stack[j])) && (k > 0
                ==> !visited.contains(stack[k - 1])),
        stack.len() > 0 && !visited.contains(stack.last()) ==> drop_visited(visited, stack) == stack,
    decreases stack.len(),
{
    if stack.len() > 0 && visited.contains(stack.last()) {
        lemma_drop_visited_cuts_visited_top(visited, stack.drop_last());
        let k = choose|k: int|
            0 <= k <= stack.drop_last().len() && drop_visited(visited, stack.drop_last())
                == stack.drop_last().subrange(0, k) && (forall|j: int|
                k <= j < stack.drop_last().len() ==> visited.contains(#[trigger] stack.drop_last()[j]))
                && (k > 0 ==> !visited.contains(stack.drop_last()[k - 1]));
        assert(stack.drop_last().subrange(0, k) =~= stack.subrange(0, k));
        assert forall|j: int| k <= j < stack.len() implies visited.contains(#[trigger] stack[j]) by {
            if j < stack.len() - 1 {
                assert(stack[j] == stack.drop_last()[j]);
            }
        }
        if k > 0 {
            assert(stack[k - 1] == stack.drop_last()[k - 1]);
        }
    } else {
        assert(stack.subrange(0, stack.len() as int) =~= stack);
    }
}

/// Whether `x` is a known parent of one of the first `i` nodes of `order`.
pub open spec fn discovered(
    parents: Map<usize, Seq<usize>>,
    order: Seq<usize>,
    i: int,
    x: usize,
) -> bool {
    exists|j: int|
        0 <= j < i && #[trigger] parents.dom().contains(order[j]) && parents[order[j]].contains(x)
}

proof fn lemma_push_to_set(s: Seq<usize>, n: usize)
    ensures
        s.push(n).to_set() == s.to_set().insert(n),
{
    assert forall|x: usize| #[trigger] s.push(n).to_set().contains(x) == s.to_set().insert(n).contains(x) by {
        if s.contains(x) {
            let k = choose|k: int| 0 <= k < s.len() && s[k] == x;
            assert(s.push(n)[k] == x);
        }
        if x == n {
            assert(s.push(n)[s.len() as int] == n);
        }
        if s.push(n).contains(x) {
            let k = choose|k: int| 0 <= k < s.push(n).len() && s.push(n)[k] == x;
            if k < s.len() {
                assert(s[k] == x);
            }
        }
    }
    assert(s.push(n).to_set() =~= s.to_set().insert(n));
}

/// A node found among the known parents of the first nodes of an order is
/// still found there once the order and the known parents have grown.
proof fn lemma_discovered_grows(
    p1: Map<usize, Seq<usize>>,
    p2: Map<usize, Seq<usize>>,
    o1: Seq<usize>,
    o2: Seq<usize>,
    i1: int,
    i2: int,
    x: usize,
)
    requires
        discovered(p1, o1, i1, x),
        i1 <= i2,
        i1 <= o1.len() <= o2.len(),
        forall|j: int| 0 <= j < o1.len() ==> o2[j] == o1[j],
        forall|k: usize| p1.dom().contains(k) ==> p2.dom().contains(k) && p2[k] == p1[k],
    ensures
        discovered(p2, o2, i2, x),
{
    let j = choose|j: int|
        0 <= j < i1 && #[trigger] p1.dom().contains(o1[j]) && p1[o1[j]].contains(x);
    assert(o2[j] == o1[j]);
    assert(p2.dom().contains(o2[j]));
}

/// A depth-first walk over the nodes of a computation graph, from a root
/// towards the values that each node was computed from (its parents). Nodes
/// are named by numbers. Each node is visited once, before its parents, and
/// the parents of a node are walked in the order given, each one fully
/// before the next. The caller reports the parents of each node when the
/// walk visits it.
pub struct TopoWalk {
    root: usize,
    visited: HashSet<usize>,
    order: Vec<usize>,
    stack: Vec<usize>,
    awaiting: Option<usize>,
    parents: Ghost<Map<usize, Seq<usize>>>,
}

impl TopoWalk {
    /// The node the walk started from.
    pub closed spec fn start(&self) -> usize {
        self.root
    }

    /// The nodes visited so far, in the order of their visits.
    pub closed spec fn visited_order(&self) -> Seq<usize> {
        self.order@
    }

    /// The nodes still to walk, the next one last.
    pub closed spec fn pending(&self) -> Seq<usize> {
        self.stack@
    }

    /// The node last visited, while its parents have not been reported yet.
    pub closed spec fn awaiting(&self) -> Option<usize> {
        self.awaiting
    }

    /// The parents reported so far, for each node.
    pub closed spec fn known_parents(&self) -> Map<usize, Seq<usize>> {
        self.parents@
    }

    /// The invariant of a walk.
    pub closed spec fn wf(&self) -> bool {
        &&& self.visited@ == self.order@.to_set()
        &&& self.order@.no_duplicates()
        &&& self.order@.len() == 0 ==> self.stack@ == seq![self.root] && self.awaiting is None
            && self.parents@.dom() == Set::<usize>::empty()
        &&& self.order@.len() > 0 ==> self.order@[0] == self.root
        &&& match self.awaiting {
            Some(n) => self.order@.len() > 0 && self.order@.last() == n
                && self.parents@.dom() == self.order@.drop_last().to_set(),
            None => self.parents@.dom() == self.order@.to_set(),
        }
        &&& forall|n: usize, p: usize|
            self.parents@.dom().contains(n) && #[trigger] self.parents@[n].contains(p)
                ==> self.order@.contains(p) || self.stack@.contains(p)
        &&& forall|k: int|
            0 <= k < self.stack@.len() ==> (self.order@.len() == 0 && self.stack@[k] == self.root)
                || discovered(self.parents@, self.order@, self.order@.len() as int, #[trigger] self.stack@[k])
        &&& forall|i: int|
            0 < i < self.order@.len() ==> discovered(self.parents@, self.order@, i, #[trigger] self.order@[i])
    }

    /// A walk that starts at `root`.
    pub fn new(root: usize) -> (r: TopoWalk)
        ensures
            r.wf(),
            r.start() == root,
            r.visited_order() == Seq::<usize>::empty(),
            r.pending() == seq![root],
            r.awaiting() is None,
            r.known_parents() == Map::<usize, Seq<usize>>::empty(),
    {
        let mut stack: Vec<usize> = Vec::new();
        stack.push(root);
        let r = TopoWalk {
            root,
            visited: HashSet::new(),
            order: Vec::new(),
            stack,
            awaiting: None,
            parents: Ghost(Map::empty()),
        };
        assert(r.order@.to_set() =~= Set::<usize>::empty());
        r
    }

    /// Takes the next node to visit: pending nodes already visited are
    /// dropped from the top of the pending stack, and the first one not yet
    /// visited is visited and returned; its parents are then owed through
    /// `expand`. Returns `None` when nothing is pending: then every known
    /// parent of a visited node has been visited too.
    pub fn visit(&mut self) -> (r: Option<usize>)
        requires
            old(self).wf(),
            old(self).awaiting() is None,
        ensures
            final(self).wf(),
            final(self).start() == old(self).start(),
            final(self).known_parents() == old(self).known_parents(),
            ({
                let s = drop_visited(old(self).visited_order().to_set(), old(self).pending());
                &&& s.len() == 0 ==> r is None && final(self).pending() == s
                    && final(self).visited_order() == old(self).visited_order()
                    && final(self).awaiting() is None
                &&& s.len() > 0 ==> r == Some(s.last()) && final(self).pending() == s.drop_last()
                    && final(self).visited_order() == old(self).visited_order().push(s.last())
                    && final(self).awaiting() == Some(s.last())
            }),
            old(self).pending().len() > 0 && !old(self).visited_order().contains(
                old(self).pending().last(),
            ) ==> r == Some(old(self).pending().last()) && final(self).pending()
                == old(self).pending().drop_last(),
            r is None ==> forall|n: usize, p: usize|
                final(self).known_parents().dom().contains(n)
                    && #[trigger] final(self).known_parents()[n].contains(p)
                    ==> final(self).visited_order().contains(p),
    {
        let ghost vis = self.order@.to_set();
        let ghost target = drop_visited(vis, self.stack@);
        proof {
            lemma_drop_visited_cuts_visited_top(vis, self.stack@);
        }
        loop
            invariant
                self.wf(),
                self.awaiting is None,
                self.root == old(self).root,
                self.order@ == old(self).order@,
                self.parents@ == old(self).parents@,
                vis == self.order@.to_set(),
                target == drop_visited(vis, old(self).stack@),
                drop_visited(vis, self.stack@) == target,
            decreases self.stack@.len(),
        {
            let ghost cur = self.stack@;
            match self.stack.pop() {
                None => {
                    return None;
                },
                Some(n) => {
                    if !self.visited.contains(&n) {
                        assert(!vis.contains(n));
                        assert(target == cur);
                        let ghost old_order = self.order@;
                        let ghost par = self.parents@;
                        self.visited.insert(n);
                        self.order.push(n);
                        self.awaiting = Some(n);
                        proof {
                            lemma_push_to_set(old_order, n);
                            assert(self.order@.drop_last() =~= old_order);
                            assert forall|i: int| 0 < i < self.order@.len() implies discovered(
                                par,
                                self.order@,
                                i,
                                #[trigger] self.order@[i],
                            ) by {
                                if i < old_order.len() {
                                    lemma_discovered_grows(par, par, old_order, self.order@, i, i, old_order[i]);
                                } else {
                                    assert(cur.contains(n));
                                    let k = cur.len() - 1;
                                    assert(cur[k] == n);
                                    lemma_discovered_grows(
                                        par,
                                        par,
                                        old_order,
                                        self.order@,
                                        old_order.len() as int,
                                        i,
                                        n,
                                    );
                                }
                            }
                            assert forall|k: int| 0 <= k < self.stack@.len() implies (self.order@.len() == 0
                                && self.stack@[k] == self.root) || discovered(
                                par,
                                self.order@,
                                self.order@.len() as int,
                                #[trigger] self.stack@[k],
                            ) by {
                                assert(self.stack@[k] == cur[k]);
                                lemma_discovered_grows(
                                    par,
                                    par,
                                    old_order,
                                    self.order@,
                                    old_order.len() as int,
                                    self.order@.len() as int,
                                    cur[k],
                                );
                            }
                            assert forall|m: usize, p: usize|
                                par.dom().contains(m) && #[trigger] par[m].contains(p) implies self.order@.contains(p)
                                    || self.stack@.contains(p) by {
                                if cur.contains(p) && p != n {
                                    let k = choose|k: int| 0 <= k < cur.len() && cur[k] == p;
                                    assert(self.stack@[k] == p);
                                }
                                if old_order.contains(p) {
                                    let k = choose|k: int| 0 <= k < old_order.len() && old_order[k] == p;
                                    assert(self.order@[k] == p);
                                }
                                if p == n {
                                    assert(self.order@[old_order.len() as int] == p);
                                }
                            }
                        }
                        return Some(n);
                    }
                    assert(vis.contains(n));
                    assert(self.stack@ =~= cur.drop_last());
                    proof {
                        assert forall|m: usize, p: usize|
                            self.parents@.dom().contains(m) && #[trigger] self.parents@[m].contains(p)
                                implies self.order@.contains(p) || self.stack@.contains(p) by {
                            if cur.contains(p) && p != n {
                                let k = choose|k: int| 0 <= k < cur.len() && cur[k] == p;
                                if k == cur.len() - 1 {
                                } else {
                                    assert(self.stack@[k] == p);
                                }
                            }
                        }
                        assert forall|k: int| 0 <= k < self.stack@.len() implies (self.order@.len() == 0
                            && self.stack@[k] == self.root) || discovered(
                            self.parents@,
                            self.order@,
                            self.order@.len() as int,
                            #[trigger] self.stack@[k],
                        ) by {
                            assert(self.stack@[k] == cur[k]);
                        }
                    }
                },
            }
        }
    }

    /// Reports the parents of the node last visited: they go on top of the
    /// pending stack so that the first of them is walked next, and they are
    /// recorded as that node's known parents.
    pub fn expand(&mut self, parents: &Vec<usize>)
        requires
            old(self).wf(),
            old(self).awaiting() is Some,
        ensures
            final(self).wf(),
            final(self).start() == old(self).start(),
            final(self).visited_order() == old(self).visited_order(),
            final(self).awaiting() is None,
            final(self).pending() == old(self).pending() + parents@.reverse(),
            final(self).known_parents() == old(self).known_parents().insert(
                old(self).awaiting()->0,
                parents@,
            ),
    {
        let n = match self.awaiting {
            Some(n) => n,
            None => 0,
        };
        let ghost old_stack = self.stack@;
        let ghost par = self.parents@;
        let len = parents.len();
        let mut i: usize = len;
        while i > 0
            invariant
                len == parents@.len(),
                i <= len,
                self.stack@ == old_stack + parents@.subrange(i as int, len as int).reverse(),
                self.root == old(self).root,
                self.order@ == old(self).order@,
                self.visited@ == old(self).visited@,
                self.awaiting == old(self).awaiting,
                self.parents@ == par,
            decreases i,
        {
            i = i - 1;
            self.stack.push(parents[i]);
            assert(self.stack@ =~= old_stack + parents@.subrange(i as int, len as int).reverse());
        }
        assert(parents@.subrange(0, len as int) =~= parents@);
        self.awaiting = None;
        self.parents = Ghost(par.insert(n, parents@));
        proof {
            let order = self.order@;
            let pp = self.parents@;
            assert(order =~= order.drop_last().push(n));
            lemma_push_to_set(order.drop_last(), n);
            assert(!order.drop_last().contains(n)) by {
                if order.drop_last().contains(n) {
                    let k = choose|k: int| 0 <= k < order.drop_last().len() && order.drop_last()[k] == n;
                    assert(order[k] == order[order.len() - 1]);
                }
            }
            assert(!par.dom().contains(n));
            assert(pp.dom() =~= order.to_set());
            assert forall|m: usize, p: usize|
                pp.dom().contains(m) && #[trigger] pp[m].contains(p) implies order.contains(p)
                    || self.stack@.contains(p) by {
                if m == n {
                    let k = choose|k: int| 0 <= k < parents@.len() && parents@[k] == p;
                    assert(self.stack@[old_stack.len() + (parents@.len() - 1 - k)] == p);
                } else {
                    assert(pp[m] == par[m]);
                    if old_stack.contains(p) {
                        let k = choose|k: int| 0 <= k < old_stack.len() && old_stack[k] == p;
                        assert(self.stack@[k] == p);
                    }
                }
            }
            assert forall|k: int| 0 <= k < self.stack@.len() implies (order.len() == 0
                && self.stack@[k] == self.root) || discovered(
                pp,
                order,
                order.len() as int,
                #[trigger] self.stack@[k],
            ) by {
                if k < old_stack.len() {
                    assert(self.stack@[k] == old_stack[k]);
                    lemma_discovered_grows(par, pp, order, order, order.len() as int, order.len() as int, old_stack[k]);
                } else {
                    let q = parents@.len() - 1 - (k - old_stack.len());
                    assert(self.stack@[k] == parents@[q]);
                    let j = order.len() - 1;
                    assert(order[j] == n);
                    assert(pp.dom().contains(order[j]));
                    assert(pp[order[j]].contains(parents@[q]));
                }
            }
            assert forall|i: int| 0 < i < order.len() implies discovered(pp, order, i, #[trigger] order[i]) by {
                lemma_discovered_grows(par, pp, order, order, i, i, order[i]);
            }
        }
    }
}

/// A walk visits each node at most once, and the first node it visits is
/// its root.
pub proof fn lemma_walk_visits_once(w: &TopoWalk)
    requires
        w.wf(),
    ensures
        w.visited_order().no_duplicates(),
        w.visited_order().len() > 0 ==> w.visited_order()[0] == w.start(),
{
}

/// Every node that a walk visits after its root is a reported parent of a
/// node visited before it.
pub proof fn lemma_walk_reaches_through_parents(w: &TopoWalk)
    requires
        w.wf(),
    ensures
        forall|i: int|
            0 < i < w.visited_order().len() ==> discovered(
                w.known_parents(),
                w.visited_order(),
                i,
                #[trigger] w.visited_order()[i],
            ),
{
}

} // verus!