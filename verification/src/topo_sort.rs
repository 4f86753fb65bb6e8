//! Connected groups of an undirected graph, each with a breadth-first walk over it.

use std::collections::HashMap;
use std::collections::VecDeque;
use vstd::prelude::*;
use vstd::std_specs::hash::group_hash_axioms;

verus! {

broadcast use group_hash_axioms;

/// One connected group of nodes: where its walk starts, and the edges of the walk in the
/// order in which they reach a new node.
#[derive(Debug, PartialEq, Eq)]
pub struct Component<T> {
    pub start: T,
    pub seq: Vec<(T, T)>,
}

impl<T> Component<T> {
    /// The nodes of the component in the order in which the walk reaches them.
    pub open spec fn walked(self) -> Seq<T> {
        seq![self.start] + Seq::new(self.seq.len() as nat, |k: int| self.seq[k].1)
    }
}

/// A [`Component`] of numbered nodes as a value of the model.
pub struct WalkView {
    pub start: usize,
    pub seq: Seq<(usize, usize)>,
}

impl View for Component<usize> {
    type V = WalkView;

    open spec fn view(&self) -> WalkView {
        WalkView { start: self.start, seq: self.seq@ }
    }
}

/// The components of a list, each by its view.
pub open spec fn walk_views(comps: Seq<Component<usize>>) -> Seq<WalkView> {
    Seq::new(comps.len(), |c: int| comps[c]@)
}

/// An undirected graph under construction. A node is known from the first edge that names
/// it, and its position is the number of nodes that were known before it.
pub struct TopologicalSort {
    /// The nodes in the order in which they were first seen.
    nodes: Vec<usize>,
    /// The position of each node in `nodes`.
    index: HashMap<usize, usize>,
    /// For the node at each position, the positions of its neighbours, in the order in
    /// which the edges came.
    edges: Vec<Vec<usize>>,
}

/// The graph that a [`TopologicalSort`] holds.
pub struct GraphView {
    /// The nodes in the order in which they were first seen.
    pub nodes: Seq<usize>,
    /// For the node at each position, the positions of its neighbours.
    pub edges: Seq<Seq<usize>>,
}

impl GraphView {
    /// No node stands twice, each node has its list of neighbours, a neighbour is another
    /// node, and whoever is a neighbour of a node has that node as a neighbour.
    pub open spec fn wf(self) -> bool {
        &&& self.nodes.no_duplicates()
        &&& self.nodes.len() <= usize::MAX
        &&& self.edges.len() == self.nodes.len()
        &&& forall|p: int, i: int|
            0 <= p < self.edges.len() && 0 <= i < self.edges[p].len() ==> {
                &&& (#[trigger] self.edges[p][i]) < self.nodes.len()
                &&& self.edges[p][i] != p
                &&& self.edges[self.edges[p][i] as int].contains(p as usize)
            }
    }

    /// The graph without nodes.
    pub open spec fn empty() -> GraphView {
        GraphView { nodes: Seq::empty(), edges: Seq::empty() }
    }

    /// The graph in which `node` is known.
    pub open spec fn noted(self, node: usize) -> GraphView {
        if self.nodes.contains(node) {
            self
        } else {
            GraphView { nodes: self.nodes.push(node), edges: self.edges.push(Seq::empty()) }
        }
    }

    /// The graph with an edge more between the nodes at positions `p` and `q`.
    pub open spec fn linked(self, p: int, q: int) -> GraphView {
        let with_q = self.edges.update(p, self.edges[p].push(q as usize));
        GraphView {
            nodes: self.nodes,
            edges: with_q.update(q, with_q[q].push(p as usize)),
        }
    }

    /// The graph after the edge between `a` and `b` has come. An edge from a node to
    /// itself makes the node known and nothing more.
    pub open spec fn with_edge(self, a: usize, b: usize) -> GraphView {
        if a == b {
            self.noted(a)
        } else {
            let both = self.noted(a).noted(b);
            both.linked(both.nodes.index_of(a), both.nodes.index_of(b))
        }
    }

    /// The neighbours of the node `a`, in the order in which the edges came.
    pub open spec fn neighbours(self, a: usize) -> Seq<usize> {
        let p = self.nodes.index_of(a);
        Seq::new(self.edges[p].len(), |i: int| self.nodes[self.edges[p][i] as int])
    }

    /// Whether an edge joins the nodes `a` and `b`.
    pub open spec fn adjacent(self, a: usize, b: usize) -> bool {
        self.nodes.contains(a) && self.neighbours(a).contains(b)
    }
}

/// Making a node known changes neither the other nodes nor any edge.
pub proof fn lemma_noted(graph: GraphView, node: usize)
    requires
        graph.wf(),
        graph.noted(node).nodes.len() <= usize::MAX,
    ensures
        graph.noted(node).wf(),
        graph.noted(node).nodes.contains(node),
        forall|x: usize| #[trigger]
            graph.noted(node).nodes.contains(x) <==> graph.nodes.contains(x) || x == node,
        forall|x: usize| #[trigger]
            graph.nodes.contains(x) ==> graph.noted(node).nodes.index_of(x) == graph.nodes.index_of(
                x,
            ),
        !graph.nodes.contains(node) ==> graph.noted(node).nodes.index_of(node) == graph.nodes.len()
            && graph.noted(node).neighbours(node) =~= Seq::<usize>::empty(),
        forall|x: usize| #[trigger]
            graph.nodes.contains(x) ==> graph.noted(node).neighbours(x) == graph.neighbours(x),
{
    let after = graph.noted(node);
    if !graph.nodes.contains(node) {
        let n = graph.nodes.len() as int;
        assert(after.nodes[n] == node);
        assert forall|i: int, j: int|
            0 <= i < after.nodes.len() && 0 <= j < after.nodes.len() && i != j implies after.nodes[i]
            != after.nodes[j] by {
            if i < n {
                assert(graph.nodes.contains(graph.nodes[i]));
            }
            if j < n {
                assert(graph.nodes.contains(graph.nodes[j]));
            }
        }
        assert forall|x: usize| #[trigger] after.nodes.contains(x) implies graph.nodes.contains(x)
            || x == node by {
            let i = after.nodes.index_of(x);
            assert(after.nodes[i] == x);
            if i < n {
                assert(graph.nodes[i] == x);
            }
        }
        assert forall|x: usize| #[trigger] graph.nodes.contains(x) implies after.nodes.contains(x)
            && after.nodes.index_of(x) == graph.nodes.index_of(x) by {
            let i = graph.nodes.index_of(x);
            assert(graph.nodes[i] == x);
            assert(after.nodes[i] == x);
            let j = after.nodes.index_of(x);
            assert(after.nodes[j] == x);
        }
        let found = after.nodes.index_of(node);
        assert(after.nodes[found] == node);
        assert(found == n);
        assert forall|p: int, i: int|
            0 <= p < after.edges.len() && 0 <= i < after.edges[p].len() implies {
            &&& (#[trigger] after.edges[p][i]) < after.nodes.len()
            &&& after.edges[p][i] != p
            &&& after.edges[after.edges[p][i] as int].contains(p as usize)
        } by {
            assert(graph.edges[p][i] == after.edges[p][i]);
            assert(graph.edges[graph.edges[p][i] as int].contains(p as usize));
        }
        assert forall|x: usize| #[trigger] graph.nodes.contains(x) implies after.neighbours(x)
            == graph.neighbours(x) by {
            let p = graph.nodes.index_of(x);
            assert(graph.nodes[p] == x);
            assert forall|i: int| 0 <= i < graph.edges[p].len() implies after.neighbours(x)[i]
                == graph.neighbours(x)[i] by {
                assert(graph.edges[p][i] < graph.nodes.len());
            }
            assert(after.neighbours(x) =~= graph.neighbours(x));
        }
    }
}

/// An edge that comes makes its two ends known and neighbours of each other, and changes
/// nothing else.
pub proof fn lemma_with_edge(graph: GraphView, a: usize, b: usize)
    requires
        graph.wf(),
        graph.with_edge(a, b).nodes.len() <= usize::MAX,
    ensures
        graph.with_edge(a, b).wf(),
        forall|x: usize| #[trigger]
            graph.with_edge(a, b).nodes.contains(x) <==> graph.nodes.contains(x) || x == a || x
                == b,
        forall|x: usize, y: usize| #[trigger]
            graph.with_edge(a, b).adjacent(x, y) <==> graph.adjacent(x, y) || (a != b && ((x == a
                && y == b) || (x == b && y == a))),
        graph.with_edge(a, b).nodes == graph.noted(a).noted(b).nodes,
{
    assert(graph.noted(a).nodes.len() <= graph.noted(a).noted(b).nodes.len());
    lemma_noted(graph, a);
    let one = graph.noted(a);
    lemma_noted(one, b);
    let both = one.noted(b);
    let after = graph.with_edge(a, b);
    if a != b {
        let p = both.nodes.index_of(a);
        let q = both.nodes.index_of(b);
        assert(both.nodes[p] == a);
        assert(both.nodes[q] == b);
        assert(after == both.linked(p, q));
        assert forall|r: int, i: int|
            0 <= r < after.edges.len() && 0 <= i < after.edges[r].len() implies {
            &&& (#[trigger] after.edges[r][i]) < after.nodes.len()
            &&& after.edges[r][i] != r
            &&& after.edges[after.edges[r][i] as int].contains(r as usize)
        } by {
            let nb = after.edges[r][i] as int;
            if i < both.edges[r].len() {
                assert(both.edges[r][i] == nb);
                let back = choose|k: int|
                    0 <= k < both.edges[nb].len() && both.edges[nb][k] == r as usize;
                assert(after.edges[nb][back] == r as usize);
            } else if r == p {
                assert(after.edges[q][after.edges[q].len() - 1] == p as usize);
            } else {
                assert(after.edges[p][after.edges[p].len() - 1] == q as usize);
            }
        }
        assert forall|x: usize| #[trigger] both.nodes.contains(x) implies after.neighbours(x) == (
        if x == a {
            both.neighbours(x).push(b)
        } else if x == b {
            both.neighbours(x).push(a)
        } else {
            both.neighbours(x)
        }) by {
            let r = both.nodes.index_of(x);
            assert(both.nodes[r] == x);
            let goal = if x == a {
                both.neighbours(x).push(b)
            } else if x == b {
                both.neighbours(x).push(a)
            } else {
                both.neighbours(x)
            };
            assert(after.neighbours(x).len() == goal.len());
            assert forall|i: int| 0 <= i < goal.len() implies after.neighbours(x)[i] == goal[i] by {
                if i < both.edges[r].len() {
                    assert(after.edges[r][i] == both.edges[r][i]);
                }
            }
            assert(after.neighbours(x) =~= goal);
        }
        assert forall|x: usize, y: usize| #[trigger]
            after.adjacent(x, y) <==> graph.adjacent(x, y) || (a != b && ((x == a && y == b) || (x
                == b && y == a))) by {
            if after.adjacent(x, y) {
                let i = after.neighbours(x).index_of(y);
                assert(after.neighbours(x)[i] == y);
                assert(both.nodes.contains(x));
                if i < both.neighbours(x).len() {
                    assert(both.neighbours(x)[i] == y);
                    assert(both.neighbours(x).contains(y));
                    if graph.nodes.contains(x) {
                        assert(one.nodes.contains(x));
                        assert(one.neighbours(x) == graph.neighbours(x));
                        assert(both.neighbours(x) == one.neighbours(x));
                    }
                    if !graph.nodes.contains(x) {
                        assert(one.nodes.contains(x) || x == b);
                        if !one.nodes.contains(x) {
                            assert(both.neighbours(x) =~= Seq::<usize>::empty());
                        } else {
                            assert(x == a);
                            assert(one.neighbours(x) =~= Seq::<usize>::empty());
                        }
                    }
                }
            }
            if graph.adjacent(x, y) {
                let i = graph.neighbours(x).index_of(y);
                assert(graph.neighbours(x)[i] == y);
                assert(graph.nodes.contains(x));
                assert(one.nodes.contains(x));
                assert(one.neighbours(x) == graph.neighbours(x));
                assert(both.nodes.contains(x));
                assert(both.neighbours(x) == one.neighbours(x));
                assert(both.neighbours(x)[i] == y);
                assert(after.neighbours(x)[i] == y);
            }
            if a != b && x == a && y == b {
                assert(after.neighbours(x)[both.neighbours(x).len() as int] == y);
            }
            if a != b && x == b && y == a {
                assert(after.neighbours(x)[both.neighbours(x).len() as int] == y);
            }
        }
    } else {
        assert forall|x: usize, y: usize| #[trigger]
            after.adjacent(x, y) <==> graph.adjacent(x, y) by {
            if after.adjacent(x, y) {
                if !graph.nodes.contains(x) {
                    assert(after.neighbours(x) =~= Seq::<usize>::empty());
                    let i = after.neighbours(x).index_of(y);
                }
            }
        }
    }
}

/// Whether group `c` of `comps` holds `node`.
pub open spec fn comp_has(comps: Seq<Component<usize>>, c: int, node: usize) -> bool {
    0 <= c < comps.len() && comps[c].walked().contains(node)
}

/// Whether a group before group `c` holds `node`.
pub open spec fn held_before(comps: Seq<Component<usize>>, c: int, node: usize) -> bool {
    exists|d: int| d < c && comp_has(comps, d, node)
}

/// Whether `comps` are the connected groups of `graph`, each with a walk over it.
///
/// Every node is reached by exactly one walk, and exactly once. Each edge of a walk is an
/// edge of the graph and leaves from a node that the walk has reached before. No edge of
/// the graph leads out of a group. The groups come in the order of their first nodes, and
/// each starts at the first node that no earlier group holds.
pub open spec fn spans(graph: GraphView, comps: Seq<Component<usize>>) -> bool {
    &&& forall|c: int| 0 <= c < comps.len() ==> (#[trigger] comps[c]).walked().no_duplicates()
    &&& forall|c: int, node: usize| #[trigger]
        comp_has(comps, c, node) ==> graph.nodes.contains(node)
    &&& forall|node: usize| #[trigger]
        graph.nodes.contains(node) ==> exists|c: int| comp_has(comps, c, node)
    &&& forall|c: int, d: int, node: usize|
        #[trigger] comp_has(comps, c, node) && #[trigger] comp_has(comps, d, node) ==> c == d
    &&& forall|c: int, k: int|
        0 <= c < comps.len() && 0 <= k < comps[c].seq.len() ==> {
            &&& graph.adjacent((#[trigger] comps[c].seq[k]).0, comps[c].seq[k].1)
            &&& comps[c].walked().take(k + 1).contains(comps[c].seq[k].0)
        }
    &&& forall|c: int, a: usize, b: usize|
        #[trigger] comp_has(comps, c, a) && #[trigger] graph.adjacent(a, b) ==> comp_has(
            comps,
            c,
            b,
        )
    &&& forall|c: int, q: int|
        0 <= c < comps.len() && 0 <= q < graph.nodes.index_of(comps[c].start) ==> #[trigger] held_before(
            comps,
            c,
            graph.nodes[q],
        )
}

/// How many marks are not set.
pub open spec fn unmarked(marks: Seq<bool>) -> nat
    decreases marks.len(),
{
    if marks.len() == 0 {
        0
    } else {
        unmarked(marks.drop_last()) + (if marks.last() {
            0nat
        } else {
            1nat
        })
    }
}

/// Setting a mark leaves one unset mark fewer.
pub proof fn lemma_mark(marks: Seq<bool>, v: int)
    requires
        0 <= v < marks.len(),
        !marks[v],
    ensures
        unmarked(marks.update(v, true)) + 1 == unmarked(marks),
    decreases marks.len(),
{
    if v == marks.len() - 1 {
        assert(marks.update(v, true).drop_last() =~= marks.drop_last());
    } else {
        assert(marks.update(v, true).drop_last() =~= marks.drop_last().update(v, true));
        lemma_mark(marks.drop_last(), v);
    }
}

/// The edges that leave the node at position `v`, each as the position of that node and
/// the position of a neighbour, in the order in which the edges came.
pub open spec fn expansion(graph: GraphView, v: int) -> Seq<(usize, usize)> {
    Seq::new(graph.edges[v].len(), |i: int| (v as usize, graph.edges[v][i]))
}

/// Goes on with a breadth-first walk: `queue` holds the edges that are still to be looked
/// at, `visited` marks the nodes that were reached, and `seq` holds the edges by which
/// they were reached. The edge at the front of the queue is taken out. If it leads to a
/// node that is not marked, that node is marked, the edge goes to the end of `seq`, and
/// the edges that leave the node go to the end of the queue. The walk ends when the queue
/// is empty, and gives `seq` and the marks.
pub open spec fn walk_on(
    graph: GraphView,
    queue: Seq<(usize, usize)>,
    visited: Seq<bool>,
    seq: Seq<(usize, usize)>,
) -> (Seq<(usize, usize)>, Seq<bool>)
    decreases unmarked(visited), queue.len(),
{
    if queue.len() == 0 {
        (seq, visited)
    } else {
        let prev = queue[0].0 as int;
        let curr = queue[0].1 as int;
        if curr < visited.len() && !visited[curr] {
            proof {
                lemma_mark(visited, curr);
            }
            walk_on(
                graph,
                queue.drop_first() + expansion(graph, curr),
                visited.update(curr, true),
                seq.push((graph.nodes[prev], graph.nodes[curr])),
            )
        } else {
            walk_on(graph, queue.drop_first(), visited, seq)
        }
    }
}

/// The breadth-first walks that start at the nodes from position `s` on, where `visited`
/// marks the nodes that earlier walks have reached: a node that is marked starts no
/// walk, and any other starts the next one.
pub open spec fn walks_from(graph: GraphView, s: int, visited: Seq<bool>) -> Seq<WalkView>
    decreases graph.nodes.len() - s,
{
    if s < 0 || s >= graph.nodes.len() {
        Seq::empty()
    } else if s < visited.len() && visited[s] {
        walks_from(graph, s + 1, visited)
    } else {
        let done = walk_on(graph, expansion(graph, s), visited.update(s, true), Seq::empty());
        seq![WalkView { start: graph.nodes[s], seq: done.0 }] + walks_from(graph, s + 1, done.1)
    }
}

/// The breadth-first walks over the connected groups of a graph, in the order of their
/// first nodes.
pub open spec fn walks(graph: GraphView) -> Seq<WalkView> {
    walks_from(graph, 0, Seq::new(graph.nodes.len(), |v: int| false))
}

/// A node is marked exactly when it has a group, and groups are numbered below `count`.
pub open spec fn marks_agree(visited: Seq<bool>, comp_of: Seq<int>, count: int) -> bool {
    &&& visited.len() == comp_of.len()
    &&& forall|v: int| 0 <= v < visited.len() ==> (#[trigger] visited[v] <==> comp_of[v] >= 0)
    &&& forall|v: int| 0 <= v < comp_of.len() ==> -1 <= #[trigger] comp_of[v] < count
}

/// `order` lists, once each, the positions of the nodes of group `c`.
pub open spec fn order_of(order: Seq<int>, comp_of: Seq<int>, c: int) -> bool {
    &&& order.no_duplicates()
    &&& forall|j: int|
        0 <= j < order.len() ==> 0 <= #[trigger] order[j] < comp_of.len() && comp_of[order[j]]
            == c
    &&& forall|v: int| 0 <= v < comp_of.len() && #[trigger] comp_of[v] == c ==> order.contains(v)
}

/// Whether the node at position `q` is among the neighbours of the node at position `p`.
pub open spec fn leads(graph: GraphView, p: int, q: int) -> bool {
    exists|i: int| 0 <= i < graph.edges[p].len() && #[trigger] graph.edges[p][i] as int == q
}

/// `seq` names the nodes at the positions `order`, one after the other, each with a node
/// that stands earlier in `order` and has it as a neighbour.
pub open spec fn follows(
    graph: GraphView,
    order: Seq<int>,
    start: usize,
    seq: Seq<(usize, usize)>,
) -> bool {
    &&& order.len() == seq.len() + 1
    &&& start == graph.nodes[order[0]]
    &&& forall|k: int|
        0 <= k < seq.len() ==> {
            &&& (#[trigger] seq[k]).1 == graph.nodes[order[k + 1]]
            &&& exists|j: int|
                0 <= j <= k && seq[k].0 == graph.nodes[#[trigger] order[j]] && leads(
                    graph,
                    order[j],
                    order[k + 1],
                )
        }
}

/// Every neighbour of the node at position `v` is in the group of that node.
pub open spec fn closed(graph: GraphView, comp_of: Seq<int>, v: int) -> bool {
    forall|i: int|
        0 <= i < graph.edges[v].len() ==> comp_of[#[trigger] graph.edges[v][i] as int]
            == comp_of[v]
}

/// Each neighbour of the node at position `v` is marked or waits in the queue as a
/// neighbour of that node.
pub open spec fn pending(
    graph: GraphView,
    visited: Seq<bool>,
    queue: Seq<(usize, usize)>,
    v: int,
) -> bool {
    forall|i: int|
        0 <= i < graph.edges[v].len() ==> visited[#[trigger] graph.edges[v][i] as int]
            || queue.contains((v as usize, graph.edges[v][i]))
}

/// What is known of the groups that are complete: each has its walk, starts at the first
/// node that no earlier group holds, and no edge leads out of it.
pub open spec fn groups_done(
    graph: GraphView,
    comps: Seq<Component<usize>>,
    comp_of: Seq<int>,
    orders: Seq<Seq<int>>,
) -> bool {
    &&& orders.len() == comps.len()
    &&& comp_of.len() == graph.nodes.len()
    &&& forall|c: int|
        0 <= c < comps.len() ==> {
            &&& order_of(#[trigger] orders[c], comp_of, c)
            &&& follows(graph, orders[c], comps[c].start, comps[c].seq@)
            &&& forall|v: int| 0 <= v < orders[c][0] ==> 0 <= #[trigger] comp_of[v] < c
        }
    &&& forall|v: int|
        0 <= v < comp_of.len() && #[trigger] comp_of[v] >= 0 ==> closed(graph, comp_of, v)
}

/// The nodes that a walk names are the nodes at the positions of its order.
pub proof fn lemma_walked(graph: GraphView, order: Seq<int>, comp: Component<usize>)
    requires
        follows(graph, order, comp.start, comp.seq@),
    ensures
        comp.walked().len() == order.len(),
        forall|j: int| 0 <= j < order.len() ==> #[trigger] comp.walked()[j] == graph.nodes[order[j]],
{
    assert forall|j: int| 0 <= j < order.len() implies #[trigger] comp.walked()[j]
        == graph.nodes[order[j]] by {
        if j > 0 {
            assert(comp.seq@[j - 1].1 == graph.nodes[order[j]]);
        }
    }
}

/// Complete groups that leave no node without a group are the connected groups of the
/// graph.
pub proof fn lemma_groups_span(
    graph: GraphView,
    comps: Seq<Component<usize>>,
    comp_of: Seq<int>,
    orders: Seq<Seq<int>>,
)
    requires
        graph.wf(),
        groups_done(graph, comps, comp_of, orders),
        forall|v: int| 0 <= v < comp_of.len() ==> 0 <= #[trigger] comp_of[v] < comps.len(),
    ensures
        spans(graph, comps),
{
    let nodes = graph.nodes;
    assert forall|c: int| 0 <= c < comps.len() implies {
        &&& comps[c].walked().len() == orders[c].len()
        &&& forall|j: int|
            0 <= j < orders[c].len() ==> #[trigger] comps[c].walked()[j] == nodes[orders[c][j]]
    } by {
        assert(order_of(orders[c], comp_of, c));
        lemma_walked(graph, orders[c], comps[c]);
    }
    // A group holds a node exactly when the node has the number of the group.
    assert forall|c: int, node: usize| #[trigger] comp_has(comps, c, node) implies nodes.contains(
        node,
    ) && comp_of[nodes.index_of(node)] == c by {
        let j = comps[c].walked().index_of(node);
        assert(comps[c].walked()[j] == node);
        assert(order_of(orders[c], comp_of, c));
        let v = orders[c][j];
        assert(nodes[v] == node);
        assert(nodes.contains(node));
        let found = nodes.index_of(node);
        assert(nodes[found] == node);
    }
    assert forall|c: int, v: int|
        0 <= c < comps.len() && 0 <= v < nodes.len() && comp_of[v] == c implies #[trigger] comp_has(
        comps,
        c,
        #[trigger] nodes[v],
    ) by {
        assert(order_of(orders[c], comp_of, c));
        assert(orders[c].contains(v));
        let j = orders[c].index_of(v);
        assert(orders[c][j] == v);
        assert(comps[c].walked()[j] == nodes[v]);
    }
    assert forall|c: int| 0 <= c < comps.len() implies (#[trigger] comps[c]).walked().no_duplicates() by {
        assert(order_of(orders[c], comp_of, c));
        assert forall|i: int, j: int|
            0 <= i < comps[c].walked().len() && 0 <= j < comps[c].walked().len() && i != j implies comps[c].walked()[i]
            != comps[c].walked()[j] by {
            assert(orders[c][i] != orders[c][j]);
        }
    }
    assert forall|node: usize| #[trigger] nodes.contains(node) implies exists|c: int|
        comp_has(comps, c, node) by {
        let v = nodes.index_of(node);
        assert(nodes[v] == node);
        assert(comp_has(comps, comp_of[v], nodes[v]));
    }
    assert forall|c: int, k: int| 0 <= c < comps.len() && 0 <= k < comps[c].seq.len() implies {
        &&& graph.adjacent((#[trigger] comps[c].seq[k]).0, comps[c].seq[k].1)
        &&& comps[c].walked().take(k + 1).contains(comps[c].seq[k].0)
    } by {
        assert(order_of(orders[c], comp_of, c));
        assert(follows(graph, orders[c], comps[c].start, comps[c].seq@));
        assert(comps[c].seq@[k] == comps[c].seq[k]);
        let j = choose|j: int|
            0 <= j <= k && comps[c].seq@[k].0 == nodes[#[trigger] orders[c][j]] && leads(
                graph,
                orders[c][j],
                orders[c][k + 1],
            );
        let parent = orders[c][j];
        let child = orders[c][k + 1];
        assert(nodes[parent] == comps[c].seq[k].0);
        assert(nodes[child] == comps[c].seq[k].1);
        assert(nodes.contains(nodes[parent]));
        assert(nodes.contains(nodes[child]));
        let found_parent = nodes.index_of(nodes[parent]);
        let found_child = nodes.index_of(nodes[child]);
        assert(nodes[found_parent] == nodes[parent]);
        assert(found_parent == parent);
        let i = choose|i: int|
            0 <= i < graph.edges[parent].len() && #[trigger] graph.edges[parent][i] as int == child;
        assert(graph.neighbours(nodes[parent])[i] == nodes[child]);
        assert(comps[c].walked().take(k + 1)[j] == comps[c].seq[k].0);
    }
    assert forall|c: int, a: usize, b: usize|
        #[trigger] comp_has(comps, c, a) && #[trigger] graph.adjacent(a, b) implies comp_has(
        comps,
        c,
        b,
    ) by {
        let p = nodes.index_of(a);
        assert(nodes[p] == a);
        assert(comp_of[p] == c);
        assert(closed(graph, comp_of, p));
        let i = graph.neighbours(a).index_of(b);
        assert(graph.neighbours(a)[i] == b);
        let q = graph.edges[p][i] as int;
        assert(nodes[q] == b);
        assert(comp_of[q] == c);
        assert(comp_has(comps, c, nodes[q]));
    }
    assert forall|c: int, q: int|
        0 <= c < comps.len() && 0 <= q < nodes.index_of(comps[c].start) implies #[trigger] held_before(
        comps,
        c,
        nodes[q],
    ) by {
        assert(order_of(orders[c], comp_of, c));
        assert(follows(graph, orders[c], comps[c].start, comps[c].seq@));
        let first = orders[c][0];
        assert(nodes[first] == comps[c].start);
        assert(nodes.contains(comps[c].start));
        let found = nodes.index_of(comps[c].start);
        assert(nodes[found] == comps[c].start);
        assert(found == first);
        assert(0 <= comp_of[q] < c);
        assert(comp_has(comps, comp_of[q], nodes[q]));
    }
}

impl View for TopologicalSort {
    type V = GraphView;

    closed spec fn view(&self) -> GraphView {
        GraphView { nodes: self.nodes@, edges: Seq::new(self.edges.len() as nat, |p: int| self.edges[p]@) }
    }
}

impl Default for TopologicalSort {
    fn default() -> (graph: TopologicalSort)
        ensures
            graph.wf(),
            graph@ == GraphView::empty(),
    {
        TopologicalSort::new()
    }
}

impl TopologicalSort {
    /// The graph is well-formed, and the index knows each node by its position.
    pub closed spec fn wf(&self) -> bool {
        &&& self@.wf()
        &&& forall|node: usize| #[trigger]
            self.index@.contains_key(node) <==> self.nodes@.contains(node)
        &&& forall|p: int|
            0 <= p < self.nodes.len() ==> self.index@[#[trigger] self.nodes[p]] == p
    }

    pub proof fn lemma_view_wf(&self)
        requires
            self.wf(),
        ensures
            self@.wf(),
    {
    }

    /// A graph without nodes.
    pub fn new() -> (graph: TopologicalSort)
        ensures
            graph.wf(),
            graph@ == GraphView::empty(),
    {
        let graph = TopologicalSort { nodes: Vec::new(), index: HashMap::new(), edges: Vec::new() };
        assert(graph@.edges =~= Seq::empty());
        graph
    }

    /// The position of `node`, which becomes known if it was not.
    fn note(&mut self, node: usize) -> (p: usize)
        requires
            old(self).wf(),
        ensures
            final(self).wf(),
            final(self)@ == old(self)@.noted(node),
            p < final(self)@.nodes.len(),
            final(self)@.nodes[p as int] == node,
            final(self)@.nodes.index_of(node) == p,
    {
        match self.index.get(&node) {
            Some(p) => {
                let p = *p;
                proof {
                    let found = self.nodes@.index_of(node);
                    assert(self.nodes@[found] == node);
                    assert(self.index@[self.nodes[found]] == found);
                }
                p
            },
            None => {
                let p = self.nodes.len();
                let ghost before = *self;
                self.nodes.push(node);
                self.edges.push(Vec::new());
                self.index.insert(node, p);
                proof {
                    assert(self@.edges =~= before@.edges.push(Seq::empty()));
                    assert(self.nodes@[p as int] == node);
                    assert forall|i: int, j: int|
                        0 <= i < self.nodes@.len() && 0 <= j < self.nodes@.len() && i != j implies self.nodes@[i]
                        != self.nodes@[j] by {
                        if i < p {
                            assert(before.nodes@.contains(before.nodes@[i]));
                        }
                        if j < p {
                            assert(before.nodes@.contains(before.nodes@[j]));
                        }
                    }
                    let found = self.nodes@.index_of(node);
                    assert(self.nodes@.contains(node));
                    assert(self.nodes@[found] == node);
                    assert forall|other: usize| #[trigger]
                        self.index@.contains_key(other) <==> self.nodes@.contains(other) by {
                        if other != node {
                            if before.nodes@.contains(other) {
                                let i = before.nodes@.index_of(other);
                                assert(self.nodes@[i] == other);
                            }
                            if self.nodes@.contains(other) {
                                let i = self.nodes@.index_of(other);
                                assert(before.nodes@[i] == other);
                            }
                        }
                    }
                    assert forall|q: int| 0 <= q < self.nodes.len() implies self.index@[#[trigger] self.nodes[q]]
                        == q by {
                        if q < p {
                            assert(before.nodes@.contains(before.nodes@[q]));
                            assert(before.index@[before.nodes[q]] == q);
                        }
                    }
                    assert forall|q: int, i: int|
                        0 <= q < self@.edges.len() && 0 <= i < self@.edges[q].len() implies {
                        &&& (#[trigger] self@.edges[q][i]) < self@.nodes.len()
                        &&& self@.edges[q][i] != q
                        &&& self@.edges[self@.edges[q][i] as int].contains(q as usize)
                    } by {
                        assert(before@.edges[q][i] == self@.edges[q][i]);
                        assert(before@.edges[before@.edges[q][i] as int].contains(q as usize));
                    }
                }
                p
            },
        }
    }

    /// The connected groups of the graph, in the order of their first nodes. Each group is
    /// walked breadth first from its first node, with a queue of the edges that are still
    /// to be looked at.
    pub fn sort(self) -> (comps: Vec<Component<usize>>)
        requires
            self.wf(),
        ensures
            spans(self@, comps@),
            walk_views(comps@) == walks(self@),
    {
        let n = self.nodes.len();
        let ghost graph = self@;
        let mut visited: Vec<bool> = Vec::new();
        while visited.len() < n
            invariant
                visited.len() <= n,
                forall|v: int| 0 <= v < visited.len() ==> !#[trigger] visited[v],
            decreases n - visited.len(),
        {
            visited.push(false);
        }
        let mut comps: Vec<Component<usize>> = Vec::new();
        proof {
            assert(visited@ =~= Seq::new(graph.nodes.len(), |v: int| false));
            assert(walk_views(comps@) + walks_from(graph, 0, visited@) =~= walks(graph));
        }
        let ghost mut comp_of: Seq<int> = Seq::new(n as nat, |v: int| -1int);
        let ghost mut orders: Seq<Seq<int>> = Seq::empty();
        let mut s: usize = 0;
        while s < n
            invariant
                self.wf(),
                graph == self@,
                n == graph.nodes.len(),
                s <= n,
                marks_agree(visited@, comp_of, comps.len() as int),
                groups_done(graph, comps@, comp_of, orders),
                forall|v: int| 0 <= v < s ==> #[trigger] visited[v],
                walk_views(comps@) + walks_from(graph, s as int, visited@) == walks(graph),
            decreases n - s,
        {
            if !visited[s] {
                let ghost c = comps.len() as int;
                let ghost base = comp_of;
                proof {
                    assert forall|v: int| 0 <= v < s implies #[trigger] base[v] >= 0 by {
                        assert(visited[v]);
                    }
                    assert(base[s as int] == -1);
                }
                let ghost rest = walks_from(graph, s as int, visited@);
                let ghost marks0 = visited@;
                visited.set(s, true);
                let mut seq: Vec<(usize, usize)> = Vec::new();
                let mut queue: VecDeque<(usize, usize)> = VecDeque::new();
                let ghost mut order: Seq<int> = seq![s as int];
                proof {
                    comp_of = comp_of.update(s as int, c);
                }
                self.expand(s, &mut queue, Ghost(visited@));
                let ghost whole = walk_on(graph, expansion(graph, s as int), visited@, Seq::empty());
                proof {
                    assert(queue@ =~= expansion(graph, s as int));
                    assert(seq@ =~= Seq::<(usize, usize)>::empty());
                    assert(rest == seq![WalkView { start: graph.nodes[s as int], seq: whole.0 }]
                        + walks_from(graph, s + 1, whole.1));
                }
                proof {
                    assert(order[0] == s);
                    assert forall|v: int| 0 <= v < n && #[trigger] comp_of[v] == c implies order.contains(
                        v,
                    ) by {
                        assert(base[v] < c);
                    }
                    assert forall|v: int| #[trigger] order.contains(v) implies pending(
                        graph,
                        visited@,
                        queue@,
                        v,
                    ) by {
                        let j = order.index_of(v);
                        assert(order[j] == v);
                    }
                    assert forall|j: int| 0 <= j < queue@.len() implies order.contains(
                        (#[trigger] queue@[j]).0 as int,
                    ) && leads(graph, queue@[j].0 as int, queue@[j].1 as int) by {
                        assert(queue@[j].0 == s);
                    }
                }
                loop
                    invariant
                        self.wf(),
                        graph == self@,
                        n == graph.nodes.len(),
                        s < n,
                        c == comps.len(),
                        marks_agree(visited@, comp_of, c + 1),
                        base.len() == n,
                        comp_of.len() == n,
                        groups_done(graph, comps@, base, orders),
                        forall|v: int| 0 <= v < n ==> -1 <= #[trigger] base[v] < c,
                        forall|v: int| 0 <= v < n ==> (#[trigger] comp_of[v] == c || comp_of[v] == base[v]),
                        forall|v: int| 0 <= v < n && #[trigger] comp_of[v] == c ==> base[v] == -1,
                        forall|v: int| 0 <= v < s ==> #[trigger] base[v] >= 0,
                        order_of(order, comp_of, c),
                        order.len() >= 1,
                        order[0] == s,
                        follows(graph, order, graph.nodes[s as int], seq@),
                        forall|j: int|
                            0 <= j < queue@.len() ==> order.contains((#[trigger] queue@[j]).0 as int)
                                && leads(graph, queue@[j].0 as int, queue@[j].1 as int),
                        forall|v: int| #[trigger] order.contains(v) ==> pending(graph, visited@, queue@, v),
                        walk_on(graph, queue@, visited@, seq@) == whole,
                    ensures
                        queue@.len() == 0,
                        whole == (seq@, visited@),
                    decreases unmarked(visited@), queue@.len(),
                {
                    let ghost full = queue@;
                    let (prev, curr) = match queue.pop_front() {
                        Some(front) => front,
                        None => {
                            break ;
                        },
                    };
                    let ghost waiting = queue@;
                    proof {
                        assert(waiting =~= full.drop_first());
                        assert(full[0] == (prev, curr));
                        assert(order.contains(prev as int));
                        let at = order.index_of(prev as int);
                        assert(order[at] == prev);
                        assert(leads(graph, prev as int, curr as int));
                        let i = choose|i: int|
                            0 <= i < graph.edges[prev as int].len() && #[trigger] graph.edges[prev as int][i] as int
                                == curr;
                        assert(graph.edges[prev as int][i] < graph.nodes.len());
                    }
                    if !visited[curr] {
                        let ghost marks = visited@;
                        visited.set(curr, true);
                        proof {
                            lemma_mark(marks, curr as int);
                            comp_of = comp_of.update(curr as int, c);
                        }
                        self.expand(curr, &mut queue, Ghost(visited@));
                        seq.push((self.nodes[prev], self.nodes[curr]));
                        proof {
                            assert(queue@ =~= waiting + expansion(graph, curr as int));
                        }
                        proof {
                            let grown = order.push(curr as int);
                            assert(!order.contains(curr as int));
                            assert(grown.no_duplicates()) by {
                                assert forall|i: int, j: int|
                                    0 <= i < grown.len() && 0 <= j < grown.len() && i != j implies grown[i]
                                    != grown[j] by {
                                    if i < order.len() {
                                        assert(order.contains(order[i]));
                                    }
                                    if j < order.len() {
                                        assert(order.contains(order[j]));
                                    }
                                }
                            }
                            assert forall|v: int| 0 <= v < n && #[trigger] comp_of[v] == c implies grown.contains(
                                v,
                            ) by {
                                if v == curr {
                                    assert(grown[order.len() as int] == v);
                                } else {
                                    let j = order.index_of(v);
                                    assert(order[j] == v);
                                    assert(grown[j] == v);
                                }
                            }
                            assert forall|k: int| 0 <= k < seq@.len() implies {
                                &&& (#[trigger] seq@[k]).1 == graph.nodes[grown[k + 1]]
                                &&& exists|j: int|
                                    0 <= j <= k && seq@[k].0 == graph.nodes[#[trigger] grown[j]]
                                        && leads(graph, grown[j], grown[k + 1])
                            } by {
                                if k == seq@.len() - 1 {
                                    let j = order.index_of(prev as int);
                                    assert(order[j] == prev);
                                    assert(grown[j] == prev);
                                } else {
                                    let j = choose|j: int|
                                        0 <= j <= k && seq@[k].0 == graph.nodes[#[trigger] order[j]]
                                            && leads(graph, order[j], order[k + 1]);
                                    assert(grown[j] == order[j]);
                                }
                            }
                            assert forall|j: int| 0 <= j < queue@.len() implies grown.contains(
                                (#[trigger] queue@[j]).0 as int,
                            ) && leads(graph, queue@[j].0 as int, queue@[j].1 as int) by {
                                if j < waiting.len() {
                                    assert(queue@[j] == waiting[j]);
                                    let at = order.index_of(waiting[j].0 as int);
                                    assert(grown[at] == order[at]);
                                } else {
                                    assert(grown[order.len() as int] == curr);
                                }
                            }
                            assert forall|v: int| #[trigger] grown.contains(v) implies pending(
                                graph,
                                visited@,
                                queue@,
                                v,
                            ) by {
                                if v != curr {
                                    let j = grown.index_of(v);
                                    assert(grown[j] == v);
                                    assert(order[j] == v);
                                    assert(order.contains(v));
                                    assert forall|i: int| 0 <= i < graph.edges[v].len() implies visited@[#[trigger] graph.edges[v][i] as int]
                                        || queue@.contains((v as usize, graph.edges[v][i])) by {
                                        let nb = graph.edges[v][i];
                                        if !marks[nb as int] && nb != curr {
                                            assert(pending(graph, marks, full, v));
                                            assert(full.contains((v as usize, nb)));
                                            let at = full.index_of((v as usize, nb));
                                            assert(full[at] == (v as usize, nb));
                                            assert(waiting[at - 1] == full[at]);
                                            assert(queue@[at - 1] == (v as usize, nb));
                                        }
                                    }
                                }
                            }
                            order = grown;
                        }
                    } else {
                        proof {
                            assert forall|v: int| #[trigger] order.contains(v) implies pending(
                                graph,
                                visited@,
                                queue@,
                                v,
                            ) by {
                                assert forall|i: int| 0 <= i < graph.edges[v].len() implies visited@[#[trigger] graph.edges[v][i] as int]
                                    || queue@.contains((v as usize, graph.edges[v][i])) by {
                                    let nb = graph.edges[v][i];
                                    if !visited@[nb as int] {
                                        assert(pending(graph, visited@, full, v));
                                        assert(full.contains((v as usize, nb)));
                                        let at = full.index_of((v as usize, nb));
                                        assert(full[at] == (v as usize, nb));
                                        assert(waiting[at - 1] == full[at]);
                                        assert(queue@[at - 1] == (v as usize, nb));
                                    }
                                }
                            }
                        }
                    }
                }
                let start = self.nodes[s];
                let ghost done = comps@;
                let ghost walks = orders;
                comps.push(Component { start, seq });
                proof {
                    assert(walk_views(comps@) =~= walk_views(done).push(
                        WalkView { start: graph.nodes[s as int], seq: whole.0 },
                    ));
                    assert(walk_views(comps@) + walks_from(graph, s + 1, visited@) =~= walk_views(done)
                        + rest);
                    orders = orders.push(order);
                    assert forall|v: int|
                        0 <= v < comp_of.len() && #[trigger] comp_of[v] >= 0 implies closed(
                        graph,
                        comp_of,
                        v,
                    ) by {
                        assert forall|i: int| 0 <= i < graph.edges[v].len() implies comp_of[#[trigger] graph.edges[v][i] as int]
                            == comp_of[v] by {
                            let nb = graph.edges[v][i] as int;
                            assert(graph.edges[nb].contains(v as usize));
                            let back = graph.edges[nb].index_of(v as usize);
                            assert(graph.edges[nb][back] == v);
                            if comp_of[v] == c {
                                assert(order.contains(v));
                                assert(pending(graph, visited@, queue@, v));
                                assert(visited@[nb]);
                                if comp_of[nb] != c {
                                    assert(base[nb] >= 0);
                                    assert(closed(graph, base, nb));
                                    assert(base[graph.edges[nb][back] as int] == base[nb]);
                                }
                            } else {
                                assert(base[v] >= 0);
                                assert(closed(graph, base, v));
                                assert(base[nb] == base[v]);
                            }
                        }
                    }
                    assert forall|d: int| 0 <= d < comps@.len() implies {
                        &&& order_of(#[trigger] orders[d], comp_of, d)
                        &&& follows(graph, orders[d], comps@[d].start, comps@[d].seq@)
                        &&& forall|v: int| 0 <= v < orders[d][0] ==> 0 <= #[trigger] comp_of[v] < d
                    } by {
                        if d < c {
                            assert(orders[d] == walks[d]);
                            assert(comps@[d] == done[d]);
                            assert(order_of(walks[d], base, d));
                            assert forall|j: int| 0 <= j < walks[d].len() implies 0
                                <= #[trigger] walks[d][j] < comp_of.len() && comp_of[walks[d][j]]
                                == d by {
                                assert(base[walks[d][j]] == d);
                            }
                            assert forall|v: int|
                                0 <= v < comp_of.len() && #[trigger] comp_of[v] == d implies walks[d].contains(
                                v,
                            ) by {
                                assert(base[v] == d);
                            }
                            assert forall|v: int| 0 <= v < walks[d][0] implies 0
                                <= #[trigger] comp_of[v] < d by {
                                assert(0 <= base[v] < d);
                            }
                        } else {
                            assert(orders[d] == order);
                            assert forall|v: int| 0 <= v < order[0] implies 0
                                <= #[trigger] comp_of[v] < d by {
                                assert(base[v] >= 0);
                            }
                        }
                    }
                }
            }
            s = s + 1;
        }
        proof {
            assert forall|v: int| 0 <= v < comp_of.len() implies 0 <= #[trigger] comp_of[v]
                < comps.len() by {
                assert(visited[v]);
            }
            lemma_groups_span(graph, comps@, comp_of, orders);
            assert(walk_views(comps@) + Seq::<WalkView>::empty() =~= walk_views(comps@));
        }
        comps
    }

    /// Puts every edge that leaves the node at position `v` at the end of the queue.
    fn expand(&self, v: usize, queue: &mut VecDeque<(usize, usize)>, Ghost(visited): Ghost<Seq<bool>>)
        requires
            self.wf(),
            v < self@.nodes.len(),
        ensures
            final(queue)@ == old(queue)@ + expansion(self@, v as int),
            final(queue)@.len() >= old(queue)@.len(),
            final(queue)@.take(old(queue)@.len() as int) == old(queue)@,
            forall|j: int|
                old(queue)@.len() <= j < final(queue)@.len() ==> (#[trigger] final(queue)@[j]).0 == v
                    && leads(self@, v as int, final(queue)@[j].1 as int),
            pending(self@, visited, final(queue)@, v as int),
    {
        let ghost before = queue@;
        let ghost graph = self@;
        let degree = self.edges[v].len();
        let mut i: usize = 0;
        while i < degree
            invariant
                self.wf(),
                graph == self@,
                v < graph.nodes.len(),
                degree == graph.edges[v as int].len(),
                i <= degree,
                queue@.len() == before.len() + i,
                queue@.take(before.len() as int) == before,
                forall|j: int|
                    before.len() <= j < queue@.len() ==> (#[trigger] queue@[j]) == (
                        v,
                        graph.edges[v as int][j - before.len()],
                    ),
            decreases degree - i,
        {
            let ghost waiting = queue@;
            queue.push_back((v, self.edges[v][i]));
            proof {
                assert(queue@.take(before.len() as int) =~= waiting.take(before.len() as int));
            }
            i = i + 1;
        }
        proof {
            assert(queue@ =~= before + expansion(graph, v as int)) by {
                assert forall|j: int| 0 <= j < queue@.len() implies queue@[j] == (before
                    + expansion(graph, v as int))[j] by {
                    if j < before.len() {
                        assert(queue@.take(before.len() as int)[j] == before[j]);
                    }
                }
            }
            assert forall|j: int| before.len() <= j < queue@.len() implies (#[trigger] queue@[j]).0
                == v && leads(graph, v as int, queue@[j].1 as int) by {
                assert(graph.edges[v as int][j - before.len()] as int == queue@[j].1 as int);
            }
            assert forall|k: int| 0 <= k < graph.edges[v as int].len() implies visited[#[trigger] graph.edges[v as int][k] as int]
                || queue@.contains((v, graph.edges[v as int][k])) by {
                assert(queue@[before.len() + k] == (v, graph.edges[v as int][k]));
            }
        }
    }

    /// Takes in the edge between `a` and `b`.
    pub fn insert_edge(&mut self, a: usize, b: usize)
        requires
            old(self).wf(),
        ensures
            final(self).wf(),
            final(self)@ == old(self)@.with_edge(a, b),
    {
        let p = self.note(a);
        if a != b {
            let q = self.note(b);
            let ghost both = self@;
            proof {
                assert(both.nodes[p as int] == a);
                assert(both.nodes.contains(a));
                let found = both.nodes.index_of(a);
                assert(both.nodes[found] == a);
            }
            self.edges[p].push(q);
            self.edges[q].push(p);
            proof {
                let after = self@;
                let goal = both.linked(p as int, q as int);
                assert forall|r: int| 0 <= r < after.edges.len() implies #[trigger] after.edges[r]
                    =~= goal.edges[r] by {}
                assert(after.edges =~= goal.edges);
                assert forall|r: int, i: int|
                    0 <= r < after.edges.len() && 0 <= i < after.edges[r].len() implies {
                    &&& (#[trigger] after.edges[r][i]) < after.nodes.len()
                    &&& after.edges[r][i] != r
                    &&& after.edges[after.edges[r][i] as int].contains(r as usize)
                } by {
                    let nb = after.edges[r][i] as int;
                    if i < both.edges[r].len() {
                        assert(both.edges[r][i] == nb);
                        let back = choose|k: int|
                            0 <= k < both.edges[nb].len() && both.edges[nb][k] == r as usize;
                        assert(after.edges[nb][back] == r as usize);
                    } else if r == p {
                        assert(nb == q);
                        assert(after.edges[q as int][after.edges[q as int].len() - 1] == p);
                    } else {
                        assert(nb == p);
                        assert(after.edges[p as int][after.edges[p as int].len() - 1] == q);
                    }
                }
            }
        }
    }
}

} // verus!
