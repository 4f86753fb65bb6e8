//! Building a set from a list of facts in any order.

use crate::chain::{lemma_position, lemma_span_extended, ChainView};
use crate::mutual_set::MutualSet;
use crate::coord::{fact_views, CoordTransform, FactView};
use crate::error::{InsertionError, InsertionErrorView};
use crate::names::{listed, names_get, names_insert, names_new, same_name};
use crate::seqs::{lemma_index_of, lemma_push_fresh};
use crate::topo_sort::{
    comp_has, lemma_with_edge, spans, walk_views, walks, Component, GraphView, TopologicalSort,
    WalkView,
};
use crate::transform::{close, composed, inverted, RigidTransform, TOLERANCE_PARTS};
use crate::tset::{lemma_group_of, TransformSet, TransformSetView};
use indexmap::IndexSet;
use std::collections::HashMap;
use vstd::prelude::*;
use vstd::std_specs::hash::group_hash_axioms;

verus! {

broadcast use group_hash_axioms;

/// Whether one of the first `upto` facts names the frame `name`.
pub open spec fn mentions(facts: Seq<FactView>, upto: int, name: Seq<char>) -> bool {
    exists|k: int| 0 <= k < upto && ((#[trigger] facts[k]).src == name || facts[k].dst == name)
}

/// Whether `fact`, read in one direction or the other, says that `tf` leads from `a` to
/// `b`.
pub open spec fn tells(fact: FactView, a: Seq<char>, b: Seq<char>, tf: RigidTransform) -> bool {
    ||| (fact.src == a && fact.dst == b && fact.tf == tf)
    ||| (fact.src == b && fact.dst == a && inverted(fact.tf) == tf)
}

/// Whether one of the first `upto` facts says that `tf` leads from `a` to `b`.
pub open spec fn relates(
    facts: Seq<FactView>,
    upto: int,
    a: Seq<char>,
    b: Seq<char>,
    tf: RigidTransform,
) -> bool {
    exists|k: int| 0 <= k < upto && tells(#[trigger] facts[k], a, b, tf)
}

/// Whether a fact relates a frame to itself by something else than the identity.
pub open spec fn bad_loop(fact: FactView) -> bool {
    fact.src == fact.dst && !close(fact.tf, RigidTransform::spec_identity(), TOLERANCE_PARTS)
}

/// Whether the edge before position `p` of the chain is what the ledger makes of `tf`,
/// a transform from the frame at position `q` to the frame at position `p`: `tf` itself
/// for the second frame of a chain, and after that `tf` behind the inverse of what lies
/// between `q` and the frame before `p`.
pub open spec fn hung(chain: ChainView, p: int, q: int, tf: RigidTransform) -> bool {
    chain.edges[p - 1] == (if p == 1 {
        tf
    } else {
        composed(inverted(chain.span(q, p - 1)), tf)
    })
}

/// Whether the frame at position `p` of the chain was hung by one of the facts on a frame
/// that stands before it.
pub open spec fn hangs(chain: ChainView, facts: Seq<FactView>, p: int) -> bool {
    exists|q: int, tf: RigidTransform|
        0 <= q < p && relates(facts, facts.len() as int, chain.names[q], chain.names[p], tf)
            && #[trigger] hung(chain, p, q, tf)
}

/// Whether every frame of the chain but the first was hung by one of the facts on a frame
/// that stands before it.
pub open spec fn spanning(chain: ChainView, facts: Seq<FactView>) -> bool {
    forall|p: int| 1 <= p < chain.names.len() ==> #[trigger] hangs(chain, facts, p)
}

/// Whether the groups are what the facts span: every slot holds a group, the known frames
/// are the frames that the facts name, each group is a chain in which every frame but
/// the first hangs by a fact on an earlier one, and no fact leads from one group to
/// another.
pub open spec fn built_from(view: TransformSetView, facts: Seq<FactView>) -> bool {
    &&& view.wf()
    &&& forall|g: int| 0 <= g < view.groups.len() ==> (#[trigger] view.groups[g]) is Some
    &&& forall|name: Seq<char>| #[trigger]
        view.contains(name) <==> mentions(facts, facts.len() as int, name)
    &&& forall|g: int|
        0 <= g < view.groups.len() ==> spanning((#[trigger] view.groups[g]).unwrap(), facts)
    &&& forall|k: int|
        0 <= k < facts.len() ==> view.group_of((#[trigger] facts[k]).src) is Some && view.group_of(
            facts[k].src,
        ) == view.group_of(facts[k].dst)
}

/// Whether the groups give, for the two frames of `fact`, a transform that the transform
/// of the fact agrees with.
pub open spec fn agrees(view: TransformSetView, fact: FactView) -> bool {
    match view.get(fact.src, fact.dst) {
        Some(expect) => close(fact.tf, expect, TOLERANCE_PARTS),
        None => false,
    }
}

/// Whether fact `k` is the first with which the groups do not agree.
pub open spec fn first_disagreement(view: TransformSetView, facts: Seq<FactView>, k: int) -> bool {
    &&& 0 <= k < facts.len()
    &&& !agrees(view, facts[k])
    &&& forall|j: int| 0 <= j < k ==> agrees(view, #[trigger] facts[j])
}

/// Whether fact `k` is the first that relates a frame to itself by something else than
/// the identity.
pub open spec fn first_bad_loop(facts: Seq<FactView>, k: int) -> bool {
    &&& 0 <= k < facts.len()
    &&& bad_loop(facts[k])
    &&& forall|j: int| 0 <= j < k ==> !bad_loop(#[trigger] facts[j])
}

/// Whether no fact relates a frame to itself by something else than the identity.
pub open spec fn no_bad_loop(facts: Seq<FactView>) -> bool {
    forall|k: int| 0 <= k < facts.len() ==> !bad_loop(#[trigger] facts[k])
}

/// Whether every fact agrees with what the groups give for its two frames.
pub open spec fn all_agree(view: TransformSetView, facts: Seq<FactView>) -> bool {
    forall|k: int| 0 <= k < facts.len() ==> agrees(view, #[trigger] facts[k])
}

/// The names that the first `upto` facts bring, in the order in which they come, the
/// source of a fact before its destination.
pub open spec fn names_of(facts: Seq<FactView>, upto: int) -> Seq<Seq<char>>
    decreases upto,
{
    if upto <= 0 {
        Seq::empty()
    } else {
        named(named(names_of(facts, upto - 1), facts[upto - 1].src), facts[upto - 1].dst)
    }
}

/// The graph of the first `upto` facts: the frames by their numbers, and an edge for each
/// fact between two frames.
pub open spec fn graph_of(facts: Seq<FactView>, upto: int) -> GraphView
    decreases upto,
{
    if upto <= 0 {
        GraphView::empty()
    } else {
        let names = names_of(facts, upto);
        graph_of(facts, upto - 1).with_edge(
            names.index_of(facts[upto - 1].src) as usize,
            names.index_of(facts[upto - 1].dst) as usize,
        )
    }
}

/// For each frame, by its number, the transforms to its neighbours that the first `upto`
/// facts give, a later fact over an earlier one.
pub open spec fn adj_of(facts: Seq<FactView>, upto: int) -> Seq<Map<usize, RigidTransform>>
    decreases upto,
{
    if upto <= 0 {
        Seq::empty()
    } else {
        let names = names_of(facts, upto);
        stepped_adj(
            adj_of(facts, upto - 1),
            names.len(),
            names.index_of(facts[upto - 1].src) as usize,
            names.index_of(facts[upto - 1].dst) as usize,
            facts[upto - 1].tf,
            facts[upto - 1].src != facts[upto - 1].dst,
        )
    }
}

/// The chain of a connected group after the first `upto` edges of its walk: a group of
/// one frame is that frame, and any other starts empty and takes the edges of the walk
/// one after the other, each with the transform between its two frames.
pub open spec fn grown(
    names: Seq<Seq<char>>,
    adj: Seq<Map<usize, RigidTransform>>,
    walk: WalkView,
    upto: int,
) -> ChainView
    decreases upto,
{
    if upto <= 0 {
        if walk.seq.len() == 0 {
            ChainView::single(names[walk.start as int])
        } else {
            ChainView::empty()
        }
    } else {
        let before = grown(names, adj, walk, upto - 1);
        let parent = walk.seq[upto - 1].0;
        let child = walk.seq[upto - 1].1;
        match before.inserted(names[parent as int], names[child as int], adj[parent as int][child]) {
            Ok(chain) => chain,
            Err(_) => before,
        }
    }
}

/// The groups that a list of facts spans: one for each connected group of the graph of
/// the facts, in the order of their first frames, each grown along the breadth-first walk
/// over it.
pub open spec fn forest(facts: Seq<FactView>) -> TransformSetView {
    let n = facts.len() as int;
    let found = walks(graph_of(facts, n));
    TransformSetView {
        groups: Seq::new(
            found.len(),
            |c: int| Some(grown(names_of(facts, n), adj_of(facts, n), found[c], found[c].seq.len() as int)),
        ),
    }
}

/// Whether an error is the one that a list of facts asks for: the first fact that relates
/// a frame to itself by something else than the identity, or, where there is none, the
/// first fact that does not agree with the groups that the facts span, with what these
/// give in its place.
pub open spec fn refused(facts: Seq<FactView>, e: InsertionErrorView) -> bool {
    match e {
        InsertionErrorView::InvalidSelfLoop { coord, actual } => exists|k: int| #[trigger]
            first_bad_loop(facts, k) && coord == facts[k].src && actual == facts[k].tf,
        InsertionErrorView::InconsistentTransform { expect, actual } => no_bad_loop(facts)
            && built_from(forest(facts), facts) && exists|k: int| #[trigger]
            first_disagreement(forest(facts), facts, k) && forest(facts).get(
                facts[k].src,
                facts[k].dst,
            ) == Some(expect) && actual == facts[k].tf,
        InsertionErrorView::DisjointCoordinates { .. } => false,
    }
}

/// What [`TransformSet::try_from_iter`] owes for a list of facts.
///
/// The first fact that relates a frame to itself by something else than the identity is
/// reported. Where there is none, the groups that the facts span are built, and the first
/// fact that does not agree with them is reported, with what they give in its place.
/// Where every fact agrees, the groups are handed out.
pub open spec fn built(facts: Seq<FactView>, r: Result<TransformSetView, InsertionErrorView>) -> bool {
    match r {
        Ok(view) => view == forest(facts) && built_from(view, facts) && no_bad_loop(facts)
            && all_agree(view, facts),
        Err(e) => refused(facts, e),
    }
}

/// What has been gathered from the first `upto` facts: the names in the order in which
/// they came, the graph of the frames by their numbers, and for each frame the transforms
/// to its neighbours.
pub open spec fn surveyed(
    names: Seq<Seq<char>>,
    graph: GraphView,
    adj: Seq<Map<usize, RigidTransform>>,
    facts: Seq<FactView>,
    upto: int,
) -> bool {
    &&& names.no_duplicates()
    &&& graph.wf()
    &&& graph.nodes.len() == names.len()
    &&& adj.len() == names.len()
    &&& forall|i: int| 0 <= i < graph.nodes.len() ==> #[trigger] graph.nodes[i] == i
    &&& forall|name: Seq<char>| #[trigger] names.contains(name) <==> mentions(facts, upto, name)
    &&& forall|a: int, b: usize|
        0 <= a < adj.len() && #[trigger] adj[a].contains_key(b) ==> b < names.len() && relates(
            facts,
            upto,
            names[a],
            names[b as int],
            adj[a][b],
        )
    &&& forall|a: usize, b: usize| #[trigger]
        graph.adjacent(a, b) ==> a < adj.len() && adj[a as int].contains_key(b)
    &&& forall|k: int|
        0 <= k < upto ==> {
            &&& !bad_loop(#[trigger] facts[k])
            &&& facts[k].src != facts[k].dst ==> graph.adjacent(
                names.index_of(facts[k].src) as usize,
                names.index_of(facts[k].dst) as usize,
            )
        }
}

/// The names after `name` has come: at the end if it is new.
pub open spec fn named(names: Seq<Seq<char>>, name: Seq<char>) -> Seq<Seq<char>> {
    if names.contains(name) {
        names
    } else {
        names.push(name)
    }
}

/// The transforms to the neighbours after a fact between the frames `a` and `b` has come:
/// a map for each of `count` frames, and, where `differ`, `tf` from `a` to `b` and its
/// inverse from `b` to `a`.
pub open spec fn stepped_adj(
    adj: Seq<Map<usize, RigidTransform>>,
    count: nat,
    a: usize,
    b: usize,
    tf: RigidTransform,
    differ: bool,
) -> Seq<Map<usize, RigidTransform>> {
    let grown = Seq::new(
        count,
        |x: int|
            if x < adj.len() {
                adj[x]
            } else {
                Map::empty()
            },
    );
    if differ {
        let forth = grown.update(a as int, grown[a as int].insert(b, tf));
        forth.update(b as int, forth[b as int].insert(a, inverted(tf)))
    } else {
        grown
    }
}

/// One fact more keeps the survey in order.
pub proof fn lemma_survey_step(
    names0: Seq<Seq<char>>,
    graph0: GraphView,
    adj0: Seq<Map<usize, RigidTransform>>,
    given: Seq<FactView>,
    k: int,
    names1: Seq<Seq<char>>,
    names2: Seq<Seq<char>>,
    a: usize,
    b: usize,
    graph: GraphView,
    adj: Seq<Map<usize, RigidTransform>>,
)
    requires
        surveyed(names0, graph0, adj0, given, k),
        0 <= k < given.len(),
        !bad_loop(given[k]),
        names1 == named(names0, given[k].src),
        names2 == named(names1, given[k].dst),
        a < names1.len(),
        names1[a as int] == given[k].src,
        b < names2.len(),
        names2[b as int] == given[k].dst,
        graph == graph0.with_edge(a, b),
        graph.wf(),
        adj == stepped_adj(adj0, names2.len(), a, b, given[k].tf, given[k].src != given[k].dst),
    ensures
        surveyed(names2, graph, adj, given, k + 1),
{
    let src = given[k].src;
    let dst = given[k].dst;
    let tf = given[k].tf;
    let fresh_a = !names0.contains(src);
    let fresh_b = !names1.contains(dst);
    if fresh_a {
        lemma_push_fresh(names0, src);
    }
    if fresh_b {
        lemma_push_fresh(names1, dst);
    }
    lemma_index_of(names1, a as int);
    lemma_index_of(names2, b as int);
    assert(names2[a as int] == src);
    lemma_index_of(names2, a as int);
    assert(src == dst <==> a == b);
    lemma_nodes_step(names0, graph0, names1, names2, a, b, graph, src, dst);
    lemma_with_edge(graph0, a, b);
    assert forall|name: Seq<char>| #[trigger]
        names2.contains(name) <==> mentions(given, k + 1, name) by {
        if names2.contains(name) {
            if names0.contains(name) {
                assert(mentions(given, k, name));
                let j = choose|j: int|
                    0 <= j < k && ((#[trigger] given[j]).src == name || given[j].dst == name);
                assert(given[j].src == name || given[j].dst == name);
            } else {
                assert(name == src || name == dst);
                assert(given[k].src == name || given[k].dst == name);
            }
        }
        if mentions(given, k + 1, name) {
            let j = choose|j: int|
                0 <= j < k + 1 && ((#[trigger] given[j]).src == name || given[j].dst == name);
            if j < k {
                assert(mentions(given, k, name));
                assert(names0.contains(name));
            } else {
                assert(name == src || name == dst);
            }
        }
    }
    assert forall|x: int, y: usize| 0 <= x < adj.len() && #[trigger] adj[x].contains_key(y) implies y
        < names2.len() && relates(given, k + 1, names2[x], names2[y as int], adj[x][y]) by {
        if src != dst && x == a && y == b {
            assert(tells(given[k], names2[x], names2[y as int], adj[x][y]));
        } else if src != dst && x == b && y == a {
            assert(tells(given[k], names2[x], names2[y as int], adj[x][y]));
        } else {
            assert(x < adj0.len() && adj0[x].contains_key(y) && adj0[x][y] == adj[x][y]);
            assert(relates(given, k, names0[x], names0[y as int], adj0[x][y]));
            let j = choose|j: int|
                0 <= j < k && tells(#[trigger] given[j], names0[x], names0[y as int], adj0[x][y]);
            assert(names0[x] == names2[x]);
            assert(names0[y as int] == names2[y as int]);
            assert(tells(given[j], names2[x], names2[y as int], adj[x][y]));
        }
    }
    assert forall|x: usize, y: usize| #[trigger] graph.adjacent(x, y) implies x < adj.len()
        && adj[x as int].contains_key(y) by {
        if graph0.adjacent(x, y) {
            assert(adj0[x as int].contains_key(y));
        }
    }
    assert forall|j: int| 0 <= j < k + 1 implies {
        &&& !bad_loop(#[trigger] given[j])
        &&& given[j].src != given[j].dst ==> graph.adjacent(
            names2.index_of(given[j].src) as usize,
            names2.index_of(given[j].dst) as usize,
        )
    } by {
        if j < k {
            if given[j].src != given[j].dst {
                assert(mentions(given, k, given[j].src));
                assert(mentions(given, k, given[j].dst));
                assert(names0.contains(given[j].src));
                assert(names0.contains(given[j].dst));
                assert(names1.contains(given[j].src));
                assert(names1.contains(given[j].dst));
                assert(names2.index_of(given[j].src) == names0.index_of(given[j].src));
                assert(names2.index_of(given[j].dst) == names0.index_of(given[j].dst));
            }
        }
    }
}

/// The frames stay their own numbers in the graph when a fact comes.
pub proof fn lemma_nodes_step(
    names0: Seq<Seq<char>>,
    graph0: GraphView,
    names1: Seq<Seq<char>>,
    names2: Seq<Seq<char>>,
    a: usize,
    b: usize,
    graph: GraphView,
    src: Seq<char>,
    dst: Seq<char>,
)
    requires
        names0.no_duplicates(),
        graph0.wf(),
        graph0.nodes.len() == names0.len(),
        forall|i: int| 0 <= i < graph0.nodes.len() ==> #[trigger] graph0.nodes[i] == i,
        names1 == named(names0, src),
        names2 == named(names1, dst),
        a < names1.len(),
        names1[a as int] == src,
        b < names2.len(),
        names2[b as int] == dst,
        names1.no_duplicates(),
        names2.no_duplicates(),
        graph == graph0.with_edge(a, b),
    ensures
        graph.nodes.len() == names2.len(),
        forall|i: int| 0 <= i < graph.nodes.len() ==> #[trigger] graph.nodes[i] == i,
{
    let one = graph0.noted(a);
    assert(one.nodes.len() == names1.len() && forall|i: int|
        0 <= i < one.nodes.len() ==> #[trigger] one.nodes[i] == i) by {
        if graph0.nodes.contains(a) {
            let i = graph0.nodes.index_of(a);
            assert(graph0.nodes[i] == a);
            assert(a < names0.len());
            if !names0.contains(src) {
                assert(names1[a as int] == names0[a as int]);
                assert(names0.contains(names0[a as int]));
            }
        } else {
            if names0.contains(src) {
                assert(graph0.nodes[a as int] == a);
            } else {
                if a < names0.len() {
                    assert(names0[a as int] == src);
                }
            }
        }
    }
    let both = one.noted(b);
    assert(both.nodes.len() == names2.len() && forall|i: int|
        0 <= i < both.nodes.len() ==> #[trigger] both.nodes[i] == i) by {
        if one.nodes.contains(b) {
            let i = one.nodes.index_of(b);
            assert(one.nodes[i] == b);
            if !names1.contains(dst) {
                assert(names2[b as int] == names1[b as int]);
                assert(names1.contains(names1[b as int]));
            }
        } else {
            if names1.contains(dst) {
                assert(one.nodes[b as int] == b);
            } else {
                if b < names1.len() {
                    assert(names1[b as int] == dst);
                }
            }
        }
    }
    assert(graph.nodes == both.nodes);
}

/// What a survey of the facts gathers, beside the graph.
struct Survey {
    names: IndexSet<String>,
    adj: Vec<HashMap<usize, RigidTransform>>,
}

/// The transforms to the neighbours of each frame, as maps.
spec fn adj_view(adj: Seq<HashMap<usize, RigidTransform>>) -> Seq<Map<usize, RigidTransform>> {
    Seq::new(adj.len(), |a: int| adj[a]@)
}

impl Survey {
    spec fn covers(&self, graph: GraphView, facts: Seq<FactView>, upto: int) -> bool {
        &&& surveyed(listed(self.names), graph, adj_view(self.adj@), facts, upto)
        &&& listed(self.names) == names_of(facts, upto)
        &&& graph == graph_of(facts, upto)
        &&& adj_view(self.adj@) == adj_of(facts, upto)
    }
}

/// Goes through the facts once: numbers the frames, links them in the graph, and keeps for
/// each pair that a fact relates the transform in both directions, the later fact over
/// the earlier. Stops at the first fact that relates a frame to itself by something else
/// than the identity.
fn survey(facts: &Vec<CoordTransform>) -> (r: Result<(Survey, TopologicalSort), InsertionError>)
    ensures
        match r {
            Ok((found, graph)) => graph.wf() && found.covers(
                graph@,
                fact_views(facts@),
                facts.len() as int,
            ),
            Err(e) => e@ is InvalidSelfLoop && refused(fact_views(facts@), e@),
        },
{
    let ghost given = fact_views(facts@);
    let identity = RigidTransform::identity();
    let mut found = Survey { names: names_new(), adj: Vec::new() };
    let mut graph = TopologicalSort::new();
    let mut k: usize = 0;
    proof {
        assert(adj_view(found.adj@) =~= Seq::empty());
        assert forall|a: usize, b: usize| !#[trigger] graph@.adjacent(a, b) by {}
    }
    while k < facts.len()
        invariant
            k <= facts.len(),
            given == fact_views(facts@),
            identity == RigidTransform::spec_identity(),
            graph.wf(),
            found.covers(graph@, given, k as int),
        decreases facts.len() - k,
    {
        let fact = &facts[k];
        let src = fact.src.as_str();
        let dst = fact.dst.as_str();
        let tf = fact.tf;
        let same = same_name(src, dst);
        proof {
            assert(given[k as int] == fact@);
        }
        if same && !tf.approx_eq(&identity, TOLERANCE_PARTS) {
            proof {
                assert(first_bad_loop(given, k as int));
            }
            return Err(InsertionError::InvalidSelfLoop { coord: src.to_owned(), actual: tf });
        }
        let ghost before = found;
        let ghost names0 = listed(found.names);
        let ghost graph0 = graph@;
        let ghost adj0 = adj_view(found.adj@);
        let (a, fresh_a) = names_insert(&mut found.names, src);
        if fresh_a {
            found.adj.push(HashMap::new());
        }
        let ghost names1 = listed(found.names);
        let (b, fresh_b) = names_insert(&mut found.names, dst);
        if fresh_b {
            found.adj.push(HashMap::new());
        }
        let ghost names2 = listed(found.names);
        graph.insert_edge(a, b);
        let ghost adj1 = adj_view(found.adj@);
        if !same {
            found.adj[a].insert(b, tf);
            found.adj[b].insert(a, tf.inverse());
        }
        proof {
            graph.lemma_view_wf();
            lemma_index_of(names2, b as int);
            assert(names2[a as int] == src@);
            lemma_index_of(names2, a as int);
            assert(names1 == named(names0, src@));
            assert(names2 == named(names1, dst@));
            assert(adj_view(found.adj@) =~= stepped_adj(
                adj0,
                names2.len(),
                a,
                b,
                given[k as int].tf,
                !same,
            ));
            lemma_survey_step(
                names0,
                graph0,
                adj0,
                given,
                k as int,
                names1,
                names2,
                a,
                b,
                graph@,
                adj_view(found.adj@),
            );
            assert(graph@ == graph_of(given, k + 1));
            assert(adj_view(found.adj@) == adj_of(given, k + 1));
        }
        k = k + 1;
    }
    Ok((found, graph))
}

/// The names of the nodes that a walk reaches, in the order of the walk.
pub open spec fn walked_names(names: Seq<Seq<char>>, comp: Component<usize>) -> Seq<Seq<char>> {
    Seq::new(comp.walked().len(), |j: int| names[comp.walked()[j] as int])
}

/// A frame that hangs on an earlier frame of a chain still does so in a longer chain.
pub proof fn lemma_hangs_extended(
    chain: ChainView,
    facts: Seq<FactView>,
    p: int,
    name: Seq<char>,
    edge: RigidTransform,
)
    requires
        chain.wf(),
        1 <= p < chain.names.len(),
        hangs(chain, facts, p),
    ensures
        hangs(chain.extended(name, edge), facts, p),
{
    let (q, tf) = choose|q: int, tf: RigidTransform|
        0 <= q < p && relates(facts, facts.len() as int, chain.names[q], chain.names[p], tf)
            && #[trigger] hung(chain, p, q, tf);
    lemma_span_extended(chain, name, edge, q, p - 1);
    assert(hung(chain.extended(name, edge), p, q, tf));
}

/// Builds the chain of one connected group: its frames in the order of the walk, each
/// hung on the frame from which the walk reaches it.
fn grow(
    found: &Survey,
    comp: &Component<usize>,
    Ghost(graph): Ghost<GraphView>,
    Ghost(given): Ghost<Seq<FactView>>,
) -> (chain: MutualSet)
    requires
        found.covers(graph, given, given.len() as int),
        comp.walked().no_duplicates(),
        forall|j: int|
            0 <= j < comp.walked().len() ==> (#[trigger] comp.walked()[j]) < listed(
                found.names,
            ).len(),
        forall|k: int|
            0 <= k < comp.seq.len() ==> {
                &&& graph.adjacent((#[trigger] comp.seq[k]).0, comp.seq[k].1)
                &&& comp.walked().take(k + 1).contains(comp.seq[k].0)
            },
    ensures
        chain.wf(),
        chain@.names == walked_names(listed(found.names), *comp),
        spanning(chain@, given),
        chain@ == grown(listed(found.names), adj_view(found.adj@), comp@, comp.seq.len() as int),
{
    let ghost names = listed(found.names);
    let ghost walked = comp.walked();
    let ghost goal = walked_names(names, *comp);
    let start = match names_get(&found.names, comp.start) {
        Some(name) => name,
        None => {
            proof {
                assert(walked[0] == comp.start);
                assert(false);
            }
            return MutualSet::new();
        },
    };
    proof {
        assert(walked[0] == comp.start);
    }
    if comp.seq.len() == 0 {
        let chain = MutualSet::create(start.as_str());
        assert(chain@.names =~= goal);
        return chain;
    }
    let mut chain = MutualSet::new();
    let mut k: usize = 0;
    while k < comp.seq.len()
        invariant
            found.covers(graph, given, given.len() as int),
            names == listed(found.names),
            walked == comp.walked(),
            goal == walked_names(names, *comp),
            walked.no_duplicates(),
            comp.seq.len() > 0,
            forall|j: int| 0 <= j < walked.len() ==> (#[trigger] walked[j]) < names.len(),
            forall|i: int|
                0 <= i < comp.seq.len() ==> {
                    &&& graph.adjacent((#[trigger] comp.seq[i]).0, comp.seq[i].1)
                    &&& walked.take(i + 1).contains(comp.seq[i].0)
                },
            k <= comp.seq.len(),
            chain.wf(),
            k == 0 ==> chain@ == ChainView::empty(),
            k > 0 ==> chain@.names == goal.take(k + 1),
            spanning(chain@, given),
            chain@ == grown(names, adj_view(found.adj@), comp@, k as int),
        decreases comp.seq.len() - k,
    {
        let (parent, child) = comp.seq[k];
        let ghost before = chain@;
        proof {
            chain.lemma_view_wf();
            assert(walked[k + 1] == child);
            let at = walked.take(k + 1).index_of(parent);
            assert(walked.take(k + 1)[at] == parent);
            assert(walked[at] == parent);
            assert(graph.adjacent(parent, child));
            assert(adj_view(found.adj@)[parent as int].contains_key(child));
            assert(found.adj@[parent as int]@.contains_key(child));
        }
        let tf = match found.adj[parent].get(&child) {
            Some(tf) => *tf,
            None => {
                proof {
                    assert(false);
                }
                return chain;
            },
        };
        match (names_get(&found.names, parent), names_get(&found.names, child)) {
            (Some(src), Some(dst)) => {
                proof {
                    let at = walked.take(k + 1).index_of(parent);
                    assert(walked.take(k + 1)[at] == parent);
                    assert(walked[at] == parent);
                    assert(src@ != dst@) by {
                        if src@ == dst@ {
                            lemma_index_of(names, parent as int);
                            lemma_index_of(names, child as int);
                        }
                    }
                    assert(adj_view(found.adj@)[parent as int][child] == tf);
                    assert(relates(given, given.len() as int, src@, dst@, tf));
                    if k > 0 {
                        assert(before.names[at] == src@);
                        lemma_position(before, src@, at);
                        if before.names.contains(dst@) {
                            let other = before.names.index_of(dst@);
                            assert(before.names[other] == dst@);
                            assert(goal[other] == names[walked[other] as int]);
                            lemma_index_of(names, walked[other] as int);
                            lemma_index_of(names, child as int);
                            assert(walked[other] == walked[k + 1]);
                        }
                    } else {
                        assert(at == 0);
                    }
                }
                proof {
                    assert(comp@.seq[k as int] == (parent, child));
                }
                match chain.insert(src.as_str(), dst.as_str(), tf) {
                    Ok(()) => {},
                    Err(_) => {
                        proof {
                            assert(false);
                        }
                    },
                }
                proof {
                    let after = chain@;
                    let at = walked.take(k + 1).index_of(parent);
                    if k > 0 {
                        assert(after == before.extended(dst@, before.edge_from(at, tf)));
                        assert(after.names =~= goal.take(k + 2));
                        assert forall|p: int| 1 <= p < after.names.len() implies #[trigger] hangs(
                            after,
                            given,
                            p,
                        ) by {
                            if p <= k {
                                lemma_hangs_extended(before, given, p, dst@, before.edge_from(at, tf));
                            } else {
                                lemma_span_extended(before, dst@, before.edge_from(at, tf), at, k as int);
                                assert(hung(after, p, at, tf));
                            }
                        }
                    } else {
                        assert(after == ChainView::single(src@).extended(dst@, tf));
                        assert(after.names =~= goal.take(k + 2));
                        assert forall|p: int| 1 <= p < after.names.len() implies #[trigger] hangs(
                            after,
                            given,
                            p,
                        ) by {
                            assert(hung(after, p, 0, tf));
                        }
                    }
                }
            },
            _ => {
                proof {
                    assert(false);
                }
            },
        }
        k = k + 1;
    }
    proof {
        assert(goal.take(comp.seq.len() + 1) =~= goal);
    }
    chain
}

/// The groups that were grown, one for each connected group of the graph, are what the
/// facts span.
proof fn lemma_built(
    view: TransformSetView,
    names: Seq<Seq<char>>,
    graph: GraphView,
    adj: Seq<Map<usize, RigidTransform>>,
    comps: Seq<Component<usize>>,
    given: Seq<FactView>,
)
    requires
        view.wf(),
        surveyed(names, graph, adj, given, given.len() as int),
        spans(graph, comps),
        view.groups.len() == comps.len(),
        forall|c: int|
            0 <= c < comps.len() ==> {
                &&& (#[trigger] view.groups[c]) is Some
                &&& view.groups[c].unwrap().names == walked_names(names, comps[c])
                &&& spanning(view.groups[c].unwrap(), given)
            },
    ensures
        built_from(view, given),
{
    // A group holds a name exactly when its walk reaches the frame of that name.
    assert forall|c: int, node: usize| #[trigger] comp_has(comps, c, node) implies view.holds(
        c,
        names[node as int],
    ) by {
        let j = comps[c].walked().index_of(node);
        assert(comps[c].walked()[j] == node);
        assert(view.groups[c] is Some);
        assert(view.groups[c].unwrap().names[j] == names[node as int]);
    }
    assert forall|name: Seq<char>| #[trigger]
        view.contains(name) <==> mentions(given, given.len() as int, name) by {
        if view.contains(name) {
            let g = choose|g: int| view.holds(g, name);
            assert(view.groups[g] is Some);
            let chain = view.groups[g].unwrap();
            let j = chain.names.index_of(name);
            assert(chain.names[j] == name);
            let node = comps[g].walked()[j];
            assert(comps[g].walked().contains(node));
            assert(comp_has(comps, g, node));
            assert(graph.nodes.contains(node));
            let at = graph.nodes.index_of(node);
            assert(graph.nodes[at] == node);
            assert(names[node as int] == name);
            assert(names.contains(name));
        }
        if mentions(given, given.len() as int, name) {
            assert(names.contains(name));
            let id = names.index_of(name);
            assert(names[id] == name);
            assert(graph.nodes[id] == id);
            let node = id as usize;
            assert(graph.nodes.contains(node));
            let c = choose|c: int| comp_has(comps, c, node);
            assert(comp_has(comps, c, node));
            assert(view.holds(c, names[node as int]));
        }
    }
    assert forall|k: int| 0 <= k < given.len() implies view.group_of((#[trigger] given[k]).src) is Some
        && view.group_of(given[k].src) == view.group_of(given[k].dst) by {
        let src = given[k].src;
        let dst = given[k].dst;
        assert(mentions(given, given.len() as int, src));
        assert(mentions(given, given.len() as int, dst));
        assert(names.contains(src));
        assert(names.contains(dst));
        let a = names.index_of(src);
        let b = names.index_of(dst);
        assert(names[a] == src);
        assert(names[b] == dst);
        assert(graph.nodes[a] == a);
        let one = a as usize;
        let other = b as usize;
        assert(graph.nodes.contains(one));
        let c = choose|c: int| comp_has(comps, c, one);
        assert(comp_has(comps, c, one));
        assert(view.holds(c, names[one as int]));
        lemma_group_of(view, c, src);
        if src != dst {
            assert(graph.adjacent(one, other));
            assert(comp_has(comps, c, other));
            assert(view.holds(c, names[other as int]));
            lemma_group_of(view, c, dst);
        }
    }
}

impl TransformSet {
    /// Builds a set from facts in any order. The frames that the facts relate, directly or
    /// through other frames, form one group; the frames of a group are put into one chain
    /// along a breadth-first walk, so that each fact of the walk is taken in by a single
    /// append. After that every fact is held against what its group gives.
    pub fn try_from_iter(facts: Vec<CoordTransform>) -> (r: Result<TransformSet, InsertionError>)
        ensures
            match r {
                Ok(set) => set.wf() && built(
                    fact_views(facts@),
                    Ok::<TransformSetView, InsertionErrorView>(set@),
                ),
                Err(e) => built(
                    fact_views(facts@),
                    Err::<TransformSetView, InsertionErrorView>(e@),
                ),
            },
    {
        let ghost given = fact_views(facts@);
        let (found, graph) = match survey(&facts) {
            Ok(gathered) => gathered,
            Err(e) => {
                return Err(e);
            },
        };
        let ghost shape = graph@;
        let ghost names = listed(found.names);
        let ghost goal = forest(given);
        proof {
            graph.lemma_view_wf();
        }
        let comps = graph.sort();
        proof {
            assert(goal.groups.len() == comps.len());
            assert forall|d: int| 0 <= d < comps.len() implies #[trigger] goal.groups[d] == Some(
                grown(names, adj_view(found.adj@), comps@[d]@, comps@[d].seq.len() as int),
            ) by {
                assert(walk_views(comps@)[d] == comps@[d]@);
            }
        }
        let mut set = TransformSet::new();
        let mut c: usize = 0;
        while c < comps.len()
            invariant
                found.covers(shape, given, given.len() as int),
                names == listed(found.names),
                shape.wf(),
                spans(shape, comps@),
                c <= comps.len(),
                set.wf(),
                set@.groups.len() == c,
                forall|d: int|
                    0 <= d < c ==> {
                        &&& (#[trigger] set@.groups[d]) is Some
                        &&& set@.groups[d].unwrap().names == walked_names(names, comps@[d])
                        &&& spanning(set@.groups[d].unwrap(), given)
                    },
                goal.groups.len() == comps.len(),
                forall|d: int|
                    0 <= d < comps.len() ==> #[trigger] goal.groups[d] == Some(
                        grown(names, adj_view(found.adj@), comps@[d]@, comps@[d].seq.len() as int),
                    ),
                set@.groups == goal.groups.take(c as int),
            decreases comps.len() - c,
        {
            let ghost before = set@;
            proof {
                let comp = comps@[c as int];
                assert forall|j: int| 0 <= j < comp.walked().len() implies (#[trigger] comp.walked()[j])
                    < names.len() by {
                    let node = comp.walked()[j];
                    assert(comp.walked().contains(node));
                    assert(comp_has(comps@, c as int, node));
                    assert(shape.nodes.contains(node));
                    let at = shape.nodes.index_of(node);
                    assert(shape.nodes[at] == node);
                }
            }
            let chain = grow(&found, &comps[c], Ghost(shape), Ghost(given));
            proof {
                let comp = comps@[c as int];
                assert(chain@.names.len() == comp.walked().len());
                assert forall|name: Seq<char>| #[trigger] chain@.names.contains(name) implies !before.contains(
                    name,
                ) by {
                    if before.contains(name) {
                        let d = choose|d: int| before.holds(d, name);
                        assert(before.holds(d, name));
                        let j = before.groups[d].unwrap().names.index_of(name);
                        assert(before.groups[d].unwrap().names[j] == name);
                        let i = chain@.names.index_of(name);
                        assert(chain@.names[i] == name);
                        let node = comps@[d].walked()[j];
                        let other = comp.walked()[i];
                        assert(comps@[d].walked().contains(node));
                        assert(comp.walked().contains(other));
                        assert(comp_has(comps@, d, node));
                        assert(comp_has(comps@, c as int, other));
                        assert(shape.nodes.contains(node));
                        assert(shape.nodes.contains(other));
                        let at = shape.nodes.index_of(node);
                        assert(shape.nodes[at] == node);
                        let beside = shape.nodes.index_of(other);
                        assert(shape.nodes[beside] == other);
                        lemma_index_of(names, node as int);
                        lemma_index_of(names, other as int);
                        assert(node == other);
                    }
                }
            }
            let ghost grown_chain = chain@;
            set.adopt(chain);
            proof {
                assert(goal.groups[c as int] == Some(grown_chain));
                assert(goal.groups.take(c as int).push(Some(grown_chain)) =~= goal.groups.take(
                    c + 1,
                ));
            }
            c = c + 1;
        }
        proof {
            set.lemma_view_wf();
            lemma_built(set@, names, shape, adj_view(found.adj@), comps@, given);
            assert(goal.groups.take(comps.len() as int) =~= goal.groups);
            assert(set@ == goal);
        }
        let mut k: usize = 0;
        while k < facts.len()
            invariant
                set.wf(),
                given == fact_views(facts@),
                built_from(set@, given),
                set@ == goal,
                goal == forest(given),
                no_bad_loop(given),
                k <= facts.len(),
                forall|j: int| 0 <= j < k ==> agrees(set@, #[trigger] given[j]),
            decreases facts.len() - k,
        {
            let fact = &facts[k];
            proof {
                assert(given[k as int] == fact@);
            }
            match set.get(fact.src.as_str(), fact.dst.as_str()) {
                Some(expect) => {
                    if !fact.tf.approx_eq(&expect, TOLERANCE_PARTS) {
                        let e = InsertionError::inconsistent_transform_error(expect, fact.tf);
                        proof {
                            let view = set@;
                            let at = k as int;
                            assert(first_disagreement(goal, given, at) && goal.get(
                                given[at].src,
                                given[at].dst,
                            ) == Some(expect) && fact.tf == given[at].tf);
                        }
                        return Err(e);
                    }
                },
                None => {
                    proof {
                        let view = set@;
                        let g = view.group_of(given[k as int].src).unwrap();
                        assert(view.contains(given[k as int].src));
                        assert(view.contains(given[k as int].dst));
                        assert(view.holds(g, given[k as int].src));
                        assert(view.holds(g, given[k as int].dst));
                        assert(false);
                    }
                },
            }
            k = k + 1;
        }
        Ok(set)
    }
}

} // verus!
