//! Sets that are built from the same facts in another order.

use crate::bulk::{built_from, hangs, hung, mentions, relates, spanning, tells};
use crate::chain::ChainView;
use crate::coord::FactView;
use crate::exact::{
    exact_arithmetic, lemma_associative, lemma_cancel, lemma_inverse_of_product,
    lemma_span_product, lemma_symmetry_exact, lemma_transitivity_exact, lemma_unit,
};
use crate::laws::{lemma_absent, lemma_identity};
use crate::transform::{composed, inverted, RigidTransform};
use crate::tset::{lemma_group_of, TransformSetView};
use vstd::prelude::*;

verus! {

/// Whether two lists hold the same facts, in whatever order and however often.
pub open spec fn same_facts(facts: Seq<FactView>, others: Seq<FactView>) -> bool {
    forall|fact: FactView| facts.contains(fact) <==> others.contains(fact)
}

/// Whether the groups give for the two frames of each fact exactly the transform of the
/// fact.
pub open spec fn reproduces(view: TransformSetView, facts: Seq<FactView>) -> bool {
    forall|k: int|
        0 <= k < facts.len() ==> view.get((#[trigger] facts[k]).src, facts[k].dst) == Some(
            facts[k].tf,
        )
}

/// What one list of facts says of two frames, a list of the same facts says too.
pub proof fn lemma_same_facts(
    facts: Seq<FactView>,
    others: Seq<FactView>,
    a: Seq<char>,
    b: Seq<char>,
    tf: RigidTransform,
)
    requires
        same_facts(facts, others),
    ensures
        mentions(others, others.len() as int, a) ==> mentions(facts, facts.len() as int, a),
        relates(others, others.len() as int, a, b, tf) ==> relates(
            facts,
            facts.len() as int,
            a,
            b,
            tf,
        ),
{
    if mentions(others, others.len() as int, a) {
        let k = choose|k: int|
            0 <= k < others.len() && ((#[trigger] others[k]).src == a || others[k].dst == a);
        assert(others.contains(others[k]));
        assert(facts.contains(others[k]));
        let j = facts.index_of(others[k]);
        assert(facts[j] == others[k]);
    }
    if relates(others, others.len() as int, a, b, tf) {
        let k = choose|k: int| 0 <= k < others.len() && tells(#[trigger] others[k], a, b, tf);
        assert(others.contains(others[k]));
        assert(facts.contains(others[k]));
        let j = facts.index_of(others[k]);
        assert(facts[j] == others[k]);
    }
}

/// A chain that one list of facts spans, a list of the same facts spans too.
pub proof fn lemma_spanning_same(chain: ChainView, facts: Seq<FactView>, others: Seq<FactView>)
    requires
        same_facts(facts, others),
        spanning(chain, others),
    ensures
        spanning(chain, facts),
{
    assert forall|p: int| 1 <= p < chain.names.len() implies #[trigger] hangs(chain, facts, p) by {
        assert(hangs(chain, others, p));
        let (q, tf) = choose|q: int, tf: RigidTransform|
            0 <= q < p && relates(others, others.len() as int, chain.names[q], chain.names[p], tf)
                && #[trigger] hung(chain, p, q, tf);
        lemma_same_facts(facts, others, chain.names[q], chain.names[p], tf);
        assert(hung(chain, p, q, tf));
    }
}

/// Where the arithmetic is exact and the groups reproduce the facts, they give for two
/// frames what a fact says of them, in whichever direction the fact is read.
pub proof fn lemma_fact_read(
    view: TransformSetView,
    facts: Seq<FactView>,
    a: Seq<char>,
    b: Seq<char>,
    tf: RigidTransform,
)
    requires
        exact_arithmetic(),
        view.wf(),
        reproduces(view, facts),
        relates(facts, facts.len() as int, a, b, tf),
    ensures
        view.get(a, b) == Some(tf),
{
    let k = choose|k: int| 0 <= k < facts.len() && tells(#[trigger] facts[k], a, b, tf);
    assert(view.get(facts[k].src, facts[k].dst) == Some(facts[k].tf));
    if !(facts[k].src == a && facts[k].dst == b && facts[k].tf == tf) {
        lemma_absent(view, b, a);
        lemma_symmetry_exact(view, a, b);
    }
}

/// Where the arithmetic is exact and the groups reproduce the facts, they give, from the
/// first frame of a chain that the facts span to any frame of it, the product of the
/// edges of that chain.
pub proof fn lemma_from_start(
    view: TransformSetView,
    facts: Seq<FactView>,
    chain: ChainView,
    p: int,
)
    requires
        exact_arithmetic(),
        view.wf(),
        reproduces(view, facts),
        spanning(chain, facts),
        0 <= p < chain.names.len(),
        view.contains(chain.names[0]),
    ensures
        view.get(chain.names[0], chain.names[p]) == Some(chain.from_start(p)),
    decreases p,
{
    if p == 0 {
        lemma_identity(view, chain.names[0]);
    } else {
        assert(hangs(chain, facts, p));
        let (q, tf) = choose|q: int, tf: RigidTransform|
            0 <= q < p && relates(facts, facts.len() as int, chain.names[q], chain.names[p], tf)
                && #[trigger] hung(chain, p, q, tf);
        lemma_from_start(view, facts, chain, q);
        lemma_fact_read(view, facts, chain.names[q], chain.names[p], tf);
        lemma_transitivity_exact(view, chain.names[0], chain.names[q], chain.names[p]);
        let to_q = chain.from_start(q);
        let before = chain.from_start(p - 1);
        if p == 1 {
            lemma_unit(tf);
        } else {
            lemma_span_product(chain, q, p - 1);
            lemma_inverse_of_product(inverted(to_q), before);
            lemma_inverse_of_product(to_q, to_q);
            let back = composed(inverted(before), to_q);
            assert(chain.edges[p - 1] == composed(back, tf));
            lemma_associative(before, back, tf);
            lemma_cancel(before, to_q);
        }
    }
}

/// Every frame of a chain that the facts span is, in any set built from the facts, in
/// the group of the first frame of the chain.
pub proof fn lemma_chain_in_one_group(
    view: TransformSetView,
    facts: Seq<FactView>,
    chain: ChainView,
    p: int,
)
    requires
        built_from(view, facts),
        spanning(chain, facts),
        0 <= p < chain.names.len(),
        view.contains(chain.names[0]),
    ensures
        view.group_of(chain.names[p]) == view.group_of(chain.names[0]),
    decreases p,
{
    if p > 0 {
        assert(hangs(chain, facts, p));
        let (q, tf) = choose|q: int, tf: RigidTransform|
            0 <= q < p && relates(facts, facts.len() as int, chain.names[q], chain.names[p], tf)
                && #[trigger] hung(chain, p, q, tf);
        lemma_chain_in_one_group(view, facts, chain, q);
        let k = choose|k: int|
            0 <= k < facts.len() && tells(
                #[trigger] facts[k],
                chain.names[q],
                chain.names[p],
                tf,
            );
        assert(view.group_of(facts[k].src) == view.group_of(facts[k].dst));
    }
}

/// Two frames that one set built from the facts relates, any set built from the same
/// facts relates too.
pub proof fn lemma_same_groups(
    view: TransformSetView,
    facts: Seq<FactView>,
    other: TransformSetView,
    others: Seq<FactView>,
    a: Seq<char>,
    b: Seq<char>,
)
    requires
        same_facts(facts, others),
        built_from(view, facts),
        built_from(other, others),
        other.get(a, b) is Some,
    ensures
        view.get(a, b) is Some,
{
    let g = other.group_of(a).unwrap();
    let chain = other.groups[g].unwrap();
    let start = chain.names[0];
    assert(chain.names.contains(start));
    assert(other.holds(g, start));
    assert(other.contains(start));
    assert(mentions(others, others.len() as int, start));
    lemma_same_facts(facts, others, start, start, RigidTransform::spec_identity());
    assert(view.contains(start));
    lemma_spanning_same(chain, facts, others);
    let i = chain.names.index_of(a);
    let j = chain.names.index_of(b);
    assert(chain.names[i] == a);
    assert(chain.names[j] == b);
    lemma_chain_in_one_group(view, facts, chain, i);
    lemma_chain_in_one_group(view, facts, chain, j);
    lemma_absent(view, a, b);
    let h = choose|h: int| view.holds(h, start);
    lemma_group_of(view, h, start);
}

/// Where the arithmetic is exact, sets that were built from the same facts, in whatever
/// order, give the same transforms between the same frames, if one of them reproduces
/// the facts.
pub proof fn lemma_order_independence(
    view: TransformSetView,
    facts: Seq<FactView>,
    other: TransformSetView,
    others: Seq<FactView>,
    a: Seq<char>,
    b: Seq<char>,
)
    requires
        exact_arithmetic(),
        same_facts(facts, others),
        built_from(view, facts),
        reproduces(view, facts),
        built_from(other, others),
    ensures
        view.get(a, b) == other.get(a, b),
{
    if other.get(a, b) is Some {
        lemma_answers_agree(view, facts, other, others, a, b);
    } else if view.get(a, b) is Some {
        assert(same_facts(others, facts));
        lemma_same_groups(other, others, view, facts, a, b);
    }
}

/// Where the arithmetic is exact, a set that reproduces the facts gives, between two
/// frames that another set built from the same facts relates, the same transform as that
/// set.
pub proof fn lemma_answers_agree(
    view: TransformSetView,
    facts: Seq<FactView>,
    other: TransformSetView,
    others: Seq<FactView>,
    a: Seq<char>,
    b: Seq<char>,
)
    requires
        exact_arithmetic(),
        same_facts(facts, others),
        built_from(view, facts),
        reproduces(view, facts),
        built_from(other, others),
        other.get(a, b) is Some,
    ensures
        view.get(a, b) == other.get(a, b),
{
    let g = other.group_of(a).unwrap();
    let chain = other.groups[g].unwrap();
    let start = chain.names[0];
    assert(chain.names.contains(start));
    assert(other.holds(g, start));
    assert(other.contains(start));
    assert(mentions(others, others.len() as int, start));
    lemma_same_facts(facts, others, start, start, RigidTransform::spec_identity());
    assert(view.contains(start));
    lemma_spanning_same(chain, facts, others);
    let i = chain.names.index_of(a);
    let j = chain.names.index_of(b);
    assert(chain.names[i] == a);
    assert(chain.names[j] == b);
    lemma_from_start(view, facts, chain, i);
    lemma_from_start(view, facts, chain, j);
    lemma_span_product(chain, i, j);
    lemma_absent(view, start, a);
    lemma_symmetry_exact(view, a, start);
    lemma_inverse_of_product(view.get(a, start).unwrap(), view.get(a, start).unwrap());
    lemma_transitivity_exact(view, a, start, b);
}

} // verus!
