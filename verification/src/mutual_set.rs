//! One connected group of frames, kept as a chain with a doubling table over it.

use crate::chain::{lemma_entry_extended, lemma_position, ChainView};
use crate::coord::{fact_views, CoordTransform};
use crate::doubling::{
    height, lemma_height_between, lemma_level_kept, lemma_pow2_exceeds, lemma_pow2_positive, pow2,
};
use crate::error::{InsertionError, InsertionErrorView};
use crate::names::{
    listed, names_clone, names_get, names_index_of, names_insert, names_len, names_new, same_name,
};
use crate::transform::{RigidTransform, TOLERANCE_PARTS};
use indexmap::IndexSet;
use vstd::prelude::*;

verus! {

/// The frames of one connected group in the order in which they were first seen, and for
/// each position `p` the transforms from it to the positions `p + 1`, `p + 2`, `p + 4`, ...
/// as far as the chain reaches.
#[derive(Debug)]
pub struct MutualSet {
    names: IndexSet<String>,
    levels: Vec<Vec<RigidTransform>>,
}

/// The transforms between neighbours that a table holds at level 0.
pub open spec fn bottom_row(levels: Seq<Vec<RigidTransform>>) -> Seq<RigidTransform> {
    Seq::new(
        if levels.len() > 0 {
            (levels.len() - 1) as nat
        } else {
            0
        },
        |p: int| levels[p]@[0],
    )
}

/// Row `p` of the table has `lens(p)` levels, and level `k` holds what the chain says
/// lies across `pow2(k)` edges from `p` on.
pub open spec fn rows_hold(
    levels: Seq<Vec<RigidTransform>>,
    chain: ChainView,
    lens: spec_fn(int) -> nat,
) -> bool {
    forall|p: int|
        0 <= p < levels.len() ==> {
            &&& (#[trigger] levels[p]).len() == lens(p)
            &&& forall|k: int|
                0 <= k < lens(p) ==> #[trigger] levels[p]@[k] == chain.entry(p, k as nat)
        }
}

impl View for MutualSet {
    type V = ChainView;

    closed spec fn view(&self) -> ChainView {
        ChainView { names: listed(self.names), edges: bottom_row(self.levels@) }
    }
}

impl Clone for MutualSet {
    fn clone(&self) -> (copy: MutualSet)
        ensures
            copy@ == self@,
            copy.wf() == self.wf(),
    {
        let mut levels: Vec<Vec<RigidTransform>> = Vec::new();
        let mut p: usize = 0;
        while p < self.levels.len()
            invariant
                p <= self.levels.len(),
                levels.len() == p,
                forall|i: int| 0 <= i < p ==> (#[trigger] levels[i])@ == self.levels[i]@,
            decreases self.levels.len() - p,
        {
            let mut row: Vec<RigidTransform> = Vec::new();
            let mut k: usize = 0;
            while k < self.levels[p].len()
                invariant
                    p < self.levels.len(),
                    k <= self.levels[p as int].len(),
                    row@ == self.levels[p as int]@.take(k as int),
                decreases self.levels[p as int].len() - k,
            {
                row.push(self.levels[p][k]);
                assert(self.levels[p as int]@.take(k as int).push(self.levels[p as int]@[k as int])
                    =~= self.levels[p as int]@.take(k + 1));
                k = k + 1;
            }
            assert(self.levels[p as int]@.take(self.levels[p as int].len() as int)
                =~= self.levels[p as int]@);
            levels.push(row);
            p = p + 1;
        }
        let copy = MutualSet { names: names_clone(&self.names), levels };
        proof {
            assert(copy@.edges =~= self@.edges);
            assert(copy@ == self@);
            let n = self.levels.len();
            if self.wf() {
                assert forall|p: int| 0 <= p < copy.levels@.len() implies {
                    &&& (#[trigger] copy.levels@[p]).len() == height((n - 1 - p) as nat)
                    &&& forall|k: int|
                        0 <= k < height((n - 1 - p) as nat) ==> #[trigger] copy.levels@[p]@[k]
                            == copy@.entry(p, k as nat)
                } by {
                    assert(self.levels@[p].len() == height((n - 1 - p) as nat));
                    assert forall|k: int| 0 <= k < height((n - 1 - p) as nat) implies #[trigger] copy.levels@[p]@[k]
                        == copy@.entry(p, k as nat) by {
                        assert(self.levels@[p]@[k] == self@.entry(p, k as nat));
                    }
                }
            }
            if copy.wf() {
                assert forall|p: int| 0 <= p < self.levels@.len() implies {
                    &&& (#[trigger] self.levels@[p]).len() == height((n - 1 - p) as nat)
                    &&& forall|k: int|
                        0 <= k < height((n - 1 - p) as nat) ==> #[trigger] self.levels@[p]@[k]
                            == self@.entry(p, k as nat)
                } by {
                    assert(copy.levels@[p].len() == height((n - 1 - p) as nat));
                    assert forall|k: int| 0 <= k < height((n - 1 - p) as nat) implies #[trigger] self.levels@[p]@[k]
                        == self@.entry(p, k as nat) by {
                        assert(copy.levels@[p]@[k] == copy@.entry(p, k as nat));
                    }
                }
            }
        }
        copy
    }
}

impl Default for MutualSet {
    fn default() -> (set: MutualSet)
        ensures
            set.wf(),
            set@ == ChainView::empty(),
    {
        MutualSet::new()
    }
}

impl MutualSet {
    /// The table is as long as the chain, no frame stands twice, and every row holds one
    /// level for each power of two that the chain still reaches from it.
    pub closed spec fn wf(&self) -> bool {
        &&& listed(self.names).len() == self.levels.len()
        &&& listed(self.names).no_duplicates()
        &&& rows_hold(
            self.levels@,
            self@,
            |p: int| height((self.levels.len() - 1 - p) as nat),
        )
    }

    /// A well-formed set stands for a well-formed chain.
    pub proof fn lemma_view_wf(&self)
        requires
            self.wf(),
        ensures
            self@.wf(),
    {
    }

    /// A set without frames.
    pub fn new() -> (set: MutualSet)
        ensures
            set.wf(),
            set@ == ChainView::empty(),
    {
        let set = MutualSet { names: names_new(), levels: Vec::new() };
        assert(set@.edges =~= Seq::empty());
        set
    }

    /// A set of one frame.
    pub fn create(name: &str) -> (set: MutualSet)
        ensures
            set.wf(),
            set@ == ChainView::single(name@),
    {
        let mut set = MutualSet::new();
        set.seed(name);
        set
    }

    /// The number of frames.
    pub fn len(&self) -> (n: usize)
        requires
            self.wf(),
        ensures
            n == self@.names.len(),
    {
        names_len(&self.names)
    }

    /// Where in the chain the frame `name` stands, or `None` where the set does not hold it.
    pub fn position(&self, name: &str) -> (r: Option<usize>)
        requires
            self.wf(),
        ensures
            match r {
                Some(p) => self@.position(name@) == Some(p as int) && p < self@.names.len()
                    && self@.names[p as int] == name@,
                None => self@.position(name@) is None && !self@.names.contains(name@),
            },
    {
        let r = names_index_of(&self.names, name);
        proof {
            if let Some(p) = r {
                lemma_position(self@, name@, p as int);
            }
        }
        r
    }

    /// The transform from `src` to `dst`, or `None` where the set does not hold both.
    pub fn get(&self, src: &str, dst: &str) -> (r: Option<RigidTransform>)
        requires
            self.wf(),
        ensures
            r == self@.get(src@, dst@),
    {
        let src_idx = match names_index_of(&self.names, src) {
            Some(i) => i,
            None => {
                return None;
            },
        };
        let dst_idx = match names_index_of(&self.names, dst) {
            Some(i) => i,
            None => {
                return None;
            },
        };
        proof {
            lemma_position(self@, src@, src_idx as int);
            lemma_position(self@, dst@, dst_idx as int);
        }
        Some(self.get_by_range(src_idx, dst_idx))
    }

    /// Takes in the fact that `tf` leads from `src` to `dst`. On an error the set is as it
    /// was.
    pub fn insert(&mut self, src: &str, dst: &str, tf: RigidTransform) -> (r: Result<
        (),
        InsertionError,
    >)
        requires
            old(self).wf(),
        ensures
            final(self).wf(),
            match r {
                Ok(()) => old(self)@.inserted(src@, dst@, tf) == Ok::<
                    ChainView,
                    InsertionErrorView,
                >(final(self)@),
                Err(e) => old(self)@.inserted(src@, dst@, tf) == Err::<
                    ChainView,
                    InsertionErrorView,
                >(e@) && final(self)@ == old(self)@,
            },
    {
        let src_idx = names_index_of(&self.names, src);
        let dst_idx = names_index_of(&self.names, dst);
        proof {
            if let Some(i) = src_idx {
                lemma_position(self@, src@, i as int);
            }
            if let Some(j) = dst_idx {
                lemma_position(self@, dst@, j as int);
            }
        }
        if same_name(src, dst) {
            let identity = RigidTransform::identity();
            if !tf.approx_eq(&identity, TOLERANCE_PARTS) {
                return Err(InsertionError::InvalidSelfLoop { coord: src.to_owned(), actual: tf });
            }
            if src_idx.is_some() {
                return Ok(());
            }
            if names_len(&self.names) != 0 {
                return Err(
                    InsertionError::DisjointCoordinates {
                        src: src.to_owned(),
                        dst: dst.to_owned(),
                    },
                );
            }
            self.seed(src);
            return Ok(());
        }
        match (src_idx, dst_idx) {
            (None, None) => {
                if names_len(&self.names) != 0 {
                    return Err(
                        InsertionError::DisjointCoordinates {
                            src: src.to_owned(),
                            dst: dst.to_owned(),
                        },
                    );
                }
                self.seed(src);
                self.append(dst, tf);
                Ok(())
            },
            (None, Some(from)) => {
                let last = self.levels.len() - 1;
                let edge = self.get_by_range(from, last).inverse().compose(&tf.inverse());
                self.append(src, edge);
                Ok(())
            },
            (Some(from), None) => {
                let last = self.levels.len() - 1;
                let edge = self.get_by_range(from, last).inverse().compose(&tf);
                self.append(dst, edge);
                Ok(())
            },
            (Some(i), Some(j)) => {
                let expect = self.get_by_range(i, j);
                if tf.approx_eq(&expect, TOLERANCE_PARTS) {
                    Ok(())
                } else {
                    Err(InsertionError::inconsistent_transform_error(expect, tf))
                }
            },
        }
    }

    /// The names of the frames, in the order of the chain.
    pub fn coord_iter(&self) -> (coords: Vec<String>)
        requires
            self.wf(),
        ensures
            coords.len() == self@.names.len(),
            forall|p: int| 0 <= p < coords.len() ==> (#[trigger] coords[p])@ == self@.names[p],
    {
        let n = names_len(&self.names);
        let mut coords: Vec<String> = Vec::new();
        let mut p: usize = 0;
        while p < n
            invariant
                n == listed(self.names).len(),
                p <= n,
                coords.len() == p,
                forall|i: int| 0 <= i < p ==> (#[trigger] coords[i])@ == listed(self.names)[i],
            decreases n - p,
        {
            match names_get(&self.names, p) {
                Some(name) => {
                    coords.push(name.clone());
                },
                None => {},
            }
            p = p + 1;
        }
        coords
    }

    /// One fact for each frame and the next, in the order of the chain: what is needed to
    /// build the chain again.
    pub fn to_facts(&self) -> (facts: Vec<CoordTransform>)
        requires
            self.wf(),
        ensures
            fact_views(facts@) == self@.facts(),
    {
        let n = self.levels.len();
        let mut facts: Vec<CoordTransform> = Vec::new();
        if n == 0 {
            assert(fact_views(facts@) =~= self@.facts());
            return facts;
        }
        let mut p: usize = 0;
        while p + 1 < n
            invariant
                self.wf(),
                n == self.levels.len(),
                n >= 1,
                p + 1 <= n,
                facts.len() == p,
                forall|k: int| 0 <= k < p ==> (#[trigger] facts[k])@ == self@.fact(k),
            decreases n - p,
        {
            proof {
                lemma_level_kept((n - 1 - p) as nat, 0);
                assert(pow2(0) == 1);
            }
            match (names_get(&self.names, p), names_get(&self.names, p + 1)) {
                (Some(src), Some(dst)) => {
                    facts.push(
                        CoordTransform { src: src.clone(), dst: dst.clone(), tf: self.levels[p][0] },
                    );
                },
                _ => {},
            }
            p = p + 1;
        }
        assert(fact_views(facts@) =~= self@.facts());
        facts
    }

    /// Joins `other` to the end of this chain, where `bridge` leads from the last frame of
    /// this chain to the first frame of `other`: the frames of `other` follow in their own
    /// order, each reached by one append. Two sets that share a frame, or of which one is
    /// empty, are handed back as they came.
    pub fn merge(self, other: MutualSet, bridge: RigidTransform) -> (r: Result<
        MutualSet,
        (MutualSet, MutualSet),
    >)
        requires
            self.wf(),
            other.wf(),
        ensures
            r is Ok <==> self@.names.len() > 0 && other@.names.len() > 0 && self@.disjoint(other@),
            match r {
                Ok(joined) => joined.wf() && joined@ == self@.merged(other@, bridge),
                Err((a, b)) => a == self && b == other,
            },
    {
        let n = names_len(&self.names);
        let m = names_len(&other.names);
        if n == 0 || m == 0 {
            return Err((self, other));
        }
        let mut j: usize = 0;
        while j < m
            invariant
                m == other@.names.len(),
                j <= m,
                forall|i: int| 0 <= i < j ==> !self@.names.contains(#[trigger] other@.names[i]),
            decreases m - j,
        {
            match names_get(&other.names, j) {
                Some(name) => {
                    if names_index_of(&self.names, name.as_str()).is_some() {
                        proof {
                            let shared = other@.names[j as int];
                            assert(other@.names.contains(shared));
                            assert(self@.names.contains(shared));
                        }
                        return Err((self, other));
                    }
                },
                None => {},
            }
            j = j + 1;
        }
        proof {
            assert forall|name: Seq<char>|
                !(self@.names.contains(name) && other@.names.contains(name)) by {
                if other@.names.contains(name) {
                    let i = other@.names.index_of(name);
                    assert(other@.names[i] == name);
                }
            }
        }
        Ok(self.join(other, bridge))
    }

    /// Joins `other`, which shares no frame with this set, to the end of this chain.
    pub(crate) fn join(self, other: MutualSet, bridge: RigidTransform) -> (joined: MutualSet)
        requires
            self.wf(),
            other.wf(),
            self@.names.len() > 0,
            other@.names.len() > 0,
            self@.disjoint(other@),
        ensures
            joined.wf(),
            joined@ == self@.merged(other@, bridge),
    {
        let mut this = self;
        let n = names_len(&this.names);
        let m = names_len(&other.names);
        let ghost goal = self@.merged(other@, bridge);
        let mut j: usize = 0;
        while j < m
            invariant
                this.wf(),
                other.wf(),
                self.wf(),
                n == self@.names.len(),
                n >= 1,
                m == other@.names.len(),
                j <= m,
                self@.disjoint(other@),
                goal == self@.merged(other@, bridge),
                this@.names == goal.names.take(n + j),
                this@.edges == goal.edges.take(n - 1 + j),
            decreases m - j,
        {
            proof {
                other.lemma_view_wf();
                self.lemma_view_wf();
            }
            let edge = if j == 0 {
                bridge
            } else {
                other.get_by_range(j - 1, j)
            };
            match names_get(&other.names, j) {
                Some(name) => {
                    proof {
                        let fresh = other@.names[j as int];
                        assert(goal.names[n + j] == fresh);
                        assert(other@.names.contains(fresh));
                        if this@.names.contains(fresh) {
                            let i = this@.names.index_of(fresh);
                            assert(this@.names[i] == fresh);
                            if i < n {
                                assert(self@.names[i] == fresh);
                                assert(self@.names.contains(fresh));
                            } else {
                                assert(other@.names[i - n] == fresh);
                            }
                        }
                        assert(goal.edges[n - 1 + j] == edge);
                        assert(goal.names.take(n + j).push(fresh) =~= goal.names.take(n + j + 1));
                        assert(goal.edges.take(n - 1 + j).push(edge) =~= goal.edges.take(n + j));
                    }
                    this.append(name.as_str(), edge);
                },
                None => {},
            }
            j = j + 1;
        }
        proof {
            assert(goal.names.take(n + m) =~= goal.names);
            other.lemma_view_wf();
            self.lemma_view_wf();
            assert(goal.edges.take(n - 1 + m) =~= goal.edges);
        }
        this
    }

    /// Whether every entry above level 0 agrees, within the tolerance, with its two halves
    /// composed: the check that the table was built as it should have been.
    pub fn assert_consistency(&self) -> (r: bool)
        requires
            self.wf(),
        ensures
            r == self@.consistent(),
    {
        let n = self.levels.len();
        let ghost chain = self@;
        let mut p: usize = 0;
        while p < n
            invariant
                self.wf(),
                chain == self@,
                n == self.levels.len(),
                p <= n,
                forall|i: int, k: nat|
                    0 <= i < p && k >= 1 && i + pow2(k) <= chain.edges.len() ==> #[trigger] chain.halves_agree(
                        i,
                        k,
                    ),
            decreases n - p,
        {
            if !self.row_is_consistent(p) {
                proof {
                    let k = choose|k: nat|
                        k >= 1 && p + pow2(k) <= chain.edges.len() && !chain.halves_agree(
                            p as int,
                            k,
                        );
                    assert(!chain.halves_agree(p as int, k));
                }
                return false;
            }
            p = p + 1;
        }
        proof {
            assert forall|i: int, k: nat|
                0 <= i && k >= 1 && i + pow2(k) <= chain.edges.len() implies #[trigger] chain.halves_agree(
                i,
                k,
            ) by {
                lemma_pow2_positive(k);
            }
        }
        true
    }

    /// Whether every entry above level 0 of row `p` agrees with its two halves composed.
    fn row_is_consistent(&self, p: usize) -> (r: bool)
        requires
            self.wf(),
            p < self.levels.len(),
        ensures
            r == forall|k: nat|
                k >= 1 && p + pow2(k) <= self@.edges.len() ==> #[trigger] self@.halves_agree(
                    p as int,
                    k,
                ),
    {
        let n = self.levels.len();
        let ghost chain = self@;
        let rows = self.levels[p].len();
        let mut k: usize = 1;
        let mut half: usize = 1;
        proof {
            assert(pow2(0) == 1);
        }
        while k < rows
            invariant
                self.wf(),
                chain == self@,
                n == self.levels.len(),
                p < n,
                rows == self.levels[p as int].len(),
                1 <= k,
                k < rows ==> half == pow2((k - 1) as nat),
                forall|l: nat| 1 <= l < k && l < rows ==> #[trigger] chain.halves_agree(p as int, l),
            decreases rows - k,
        {
            proof {
                lemma_level_kept((n - 1 - p) as nat, k as nat);
                lemma_level_kept((n - 1 - p) as nat, (k - 1) as nat);
                assert(pow2(k as nat) == 2 * pow2((k - 1) as nat));
                lemma_level_kept((n - 1 - (p + half)) as nat, (k - 1) as nat);
            }
            let halves = self.levels[p][k - 1].compose(&self.levels[p + half][k - 1]);
            if !self.levels[p][k].approx_eq(&halves, TOLERANCE_PARTS) {
                proof {
                    assert(!chain.halves_agree(p as int, k as nat));
                }
                return false;
            }
            k = k + 1;
            if k < rows {
                proof {
                    lemma_level_kept((n - 1 - p) as nat, k as nat);
                    assert(pow2(k as nat) == 2 * pow2((k - 1) as nat));
                }
                half = half * 2;
            }
        }
        proof {
            assert forall|l: nat| l >= 1 && p + pow2(l) <= chain.edges.len() implies #[trigger] chain.halves_agree(
                p as int,
                l,
            ) by {
                lemma_level_kept((n - 1 - p) as nat, l);
            }
        }
        true
    }

    /// Makes `name` the only frame of an empty set.
    fn seed(&mut self, name: &str)
        requires
            old(self).wf(),
            old(self)@.names.len() == 0,
        ensures
            final(self).wf(),
            final(self)@ == ChainView::single(name@),
    {
        let _ = names_insert(&mut self.names, name);
        self.levels.push(Vec::new());
        assert(self@.names =~= seq![name@]);
        assert(self@.edges =~= Seq::empty());
    }

    /// Puts the new frame `name` at the end of the chain, reached from the frame that was
    /// last by `edge`. Each row that lies a power of two before the new position gains
    /// one level.
    fn append(&mut self, name: &str, edge: RigidTransform)
        requires
            old(self).wf(),
            old(self)@.names.len() > 0,
            !old(self)@.names.contains(name@),
        ensures
            final(self).wf(),
            final(self)@ == old(self)@.extended(name@, edge),
    {
        let ghost before = self@;
        let ghost target = before.extended(name@, edge);
        let q = self.levels.len();
        let _ = names_insert(&mut self.names, name);
        self.levels.push(Vec::new());
        let mut nth: usize = 0;
        let mut offset: usize = 1;
        let mut latter = edge;
        let mut done = false;
        let ghost mut filled: nat = 0;
        proof {
            assert(pow2(0) == 1);
            assert forall|p: int| 0 <= p < self.levels@.len() implies {
                &&& (#[trigger] self.levels@[p]).len() == (if q - p < pow2(filled) {
                    height((q - p) as nat)
                } else {
                    height((q - 1 - p) as nat)
                })
                &&& forall|k: int|
                    0 <= k < self.levels@[p].len() ==> #[trigger] self.levels@[p]@[k]
                        == target.entry(p, k as nat)
            } by {
                if p < q {
                    assert(self.levels@[p] == old(self).levels@[p]);
                    assert forall|k: int| 0 <= k < self.levels@[p].len() implies #[trigger] self.levels@[p]@[k]
                        == target.entry(p, k as nat) by {
                        lemma_level_kept((q - 1 - p) as nat, k as nat);
                        lemma_entry_extended(before, name@, edge, p, k as nat);
                    }
                }
            }
        }
        while !done
            invariant
                q >= 1,
                self.levels.len() == q + 1,
                listed(self.names) == target.names,
                target.edges.len() == q,
                target.edges[q - 1] == edge,
                !done ==> offset == pow2(nth as nat) && offset <= q && filled == nth && latter
                    == target.entry(q - offset, nth as nat),
                done ==> q < pow2(filled),
                forall|p: int|
                    0 <= p < self.levels@.len() ==> {
                        &&& (#[trigger] self.levels@[p]).len() == (if q - p < pow2(filled) {
                            height((q - p) as nat)
                        } else {
                            height((q - 1 - p) as nat)
                        })
                        &&& forall|k: int|
                            0 <= k < self.levels@[p].len() ==> #[trigger] self.levels@[p]@[k]
                                == target.entry(p, k as nat)
                    },
            decreases (if done { 0int } else { 1 + q - offset }),
        {
            let idx = q - offset;
            let ghost rows = self.levels@;
            proof {
                lemma_pow2_exceeds(nth as nat);
                assert(pow2((nth + 1) as nat) == 2 * pow2(nth as nat));
                lemma_height_between(offset as nat, nth as nat);
                if nth > 0 {
                    assert(pow2(nth as nat) == 2 * pow2((nth - 1) as nat));
                    lemma_pow2_positive((nth - 1) as nat);
                    lemma_height_between((offset - 1) as nat, (nth - 1) as nat);
                }
                assert(rows[idx as int].len() == nth);
            }
            self.levels[idx].push(latter);
            proof {
                assert forall|p: int| 0 <= p < self.levels@.len() implies {
                    &&& (#[trigger] self.levels@[p]).len() == (if q - p < pow2((nth + 1) as nat) {
                        height((q - p) as nat)
                    } else {
                        height((q - 1 - p) as nat)
                    })
                    &&& forall|k: int|
                        0 <= k < self.levels@[p].len() ==> #[trigger] self.levels@[p]@[k]
                            == target.entry(p, k as nat)
                } by {
                    if p == idx {
                    } else {
                        assert(self.levels@[p] == rows[p]);
                        if pow2(nth as nat) < q - p < pow2((nth + 1) as nat) {
                            lemma_height_between((q - p) as nat, nth as nat);
                            lemma_height_between((q - 1 - p) as nat, nth as nat);
                        }
                    }
                }
            }
            if idx < offset {
                done = true;
                proof {
                    filled = (nth + 1) as nat;
                }
            } else {
                let idx2 = idx - offset;
                proof {
                    lemma_height_between((q - 1 - idx2) as nat, nth as nat);
                }
                latter = self.levels[idx2][nth].compose(&latter);
                nth = nth + 1;
                offset = offset * 2;
                proof {
                    filled = nth as nat;
                }
            }
        }
        proof {
            assert(self@.names == target.names);
            assert forall|p: int| 0 <= p < q implies #[trigger] self@.edges[p] == target.edges[p] by {
                lemma_level_kept((q - p) as nat, 0);
                assert(pow2(0) == 1);
                assert(self.levels@[p]@[0] == target.entry(p, 0));
            }
            assert(self@.edges =~= target.edges);
            assert(self@ == target);
            assert forall|p: int| 0 <= p < self.levels@.len() implies {
                &&& (#[trigger] self.levels@[p]).len() == height((self.levels.len() - 1 - p) as nat)
                &&& forall|k: int|
                    0 <= k < height((self.levels.len() - 1 - p) as nat) ==> #[trigger] self.levels@[p]@[k]
                        == self@.entry(p, k as nat)
            } by {
                lemma_pow2_positive(filled);
            }
            assert(target.names.no_duplicates()) by {
                assert(before.names.no_duplicates());
                assert forall|i: int, j: int|
                    0 <= i < target.names.len() && 0 <= j < target.names.len() && i != j implies target.names[i]
                    != target.names[j] by {
                    if i < q && j < q {
                    } else if i == q {
                        assert(before.names[j] == target.names[j]);
                        assert(before.names.contains(before.names[j]));
                    } else {
                        assert(before.names[i] == target.names[i]);
                        assert(before.names.contains(before.names[i]));
                    }
                }
            }
        }
    }

    /// The transform from the frame at position `start` to the frame at position `end`:
    /// the identity where the two are one, else the entries along the binary digits of
    /// the distance, lowest first, and the inverse of that where `start` comes later.
    pub fn get_by_range(&self, start: usize, end: usize) -> (r: RigidTransform)
        requires
            self.wf(),
            start < self@.names.len(),
            end < self@.names.len(),
        ensures
            r == self@.span(start as int, end as int),
    {
        let (lo, hi) = if start <= end {
            (start, end)
        } else {
            (end, start)
        };
        let ghost chain = self@;
        let mut at: usize = lo;
        let mut rest: usize = hi - lo;
        let mut level: usize = 0;
        let mut step: usize = 1;
        let mut acc = RigidTransform::identity();
        assert(rest * pow2(0) == rest) by {
            assert(pow2(0) == 1);
        }
        while rest != 0
            invariant
                self.wf(),
                chain == self@,
                lo <= at,
                hi < self.levels.len(),
                at + rest * pow2(level as nat) == hi,
                rest != 0 ==> step == pow2(level as nat),
                chain.walk(at as int, rest as nat, level as nat, acc) == chain.walk(
                    lo as int,
                    (hi - lo) as nat,
                    0,
                    RigidTransform::spec_identity(),
                ),
            decreases rest,
        {
            let ghost width = pow2(level as nat);
            let ghost before = rest;
            proof {
                lemma_pow2_exceeds(level as nat);
                assert(pow2((level + 1) as nat) == 2 * width);
                assert(before * width >= width) by (nonlinear_arith)
                    requires
                        before >= 1,
                        width >= 0,
                ;
                assert(before * width == (before / 2) * (2 * width) + (if before % 2 == 1 {
                    width
                } else {
                    0
                })) by (nonlinear_arith)
                    requires
                        before == 2 * (before / 2) + before % 2,
                        0 <= before % 2 < 2,
                ;
            }
            if rest % 2 == 1 {
                proof {
                    lemma_level_kept((self.levels.len() - 1 - at) as nat, level as nat);
                }
                acc = acc.compose(&self.levels[at][level]);
                at = at + step;
            }
            rest = rest / 2;
            level = level + 1;
            if rest != 0 {
                assert(rest * (2 * width) >= 2 * width) by (nonlinear_arith)
                    requires
                        rest >= 1,
                        width >= 0,
                ;
                step = step * 2;
            }
        }
        if start <= end {
            acc
        } else {
            acc.inverse()
        }
    }
}

} // verus!
