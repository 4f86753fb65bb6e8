//! Every known frame and the group that it belongs to.

use crate::chain::ChainView;
use crate::coord::{fact_views, CoordTransform, FactView};
use crate::error::{InsertionError, InsertionErrorView};
use crate::mutual_set::MutualSet;
use crate::names::{listed, names_clone, names_index_of, names_insert, names_new, same_name};
use crate::seqs::{lemma_index_of, lemma_push_fresh};
use crate::transform::{composed, RigidTransform};
use indexmap::IndexSet;
use vstd::prelude::*;

verus! {

/// A set of related or disjoint coordinate transformations: the groups of frames that are
/// known to be related, each with its chain.
#[derive(Debug)]
pub struct TransformSet {
    /// Every known frame, in the order in which it was first seen.
    frames: IndexSet<String>,
    /// For each frame, by its index in `frames`, the slot of its group.
    group_of: Vec<usize>,
    /// One slot for each group that ever was. A group that was merged into another leaves
    /// its slot empty.
    groups: Vec<Option<MutualSet>>,
}

/// The groups of a [`TransformSet`], each as the chain that it stands for.
pub struct TransformSetView {
    pub groups: Seq<Option<ChainView>>,
}

impl TransformSetView {
    /// Group `g` is there and holds the frame `name`.
    pub open spec fn holds(self, g: int, name: Seq<char>) -> bool {
        &&& 0 <= g < self.groups.len()
        &&& self.groups[g] is Some
        &&& self.groups[g].unwrap().names.contains(name)
    }

    /// Each group is a chain of at least one frame, and no frame is in two groups.
    pub open spec fn wf(self) -> bool {
        &&& forall|g: int|
            0 <= g < self.groups.len() && (#[trigger] self.groups[g]) is Some ==> {
                &&& self.groups[g].unwrap().wf()
                &&& self.groups[g].unwrap().names.len() > 0
            }
        &&& forall|g: int, h: int, name: Seq<char>|
            #[trigger] self.holds(g, name) && #[trigger] self.holds(h, name) ==> g == h
    }

    pub open spec fn contains(self, name: Seq<char>) -> bool {
        exists|g: int| self.holds(g, name)
    }

    /// The group that holds a frame.
    pub open spec fn group_of(self, name: Seq<char>) -> Option<int> {
        if self.contains(name) {
            Some(choose|g: int| self.holds(g, name))
        } else {
            None
        }
    }

    /// The transform between two frames of one group. Between frames of two groups, and
    /// for a frame that is not known, there is none.
    pub open spec fn get(self, src: Seq<char>, dst: Seq<char>) -> Option<RigidTransform> {
        match (self.group_of(src), self.group_of(dst)) {
            (Some(g), Some(h)) => {
                if g == h {
                    self.groups[g].unwrap().get(src, dst)
                } else {
                    None
                }
            },
            _ => None,
        }
    }

    /// The transform that leads from the last frame of the group of `src` to the first
    /// frame of the group of `dst`, where `tf` leads from `src` to `dst`.
    pub open spec fn bridge(a: ChainView, b: ChainView, src: Seq<char>, dst: Seq<char>, tf: RigidTransform) -> RigidTransform {
        composed(
            composed(a.span(a.names.len() - 1, a.position(src).unwrap()), tf),
            b.span(b.position(dst).unwrap(), 0),
        )
    }

    /// What becomes of the groups when they are told that `tf` leads from `src` to `dst`.
    ///
    /// Two frames that are not known found a group in a new slot. Where one group is
    /// concerned, that group takes the fact as a chain does. Where the frames are in two
    /// groups, the group of `dst` is joined to the end of the group of `src`; the joined
    /// group gets a new slot, and the two old slots are left empty.
    pub open spec fn inserted(self, src: Seq<char>, dst: Seq<char>, tf: RigidTransform) -> Result<
        TransformSetView,
        InsertionErrorView,
    > {
        match (self.group_of(src), self.group_of(dst)) {
            (None, None) => match ChainView::empty().inserted(src, dst, tf) {
                Ok(chain) => Ok(TransformSetView { groups: self.groups.push(Some(chain)) }),
                Err(e) => Err(e),
            },
            (Some(g), None) => self.inserted_into(g, src, dst, tf),
            (None, Some(h)) => self.inserted_into(h, src, dst, tf),
            (Some(g), Some(h)) => {
                if g == h {
                    self.inserted_into(g, src, dst, tf)
                } else {
                    let a = self.groups[g].unwrap();
                    let b = self.groups[h].unwrap();
                    let joined = a.merged(b, Self::bridge(a, b, src, dst, tf));
                    Ok(
                        TransformSetView {
                            groups: self.groups.update(g, None).update(h, None).push(Some(joined)),
                        },
                    )
                }
            },
        }
    }

    /// The facts of the groups in the first `g` slots, slot by slot.
    pub open spec fn facts_upto(self, g: nat) -> Seq<FactView>
        decreases g,
    {
        if g == 0 {
            Seq::empty()
        } else {
            self.facts_upto((g - 1) as nat) + (match self.groups[g - 1] {
                Some(chain) => chain.facts(),
                None => Seq::empty(),
            })
        }
    }

    /// One fact for each frame of a group and the next, group by group in the order of
    /// the slots.
    pub open spec fn facts(self) -> Seq<FactView> {
        self.facts_upto(self.groups.len())
    }

    /// What becomes of the groups when group `g` takes the fact.
    pub open spec fn inserted_into(self, g: int, src: Seq<char>, dst: Seq<char>, tf: RigidTransform) -> Result<
        TransformSetView,
        InsertionErrorView,
    > {
        match self.groups[g].unwrap().inserted(src, dst, tf) {
            Ok(chain) => Ok(TransformSetView { groups: self.groups.update(g, Some(chain)) }),
            Err(e) => Err(e),
        }
    }
}

/// Each frame points at a group that holds it, and each frame of a group is known and
/// points back at that group.
pub open spec fn registered(
    frames: Seq<Seq<char>>,
    group_of: Seq<usize>,
    view: TransformSetView,
) -> bool {
    &&& frames.no_duplicates()
    &&& frames.len() == group_of.len()
    &&& forall|f: int|
        0 <= f < frames.len() ==> view.holds(#[trigger] group_of[f] as int, frames[f])
    &&& forall|g: int, name: Seq<char>| #[trigger]
        view.holds(g, name) ==> frames.contains(name) && group_of[frames.index_of(name)] == g
}

/// In a well-formed set the group of a frame is the one group that holds it.
pub proof fn lemma_group_of(view: TransformSetView, g: int, name: Seq<char>)
    requires
        view.wf(),
        view.holds(g, name),
    ensures
        view.group_of(name) == Some(g),
{
    let h = choose|h: int| view.holds(h, name);
    assert(view.holds(h, name));
}

impl View for TransformSet {
    type V = TransformSetView;

    closed spec fn view(&self) -> TransformSetView {
        TransformSetView {
            groups: Seq::new(
                self.groups.len() as nat,
                |g: int|
                    match self.groups[g] {
                        Some(set) => Some(set@),
                        None => None,
                    },
            ),
        }
    }
}

impl Clone for TransformSet {
    fn clone(&self) -> (copy: TransformSet)
        ensures
            copy@ == self@,
            copy.wf() == self.wf(),
    {
        let mut groups: Vec<Option<MutualSet>> = Vec::new();
        let mut g: usize = 0;
        while g < self.groups.len()
            invariant
                g <= self.groups.len(),
                groups.len() == g,
                forall|i: int|
                    0 <= i < g ==> match (#[trigger] groups[i], self.groups[i]) {
                        (Some(copy), Some(set)) => copy@ == set@ && copy.wf() == set.wf(),
                        (None, None) => true,
                        _ => false,
                    },
            decreases self.groups.len() - g,
        {
            let slot = match &self.groups[g] {
                Some(set) => Some(set.clone()),
                None => None,
            };
            groups.push(slot);
            g = g + 1;
        }
        let mut group_of: Vec<usize> = Vec::new();
        let mut f: usize = 0;
        while f < self.group_of.len()
            invariant
                f <= self.group_of.len(),
                group_of@ == self.group_of@.take(f as int),
            decreases self.group_of.len() - f,
        {
            group_of.push(self.group_of[f]);
            assert(self.group_of@.take(f as int).push(self.group_of@[f as int])
                =~= self.group_of@.take(f + 1));
            f = f + 1;
        }
        assert(self.group_of@.take(self.group_of.len() as int) =~= self.group_of@);
        let copy = TransformSet { frames: names_clone(&self.frames), group_of, groups };
        proof {
            assert(copy@.groups =~= self@.groups);
            assert(copy@ == self@);
            assert forall|i: int| 0 <= i < copy.groups.len() implies ((#[trigger] copy.groups[i])
                is Some <==> self.groups[i] is Some) by {
                assert(groups[i] is Some <==> self.groups[i] is Some);
            }
            if self.wf() {
                assert forall|i: int|
                    0 <= i < copy.groups.len() && (#[trigger] copy.groups[i]) is Some implies {
                    &&& copy.groups[i].unwrap().wf()
                    &&& copy.groups[i].unwrap()@.names.len() > 0
                } by {
                    assert(groups[i] is Some);
                    assert(self.groups[i] is Some);
                }
            }
            if copy.wf() {
                assert forall|i: int|
                    0 <= i < self.groups.len() && (#[trigger] self.groups[i]) is Some implies {
                    &&& self.groups[i].unwrap().wf()
                    &&& self.groups[i].unwrap()@.names.len() > 0
                } by {
                    assert(groups[i] is Some);
                    assert(copy.groups[i] is Some);
                }
            }
        }
        copy
    }
}

impl Default for TransformSet {
    fn default() -> (set: TransformSet)
        ensures
            set.wf(),
            set@.groups.len() == 0,
    {
        TransformSet::new()
    }
}

impl TransformSet {
    /// Every frame has a group that holds it, every group is a well-formed chain of at
    /// least one frame, and each of its frames is known and points back at it.
    pub closed spec fn wf(&self) -> bool {
        &&& registered(listed(self.frames), self.group_of@, self@)
        &&& forall|g: int|
            0 <= g < self.groups.len() && (#[trigger] self.groups[g]) is Some ==> {
                &&& self.groups[g].unwrap().wf()
                &&& self.groups[g].unwrap()@.names.len() > 0
            }
    }

    /// A well-formed set stands for well-formed groups.
    pub proof fn lemma_view_wf(&self)
        requires
            self.wf(),
        ensures
            self@.wf(),
    {
        assert forall|g: int|
            0 <= g < self@.groups.len() && (#[trigger] self@.groups[g]) is Some implies {
            &&& self@.groups[g].unwrap().wf()
            &&& self@.groups[g].unwrap().names.len() > 0
        } by {
            assert(self.groups[g] is Some);
            self.groups[g].unwrap().lemma_view_wf();
        }
    }

    /// The frame at index `f` is known, and its group is `group_of[f]`.
    proof fn lemma_frame(&self, f: int)
        requires
            self.wf(),
            0 <= f < self.group_of.len(),
        ensures
            self@.group_of(listed(self.frames)[f]) == Some(self.group_of[f] as int),
            self@.holds(self.group_of[f] as int, listed(self.frames)[f]),
    {
        self.lemma_view_wf();
        lemma_group_of(self@, self.group_of[f] as int, listed(self.frames)[f]);
    }

    /// A name that is not among the frames is in no group.
    proof fn lemma_unknown(&self, name: Seq<char>)
        requires
            self.wf(),
            !listed(self.frames).contains(name),
        ensures
            self@.group_of(name) is None,
            !self@.contains(name),
    {
        if self@.contains(name) {
            let g = choose|g: int| self@.holds(g, name);
            assert(self@.holds(g, name));
        }
    }

    /// A set without frames.
    pub fn new() -> (set: TransformSet)
        ensures
            set.wf(),
            set@.groups.len() == 0,
    {
        TransformSet { frames: names_new(), group_of: Vec::new(), groups: Vec::new() }
    }

    /// Whether the frame `coord` is known.
    pub fn contains_coord(&self, coord: &str) -> (r: bool)
        requires
            self.wf(),
        ensures
            r == self@.contains(coord@),
    {
        match names_index_of(&self.frames, coord) {
            Some(f) => {
                proof {
                    self.lemma_frame(f as int);
                }
                true
            },
            None => {
                proof {
                    self.lemma_unknown(coord@);
                }
                false
            },
        }
    }

    /// Takes in the fact that `tf` leads from `src` to `dst`: a new group for two new
    /// frames, one frame more in a group, a check against a group that holds both, or two
    /// groups joined into one. On an error the set is as it was.
    pub fn insert(&mut self, src: &str, dst: &str, tf: RigidTransform) -> (r: Result<
        (),
        InsertionError,
    >)
        requires
            old(self).wf(),
        ensures
            final(self).wf(),
            match r {
                Ok(()) => old(self)@.inserted(src@, dst@, tf) == Ok::<
                    TransformSetView,
                    InsertionErrorView,
                >(final(self)@),
                Err(e) => old(self)@.inserted(src@, dst@, tf) == Err::<
                    TransformSetView,
                    InsertionErrorView,
                >(e@) && final(self)@ == old(self)@,
            },
    {
        let src_frame = names_index_of(&self.frames, src);
        let dst_frame = names_index_of(&self.frames, dst);
        proof {
            match src_frame {
                Some(f) => self.lemma_frame(f as int),
                None => self.lemma_unknown(src@),
            }
            match dst_frame {
                Some(f) => self.lemma_frame(f as int),
                None => self.lemma_unknown(dst@),
            }
        }
        match (src_frame, dst_frame) {
            (None, None) => self.found_group(src, dst, tf),
            (Some(f), None) => {
                let g = self.group_of[f];
                self.insert_into(g, src, dst, tf, true, false)
            },
            (None, Some(f)) => {
                let g = self.group_of[f];
                self.insert_into(g, src, dst, tf, false, true)
            },
            (Some(s), Some(d)) => {
                let src_group = self.group_of[s];
                let dst_group = self.group_of[d];
                if src_group == dst_group {
                    self.insert_into(src_group, src, dst, tf, true, true)
                } else {
                    self.join_groups(src_group, dst_group, src, dst, tf);
                    Ok(())
                }
            },
        }
    }

    /// Hands the fact to group `g`, which holds each of the two frames that is known, and
    /// makes the other, if there is one, a frame of that group.
    fn insert_into(
        &mut self,
        g: usize,
        src: &str,
        dst: &str,
        tf: RigidTransform,
        src_known: bool,
        dst_known: bool,
    ) -> (r: Result<(), InsertionError>)
        requires
            old(self).wf(),
            src_known || dst_known,
            src_known ==> old(self)@.holds(g as int, src@),
            dst_known ==> old(self)@.holds(g as int, dst@),
            !src_known ==> !listed(old(self).frames).contains(src@),
            !dst_known ==> !listed(old(self).frames).contains(dst@),
        ensures
            final(self).wf(),
            match r {
                Ok(()) => old(self)@.inserted_into(g as int, src@, dst@, tf) == Ok::<
                    TransformSetView,
                    InsertionErrorView,
                >(final(self)@),
                Err(e) => old(self)@.inserted_into(g as int, src@, dst@, tf) == Err::<
                    TransformSetView,
                    InsertionErrorView,
                >(e@) && final(self)@ == old(self)@,
            },
    {
        let ghost before = *self;
        let ghost frames = listed(self.frames);
        let ghost chain = before@.groups[g as int].unwrap();
        proof {
            self.lemma_view_wf();
            if !src_known {
                self.lemma_unknown(src@);
            }
            if !dst_known {
                self.lemma_unknown(dst@);
            }
        }
        let mut set = self.groups[g].take().unwrap();
        let r = set.insert(src, dst, tf);
        let ghost after = set@;
        self.groups[g] = Some(set);
        match r {
            Err(e) => {
                assert(self@.groups =~= before@.groups);
                assert(self.groups@ =~= before.groups@.update(g as int, self.groups@[g as int]));
                Err(e)
            },
            Ok(()) => {
                assert(self@.groups =~= before@.groups.update(g as int, Some(after)));
                if !src_known {
                    self.register(src, g);
                    proof {
                        if chain.names.contains(src@) {
                            assert(before@.holds(g as int, src@));
                        }
                        lemma_push_fresh(frames, src@);
                        lemma_push_fresh(chain.names, src@);
                    }
                } else if !dst_known {
                    self.register(dst, g);
                    proof {
                        if chain.names.contains(dst@) {
                            assert(before@.holds(g as int, dst@));
                        }
                        lemma_push_fresh(frames, dst@);
                        lemma_push_fresh(chain.names, dst@);
                    }
                }
                proof {
                    let view = self@;
                    assert(view.groups =~= before@.groups.update(g as int, Some(after)));
                    let now = listed(self.frames);
                    assert forall|f: int| 0 <= f < now.len() implies view.holds(
                        #[trigger] self.group_of@[f] as int,
                        now[f],
                    ) by {
                        if f < frames.len() {
                            assert(before@.holds(before.group_of@[f] as int, frames[f]));
                        }
                    }
                    assert forall|h: int, name: Seq<char>| #[trigger]
                        view.holds(h, name) implies now.contains(name) && self.group_of@[now.index_of(
                        name,
                    )] == h by {
                        if h != g || chain.names.contains(name) {
                            assert(before@.holds(h, name));
                        }
                    }
                }
                Ok(())
            },
        }
    }

    /// Joins the group `dst_group`, which holds `dst`, to the end of the group `src_group`,
    /// which holds `src`. The joined group gets a new slot, and all its frames point there.
    fn join_groups(
        &mut self,
        src_group: usize,
        dst_group: usize,
        src: &str,
        dst: &str,
        tf: RigidTransform,
    )
        requires
            old(self).wf(),
            src_group != dst_group,
            old(self)@.holds(src_group as int, src@),
            old(self)@.holds(dst_group as int, dst@),
        ensures
            final(self).wf(),
            final(self)@.groups == old(self)@.groups.update(src_group as int, None).update(
                dst_group as int,
                None,
            ).push(
                Some(
                    old(self)@.groups[src_group as int].unwrap().merged(
                        old(self)@.groups[dst_group as int].unwrap(),
                        TransformSetView::bridge(
                            old(self)@.groups[src_group as int].unwrap(),
                            old(self)@.groups[dst_group as int].unwrap(),
                            src@,
                            dst@,
                            tf,
                        ),
                    ),
                ),
            ),
    {
        let ghost before = *self;
        let ghost frames = listed(self.frames);
        proof {
            self.lemma_view_wf();
        }
        let a = self.groups[src_group].take().unwrap();
        let b = self.groups[dst_group].take().unwrap();
        let ghost chain_a = a@;
        let ghost chain_b = b@;
        proof {
            assert forall|name: Seq<char>|
                !(chain_a.names.contains(name) && chain_b.names.contains(name)) by {
                if chain_a.names.contains(name) && chain_b.names.contains(name) {
                    assert(before@.holds(src_group as int, name));
                    assert(before@.holds(dst_group as int, name));
                }
            }
        }
        let i = a.position(src).unwrap();
        let j = b.position(dst).unwrap();
        let last = a.len() - 1;
        let bridge = a.get_by_range(last, i).compose(&tf).compose(&b.get_by_range(j, 0));
        let joined = a.join(b, bridge);
        let ghost chain = joined@;
        let names = joined.coord_iter();
        let id = self.groups.len();
        self.groups.push(Some(joined));
        let ghost view = self@;
        let ghost slots = self.groups;
        proof {
            assert(view.groups =~= before@.groups.update(src_group as int, None).update(
                dst_group as int,
                None,
            ).push(Some(chain)));
            assert(chain.names =~= chain_a.names + chain_b.names);
            assert forall|q: int| 0 <= q < chain.names.len() implies frames.contains(
                #[trigger] chain.names[q],
            ) by {
                if q < chain_a.names.len() {
                    assert(chain_a.names.contains(chain_a.names[q]));
                    assert(before@.holds(src_group as int, chain.names[q]));
                } else {
                    assert(chain_b.names.contains(chain_b.names[q - chain_a.names.len()]));
                    assert(before@.holds(dst_group as int, chain.names[q]));
                }
            }
        }
        let mut p: usize = 0;
        while p < names.len()
            invariant
                before.wf(),
                self.groups == slots,
                self.frames == before.frames,
                frames == listed(self.frames),
                self@ == view,
                self.groups.len() == id + 1,
                self.group_of.len() == frames.len(),
                p <= names.len(),
                names.len() == chain.names.len(),
                forall|q: int| 0 <= q < names.len() ==> (#[trigger] names[q])@ == chain.names[q],
                forall|q: int| 0 <= q < chain.names.len() ==> frames.contains(#[trigger] chain.names[q]),
                forall|f: int|
                    0 <= f < frames.len() ==> #[trigger] self.group_of@[f] == (if exists|q: int|
                        0 <= q < p && chain.names[q] == frames[f] {
                        id
                    } else {
                        before.group_of@[f]
                    }),
            decreases names.len() - p,
        {
            let ghost current = self.group_of@;
            match names_index_of(&self.frames, names[p].as_str()) {
                Some(f) => {
                    self.group_of.set(f, id);
                    proof {
                        assert forall|e: int| 0 <= e < frames.len() implies #[trigger] self.group_of@[e]
                            == (if exists|q: int| 0 <= q < p + 1 && chain.names[q] == frames[e] {
                            id
                        } else {
                            before.group_of@[e]
                        }) by {
                            if e == f {
                                assert(chain.names[p as int] == frames[e]);
                            } else {
                                if exists|q: int| 0 <= q < p + 1 && chain.names[q] == frames[e] {
                                    let q = choose|q: int|
                                        0 <= q < p + 1 && chain.names[q] == frames[e];
                                    assert(q < p);
                                }
                            }
                        }
                    }
                },
                None => {
                    assert(false);
                },
            }
            p = p + 1;
        }
        proof {
            let group_of = self.group_of@;
            assert forall|g: int|
                0 <= g < self.groups.len() && (#[trigger] self.groups[g]) is Some implies {
                &&& self.groups[g].unwrap().wf()
                &&& self.groups[g].unwrap()@.names.len() > 0
            } by {
                if g < id {
                    assert(self.groups[g] == before.groups[g]);
                }
            }
            assert forall|f: int| 0 <= f < frames.len() implies view.holds(
                #[trigger] group_of[f] as int,
                frames[f],
            ) by {
                let g = before.group_of@[f] as int;
                assert(before@.holds(g, frames[f]));
                if exists|q: int| 0 <= q < names.len() && chain.names[q] == frames[f] {
                    let q = choose|q: int| 0 <= q < names.len() && chain.names[q] == frames[f];
                    assert(chain.names.contains(frames[f]));
                } else {
                    if g == src_group {
                        let q = chain_a.names.index_of(frames[f]);
                        assert(chain.names[q] == frames[f]);
                    }
                    if g == dst_group {
                        let q = chain_b.names.index_of(frames[f]);
                        assert(chain.names[chain_a.names.len() + q] == frames[f]);
                    }
                }
            }
            assert forall|g: int, name: Seq<char>| #[trigger] view.holds(g, name) implies frames.contains(
                name,
            ) && group_of[frames.index_of(name)] == g by {
                if g == id {
                    let q = chain.names.index_of(name);
                    assert(chain.names[q] == name);
                    let f = frames.index_of(name);
                    assert(frames[f] == name);
                } else {
                    assert(before@.holds(g, name));
                    let f = frames.index_of(name);
                    assert(frames[f] == name);
                    if exists|q: int| 0 <= q < names.len() && chain.names[q] == frames[f] {
                        let q = choose|q: int| 0 <= q < names.len() && chain.names[q] == frames[f];
                        if q < chain_a.names.len() {
                            assert(chain_a.names[q] == name);
                            assert(before@.holds(src_group as int, name));
                        } else {
                            assert(chain_b.names[q - chain_a.names.len()] == name);
                            assert(before@.holds(dst_group as int, name));
                        }
                    }
                }
            }
        }
    }

    /// A known frame is a frame of some group, and the other way round.
    proof fn lemma_known(&self, name: Seq<char>)
        requires
            self.wf(),
        ensures
            listed(self.frames).contains(name) <==> self@.contains(name),
    {
        if listed(self.frames).contains(name) {
            let f = listed(self.frames).index_of(name);
            assert(listed(self.frames)[f] == name);
            self.lemma_frame(f);
        } else {
            self.lemma_unknown(name);
        }
    }

    /// Takes a whole group, none of whose frames is known, into a new slot.
    pub(crate) fn adopt(&mut self, chain: MutualSet)
        requires
            old(self).wf(),
            chain.wf(),
            chain@.names.len() > 0,
            forall|name: Seq<char>| #[trigger]
                chain@.names.contains(name) ==> !old(self)@.contains(name),
        ensures
            final(self).wf(),
            final(self)@.groups == old(self)@.groups.push(Some(chain@)),
    {
        let ghost before = *self;
        let ghost frames = listed(self.frames);
        let ghost joining = chain@;
        let id = self.groups.len();
        let names = chain.coord_iter();
        proof {
            chain.lemma_view_wf();
            assert forall|name: Seq<char>| #[trigger] joining.names.contains(name) implies !frames.contains(
                name,
            ) by {
                self.lemma_known(name);
            }
        }
        self.groups.push(Some(chain));
        let ghost view = self@;
        let ghost slots = self.groups;
        assert(view.groups =~= before@.groups.push(Some(joining)));
        let mut p: usize = 0;
        while p < names.len()
            invariant
                before.wf(),
                joining.wf(),
                self.groups == slots,
                self@ == view,
                names.len() == joining.names.len(),
                p <= names.len(),
                forall|q: int| 0 <= q < names.len() ==> (#[trigger] names[q])@ == joining.names[q],
                forall|name: Seq<char>| #[trigger]
                    joining.names.contains(name) ==> !frames.contains(name),
                frames == listed(before.frames),
                listed(self.frames) == frames + joining.names.take(p as int),
                self.group_of@ == before.group_of@ + Seq::new(p as nat, |q: int| id),
                listed(self.frames).no_duplicates(),
            decreases names.len() - p,
        {
            let ghost known = listed(self.frames);
            proof {
                let fresh = joining.names[p as int];
                assert(joining.names.contains(fresh));
                if known.contains(fresh) {
                    let at = known.index_of(fresh);
                    assert(known[at] == fresh);
                    if at < frames.len() {
                        assert(frames[at] == fresh);
                        assert(frames.contains(fresh));
                    } else {
                        assert(joining.names[at - frames.len()] == fresh);
                    }
                }
                lemma_push_fresh(known, fresh);
                assert(known.push(fresh) =~= frames + joining.names.take(p + 1));
                assert(before.group_of@ + Seq::new((p + 1) as nat, |q: int| id) =~= (
                before.group_of@ + Seq::new(p as nat, |q: int| id)).push(id));
            }
            self.register(names[p].as_str(), id);
            p = p + 1;
        }
        proof {
            let now = listed(self.frames);
            let group_of = self.group_of@;
            assert(joining.names.take(names.len() as int) =~= joining.names);
            assert forall|f: int| 0 <= f < now.len() implies view.holds(
                #[trigger] group_of[f] as int,
                now[f],
            ) by {
                if f < frames.len() {
                    assert(before@.holds(before.group_of@[f] as int, frames[f]));
                } else {
                    assert(joining.names[f - frames.len()] == now[f]);
                    assert(joining.names.contains(now[f]));
                }
            }
            assert forall|g: int, name: Seq<char>| #[trigger] view.holds(g, name) implies now.contains(
                name,
            ) && group_of[now.index_of(name)] == g by {
                if g < id {
                    assert(before@.holds(g, name));
                    let f = frames.index_of(name);
                    assert(frames[f] == name);
                    assert(now[f] == name);
                    lemma_index_of(now, f);
                } else {
                    let q = joining.names.index_of(name);
                    assert(joining.names[q] == name);
                    assert(now[frames.len() + q] == name);
                    lemma_index_of(now, frames.len() + q);
                }
            }
            assert forall|g: int|
                0 <= g < self.groups.len() && (#[trigger] self.groups[g]) is Some implies {
                &&& self.groups[g].unwrap().wf()
                &&& self.groups[g].unwrap()@.names.len() > 0
            } by {
                if g < id {
                    assert(self.groups[g] == before.groups[g]);
                }
            }
        }
    }

    /// Makes the frame `name`, which is not known yet, a frame of group `g`.
    fn register(&mut self, name: &str, g: usize)
        requires
            !listed(old(self).frames).contains(name@),
        ensures
            listed(final(self).frames) == listed(old(self).frames).push(name@),
            final(self).group_of@ == old(self).group_of@.push(g),
            final(self).groups == old(self).groups,
    {
        let _ = names_insert(&mut self.frames, name);
        self.group_of.push(g);
    }

    /// Founds a group for a fact between frames of which none is known.
    fn found_group(&mut self, src: &str, dst: &str, tf: RigidTransform) -> (r: Result<
        (),
        InsertionError,
    >)
        requires
            old(self).wf(),
            !listed(old(self).frames).contains(src@),
            !listed(old(self).frames).contains(dst@),
        ensures
            final(self).wf(),
            match r {
                Ok(()) => match ChainView::empty().inserted(src@, dst@, tf) {
                    Ok(chain) => final(self)@.groups == old(self)@.groups.push(Some(chain)),
                    Err(_) => false,
                },
                Err(e) => ChainView::empty().inserted(src@, dst@, tf) == Err::<
                    ChainView,
                    InsertionErrorView,
                >(e@) && final(self)@ == old(self)@,
            },
    {
        let mut set = MutualSet::new();
        match set.insert(src, dst, tf) {
            Err(e) => Err(e),
            Ok(()) => {
                let id = self.groups.len();
                let ghost chain = set@;
                let ghost before = *self;
                let ghost frames = listed(self.frames);
                self.groups.push(Some(set));
                assert(self@.groups =~= before@.groups.push(Some(chain)));
                self.register(src, id);
                proof {
                    lemma_push_fresh(frames, src@);
                }
                if !same_name(src, dst) {
                    self.register(dst, id);
                    proof {
                        lemma_push_fresh(frames.push(src@), dst@);
                    }
                }
                proof {
                    let view = self@;
                    assert(view.groups =~= before@.groups.push(Some(chain)));
                    let now = listed(self.frames);
                    assert forall|f: int| 0 <= f < now.len() implies view.holds(
                        #[trigger] self.group_of@[f] as int,
                        now[f],
                    ) by {
                        if f < frames.len() {
                            assert(before@.holds(before.group_of@[f] as int, frames[f]));
                        } else {
                            assert(chain.names.contains(now[f])) by {
                                if f == frames.len() {
                                    assert(chain.names[0] == src@);
                                } else {
                                    assert(chain.names[1] == dst@);
                                }
                            }
                        }
                    }
                    assert forall|g: int, name: Seq<char>| #[trigger]
                        view.holds(g, name) implies now.contains(name) && self.group_of@[now.index_of(
                        name,
                    )] == g by {
                        if g < before.groups.len() {
                            assert(before@.holds(g, name));
                            assert(frames.contains(name));
                            assert(frames.push(src@).contains(name));
                            assert(frames.push(src@).index_of(name) == frames.index_of(name));
                            assert(now.index_of(name) == frames.index_of(name));
                        } else {
                            let p = chain.names.index_of(name);
                            assert(chain.names[p] == name);
                            if p == 0 {
                                assert(name == src@);
                                assert(frames.push(src@).contains(src@));
                                assert(now.index_of(name) == frames.len());
                            } else {
                                assert(name == dst@);
                                assert(now.index_of(name) == frames.len() + 1);
                            }
                        }
                    }
                }
                Ok(())
            },
        }
    }

    /// One fact for each frame of a group and the next: what is needed to build the set
    /// again. A group of one frame gives no fact.
    pub fn to_facts(&self) -> (facts: Vec<CoordTransform>)
        requires
            self.wf(),
        ensures
            fact_views(facts@) == self@.facts(),
    {
        let mut facts: Vec<CoordTransform> = Vec::new();
        let mut g: usize = 0;
        assert(fact_views(facts@) =~= self@.facts_upto(0));
        while g < self.groups.len()
            invariant
                self.wf(),
                g <= self.groups.len(),
                fact_views(facts@) == self@.facts_upto(g as nat),
            decreases self.groups.len() - g,
        {
            let ghost before = facts@;
            match &self.groups[g] {
                Some(set) => {
                    let mut more = set.to_facts();
                    let ghost added = more@;
                    facts.append(&mut more);
                    assert(fact_views(facts@) =~= fact_views(before) + fact_views(added));
                },
                None => {},
            }
            g = g + 1;
        }
        facts
    }

    /// The transform from `src` to `dst`, or `None` where one of them is not known or the
    /// two are in different groups.
    pub fn get(&self, src: &str, dst: &str) -> (r: Option<RigidTransform>)
        requires
            self.wf(),
        ensures
            r == self@.get(src@, dst@),
    {
        let src_frame = match names_index_of(&self.frames, src) {
            Some(f) => f,
            None => {
                proof {
                    self.lemma_unknown(src@);
                }
                return None;
            },
        };
        let dst_frame = match names_index_of(&self.frames, dst) {
            Some(f) => f,
            None => {
                proof {
                    self.lemma_unknown(dst@);
                }
                return None;
            },
        };
        proof {
            self.lemma_frame(src_frame as int);
            self.lemma_frame(dst_frame as int);
        }
        let src_group = self.group_of[src_frame];
        let dst_group = self.group_of[dst_frame];
        if src_group != dst_group {
            return None;
        }
        match &self.groups[src_group] {
            Some(set) => set.get(src, dst),
            None => None,
        }
    }
}

} // verus!
