use vstd::prelude::*;
use crate::data::State;
use crate::store::pj::{Pj, PjStore, PjView};

verus! {

/// What a project holds for itself, as a request to the store names it.
pub struct Values {
    pub name: String,
    pub quota: (usize, usize),
    pub weight: usize,
    pub color: (u8, u8, u8),
    pub limit: usize,
    pub deadline: Option<i64>,
    pub state: State,
}

impl PjStore {
    /// Those of `deps` that the project `id` can depend on under the parent
    /// `parent`: the children of `parent`, and itself where it is a project
    /// already.
    pub open(crate) spec fn siblings_among(&self, id: int, parent: int, deps: Seq<usize>) -> Set<
        usize,
    > {
        Set::new(
            |d: usize|
                deps.contains(d) && id != 0 && ((d == id && self.live(id)) || self.at(
                    parent,
                ).chpj@.contains(d)),
        )
    }

    /// The store in which the project `id` holds the values `v`, and in
    /// which, where it thereby leaves `Todo`, the projects below it that are
    /// still to do have left with it.
    pub open(crate) spec fn with_values(&self, id: int, v: Values) -> Seq<Option<PjView>> {
        let turned = self.at(id).state != v.state;
        Seq::new(
            self@.len(),
            |i: int|
                if !self.live(i) {
                    None
                } else if i == id {
                    Some(
                        PjView {
                            color: v.color,
                            name: v.name@,
                            deadline: v.deadline,
                            quota_done: v.quota.0,
                            quota_esti: v.quota.1,
                            weight: v.weight,
                            state: v.state,
                            limit: v.limit,
                            ..self.at(i)@
                        },
                    )
                } else {
                    Some(
                        PjView {
                            state: if turned && self.marked(id, i) {
                                v.state
                            } else {
                                self.at(i)@.state
                            },
                            ..self.at(i)@
                        },
                    )
                },
        )
    }

    /// The project `id` can take the values `v`.
    pub open(crate) spec fn takes_values(&self, id: int, v: Values) -> bool {
        &&& self.live(id)
        &&& v.quota.0 <= v.quota.1
        &&& (self.at(id).name@ == v.name@ || (id != 0 && !self.named(v.name@)))
        &&& (self.at(id).state == State::Todo || self.at(id).state == v.state)
    }

    /// Gives the project `id` the values `v`.
    #[verifier::rlimit(60)]
    pub(crate) fn set_values(&mut self, id: usize, v: Values)
        requires
            old(self).wf(),
            old(self).takes_values(id as int, v),
        ensures
            final(self).wf(),
            final(self).ranks() == old(self).ranks(),
            final(self)@ == old(self).with_values(id as int, v),
    {
        let ghost s0 = *self;
        let ghost given = v;
        let n = self.vect.len();
        proof {
            s0.lemma_view();
            assert(s0.record_ok(id as int));
        }
        let renamed = !(self.rec(id).name == v.name);
        if renamed {
            let _ = self.update_name_inner(id, v.name);
        }
        let ghost s1 = *self;
        proof {
            s1.lemma_view();
            assert(s1@ =~= s0@.update(
                id as int,
                Some(PjView { name: given.name@, ..s0.at(id as int)@ }),
            ));
            assert(s1@[id as int] is Some);
        }
        self.set_own(id, v.quota, v.weight, v.color, v.limit);
        let ghost s2 = *self;
        proof {
            s2.lemma_view();
            assert(s2@[id as int] is Some);
        }
        let _ = self.update_deadline(id, v.deadline);
        let ghost s3 = *self;
        proof {
            s3.lemma_view();
            assert(s3@[id as int] is Some);
            assert(s3@[id as int] == Some(s3.at(id as int)@));
            assert(s2@[id as int] == Some(s2.at(id as int)@));
            assert(s1@[id as int] == Some(s1.at(id as int)@));
            assert(s0@[id as int] == Some(s0.at(id as int)@));
            assert(s3.at(id as int)@.state == s0.at(id as int)@.state);
        }
        let r = self.update_state_inner(id, v.state);
        proof {
            self.lemma_view();
            let goal = s0.with_values(id as int, given);
            let turned = s0.at(id as int).state != given.state;
            assert(r is Ok);
            let ids = r->Ok_0->ids;
            assert forall|j: int| #![trigger s3@[j]] 0 <= j < s3@.len() implies (s3@[j] is Some
                <==> s0@[j] is Some) && (s3@[j] is Some ==> s3@[j]->0.pp == s0@[j]->0.pp
                && s3@[j]->0.state == s0@[j]->0.state) by {
                if s0.live(j) {
                    assert(s0@[j] == Some(s0.at(j)@));
                }
            }
            assert forall|i: int| 0 <= i < self@.len() implies self@[i] == goal[i] by {
                assert(s3@[i] is Some <==> s0@[i] is Some);
                assert(s3.live(i) <==> s0.live(i));
                if s0.live(i) {
                    assert(s0@[i] == Some(s0.at(i)@));
                    assert(s3@[i] == Some(s3.at(i)@));
                    assert(s2@[i] is Some);
                    assert(s1@[i] is Some);
                    s3.lemma_above_same(&s0, id as int, i);
                    assert(s3.marked(id as int, i) == s0.marked(id as int, i));
                    assert(i as usize == i);
                    assert(ids@.contains(i as usize) <==> turned && s3.marked(id as int, i));
                    if i == id {
                        assert(s3.above(id as int, id as int));
                    }
                }
            }
            assert(self@ =~= goal);
        }
    }

    /// The store in which the project `id` stands under `parent` and
    /// depends on the projects of `deps` and on no others.
    pub open(crate) spec fn with_links(&self, id: int, parent: usize, deps: Set<usize>) -> Seq<
        Option<PjView>,
    > {
        let from = self.at(id).pp;
        let moved = from != parent;
        Seq::new(
            self@.len(),
            |i: int|
                if !self.live(i) {
                    None
                } else {
                    Some(
                        PjView {
                            pp: if i == id {
                                parent
                            } else {
                                self.at(i)@.pp
                            },
                            deps: if i == id {
                                deps
                            } else {
                                self.at(i)@.deps
                            },
                            chpj: if moved && i != id && i == from {
                                self.at(i)@.chpj.remove(id as usize)
                            } else if moved && i != id && i == parent {
                                self.at(i)@.chpj.insert(id as usize)
                            } else {
                                self.at(i)@.chpj
                            },
                            deps_rvs: if deps.contains(i as usize) {
                                self.at(i)@.deps_rvs.insert(id as usize)
                            } else {
                                self.at(i)@.deps_rvs.remove(id as usize)
                            },
                            ..self.at(i)@
                        },
                    )
                },
        )
    }

    /// The project `id` can stand under `parent`.
    pub open(crate) spec fn takes_parent(&self, id: int, parent: int) -> bool {
        &&& self.live(id)
        &&& self.live(parent)
        &&& self.at(id).pp != parent ==> {
            &&& id != 0
            &&& self.at(id).deps@.len() == 0
            &&& self.at(id).deps_rvs@.len() == 0
            &&& !self.above(id, parent)
        }
    }

    /// Puts the project `id` under `parent` and makes it depend on those of
    /// `wanted` that are children of `parent` then, itself among them.
    pub(crate) fn set_links(&mut self, id: usize, parent: usize, wanted: &Vec<usize>)
        requires
            old(self).wf(),
            old(self).takes_parent(id as int, parent as int),
        ensures
            final(self).wf(),
            final(self)@ == old(self).with_links(
                id as int,
                parent,
                old(self).siblings_among(id as int, parent as int, wanted@),
            ),
    {
        let ghost s0 = *self;
        let n = self.vect.len();
        proof {
            s0.lemma_view();
            assert(s0.record_ok(id as int));
        }
        let moved = self.rec(id).pp != parent;
        if moved {
            self.move_to(id, parent);
        }
        let ghost s1 = *self;
        proof {
            s1.lemma_view();
            assert(s1@[id as int] is Some);
            assert(s1.live(id as int));
        }
        self.set_deps(id, wanted, true);
        proof {
            self.lemma_view();
            let want = s0.siblings_among(id as int, parent as int, wanted@);
            let got = s1.peers_among(id as int, wanted@, true);
            let goal = s0.with_links(id as int, parent, want);
            assert(s1@[id as int] == Some(s1.at(id as int)@));
            assert(s1@[parent as int] is Some);
            assert(s1@[parent as int] == Some(s1.at(parent as int)@));
            assert(s0@[parent as int] == Some(s0.at(parent as int)@));
            assert(s0@[id as int] == Some(s0.at(id as int)@));
            assert(s1.at(id as int)@.pp == parent);
            assert(got =~= want) by {
                assert forall|d: usize| got.contains(d) <==> want.contains(d) by {
                    assert(s1.at(parent as int)@.chpj.contains(d) <==> s1.at(
                        parent as int,
                    ).chpj@.contains(d));
                    assert(s0.at(parent as int)@.chpj.contains(d) <==> s0.at(
                        parent as int,
                    ).chpj@.contains(d));
                }
            }
            assert forall|i: int| 0 <= i < self@.len() implies self@[i] == goal[i] by {
                assert(s1@[i] is Some <==> s0@[i] is Some);
                assert(s1.live(i) <==> s0.live(i));
                if s0.live(i) {
                    assert(s0@[i] == Some(s0.at(i)@));
                    assert(s1@[i] == Some(s1.at(i)@));
                    assert(i as usize == i);
                    if moved && i == id {
                        assert(s0.at(id as int)@.deps =~= Set::<usize>::empty());
                    }
                }
            }
            assert(self@ =~= goal);
        }
    }
}

} // verus!
