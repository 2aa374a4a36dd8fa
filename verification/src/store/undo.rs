use vstd::prelude::*;
use crate::data::State;
use crate::idset;
use crate::store::pj::{Pj, PjLog, PjStore, PjView};

verus! {

impl PjStore {
    /// The project `pj`, deleted before, can be put back at its place.
    pub open(crate) spec fn restorable(&self, pj: Pj) -> bool {
        &&& 0 < pj.id < self.vect@.len()
        &&& !self.live(pj.id as int)
        &&& self.live(pj.pp as int)
        &&& !self.named(pj.name@)
        &&& pj.quota_done <= pj.quota_esti
        &&& pj.chpj@.len() == 0
        &&& pj.chev@.len() == 0
        &&& pj.deps@.len() == 0
        &&& pj.deps_rvs@.len() == 0
    }

    /// The change that `log` records can be taken back in this store. This
    /// holds in the store as the change left it.
    pub open(crate) spec fn undoable(&self, log: PjLog) -> bool {
        match log {
            PjLog::Create { id } => id + 1 == self.vect@.len() && self.delete_error(id as int)
                is None,
            PjLog::Delete { pj } => self.restorable(pj),
            PjLog::QuotaEsti { id, old } => self.live(id as int) && old >= self.at(
                id as int,
            ).quota_done,
            PjLog::QuotaDone { id, old_done, old_esti } => self.live(id as int) && old_done
                <= old_esti,
            PjLog::Deadline { id, old } => self.live(id as int),
            PjLog::DepsAdd { id, add } => self.live(id as int) && self.live(add as int),
            PjLog::DepsRmv { id, rmv } => self.peer(id as int, rmv),
            PjLog::Name { id, old } => self.live(id as int) && id != 0 && (self.named(old@)
                ==> self.at(id as int).name@ == old@),
            PjLog::Parent { id, old } => self.move_error(id as int, old as int) is None,
            PjLog::Weight { id, old } => self.live(id as int),
            PjLog::WeightType { id, old } => self.live(id as int),
            PjLog::State { ids } => forall|k: int|
                0 <= k < ids@.len() ==> self.live(#[trigger] ids@[k] as int),
            PjLog::AddEvent { id, ev } => self.live(id as int),
            PjLog::RmvEvent { id, ev } => self.live(id as int),
            PjLog::Nothing => true,
        }
    }

    /// The store after the change that `log` records was taken back.
    pub open(crate) spec fn undone(&self, log: PjLog) -> Seq<Option<PjView>> {
        match log {
            PjLog::Create { id } => {
                let pp = self.at(id as int).pp as int;
                self@.update(
                    pp,
                    Some(PjView { chpj: self.at(pp)@.chpj.remove(id), ..self.at(pp)@ }),
                ).drop_last()
            },
            PjLog::Delete { pj } => {
                let pp = pj.pp as int;
                self@.update(
                    pp,
                    Some(PjView { chpj: self.at(pp)@.chpj.insert(pj.id), ..self.at(pp)@ }),
                ).update(pj.id as int, Some(pj@))
            },
            PjLog::QuotaEsti { id, old } => self@.update(
                id as int,
                Some(PjView { quota_esti: old, ..self.at(id as int)@ }),
            ),
            PjLog::QuotaDone { id, old_done, old_esti } => self@.update(
                id as int,
                Some(PjView { quota_done: old_done, quota_esti: old_esti, ..self.at(id as int)@ }),
            ),
            PjLog::Deadline { id, old } => self@.update(
                id as int,
                Some(PjView { deadline: old, ..self.at(id as int)@ }),
            ),
            PjLog::DepsAdd { id, add } => self@.update(
                id as int,
                Some(PjView { deps: self.at(id as int)@.deps.remove(add), ..self.at(id as int)@ }),
            ).update(
                add as int,
                Some(
                    PjView {
                        deps_rvs: self.at(add as int)@.deps_rvs.remove(id),
                        ..(if id == add {
                            PjView {
                                deps: self.at(id as int)@.deps.remove(add),
                                ..self.at(id as int)@
                            }
                        } else {
                            self.at(add as int)@
                        })
                    },
                ),
            ),
            PjLog::DepsRmv { id, rmv } => self@.update(
                id as int,
                Some(PjView { deps: self.at(id as int)@.deps.insert(rmv), ..self.at(id as int)@ }),
            ).update(
                rmv as int,
                Some(
                    PjView {
                        deps_rvs: self.at(rmv as int)@.deps_rvs.insert(id),
                        ..(if id == rmv {
                            PjView {
                                deps: self.at(id as int)@.deps.insert(rmv),
                                ..self.at(id as int)@
                            }
                        } else {
                            self.at(rmv as int)@
                        })
                    },
                ),
            ),
            PjLog::Name { id, old } => self@.update(
                id as int,
                Some(PjView { name: old@, ..self.at(id as int)@ }),
            ),
            PjLog::Parent { id, old } => {
                let from = self.at(id as int).pp;
                if from == old {
                    self@
                } else {
                    self@.update(
                        from as int,
                        Some(
                            PjView {
                                chpj: self.at(from as int)@.chpj.remove(id),
                                ..self.at(from as int)@
                            },
                        ),
                    ).update(
                        old as int,
                        Some(
                            PjView {
                                chpj: self.at(old as int)@.chpj.insert(id),
                                ..self.at(old as int)@
                            },
                        ),
                    ).update(id as int, Some(PjView { pp: old, ..self.at(id as int)@ }))
                }
            },
            PjLog::Weight { id, old } => self@.update(
                id as int,
                Some(PjView { weight: old, ..self.at(id as int)@ }),
            ),
            PjLog::WeightType { id, old } => self@.update(
                id as int,
                Some(PjView { weight_type: old, ..self.at(id as int)@ }),
            ),
            PjLog::State { ids } => self.with_states(ids@, State::Todo),
            PjLog::AddEvent { id, ev } => self@.update(
                id as int,
                Some(PjView { chev: self.at(id as int)@.chev.remove(ev), ..self.at(id as int)@ }),
            ),
            PjLog::RmvEvent { id, ev } => self@.update(
                id as int,
                Some(PjView { chev: self.at(id as int)@.chev.insert(ev), ..self.at(id as int)@ }),
            ),
            PjLog::Nothing => self@,
        }
    }

    /// Puts the deleted project `pj` back at its place.
    fn restore(&mut self, pj: Pj)
        requires
            old(self).wf(),
            old(self).restorable(pj),
        ensures
            final(self).wf(),
            final(self)@ == old(self).undone(PjLog::Delete { pj }),
    {
        let ghost prev = *self;
        let ghost given = pj;
        let id = pj.id;
        let pp = pj.pp;
        proof {
            assert(prev.record_ok(pp as int));
            if prev.at(pp as int).chpj@.contains(id) {
                let k = choose|k: int|
                    0 <= k < prev.at(pp as int).chpj@.len() && prev.at(pp as int).chpj@[k] == id;
                assert(prev.live(prev.at(pp as int).chpj@[k] as int));
            }
            if self.name.has_name(pj.name@) {
                let k = choose|k: int| 0 <= k < self.name@.len() && (#[trigger] self.name@[k]).0
                    == pj.name@;
                let e = self.name@[k];
                assert(self.name.has(e.0, e.1));
            }
        }
        match &mut self.vect[pp] {
            Some(p) => {
                idset::insert(&mut p.chpj, id);
            },
            None => {},
        }
        self.name.insert(pj.name.clone(), id);
        if let Some(t) = pj.deadline {
            self.time.insert(t, id);
        }
        proof {
            self.depth@ = prev.depth@.update(id as int, prev.depth@[pp as int] + 1);
        }
        self.vect[id] = Some(pj);
        proof {
            idset::lemma_with(prev.at(pp as int).chpj@, id);
            assert forall|i: int| self.live(i) implies #[trigger] self.record_ok(i) by {
                let p = self.at(i);
                if i == id {
                    assert(self.name.has(p.name@, i as usize));
                } else {
                    assert(prev.live(i));
                    assert(prev.record_ok(i));
                    let q = prev.at(i);
                    assert(prev.record_ok(q.pp as int));
                    assert forall|k: int| 0 <= k < p.chpj@.len() implies {
                        let c = #[trigger] p.chpj@[k];
                        c != 0 && self.live(c as int) && self.at(c as int).pp == i
                    } by {
                        if k < q.chpj@.len() {
                            assert(prev.live(q.chpj@[k] as int));
                        }
                    }
                    assert forall|k: int| 0 <= k < p.deps@.len() implies {
                        let d = #[trigger] p.deps@[k];
                        &&& self.live(d as int)
                        &&& self.at(p.pp as int).chpj@.contains(d)
                        &&& self.at(d as int).deps_rvs@.contains(i as usize)
                    } by {
                        assert(prev.live(q.deps@[k] as int));
                    }
                    assert forall|k: int| 0 <= k < p.deps_rvs@.len() implies {
                        let r = #[trigger] p.deps_rvs@[k];
                        self.live(r as int) && self.at(r as int).deps@.contains(i as usize)
                    } by {
                        assert(prev.live(q.deps_rvs@[k] as int));
                    }
                    if p.deadline is Some {
                        assert(prev.time.has(p.deadline->0, i as usize));
                    }
                    assert(prev.name.has(q.name@, i as usize));
                }
            }
            assert forall|t: i64, i: usize| #[trigger] self.time.has(t, i) implies self.live(
                i as int,
            ) && self.at(i as int).deadline == Some(t) by {
                if !(given.deadline == Some(t) && i == id) {
                    assert(prev.time.has(t, i));
                }
            }
            assert forall|s: Seq<char>, i: usize| #[trigger] self.name.has(s, i) implies self.live(
                i as int,
            ) && self.at(i as int).name@ == s by {
                if !(s == given.name@ && i == id) {
                    assert(prev.name.has(s, i));
                }
            }
            assert(self@ =~= prev.undone(PjLog::Delete { pj: given }));
        }
    }

    /// Takes the last place away again, with the project that was created
    /// at it.
    fn uncreate(&mut self, id: usize)
        requires
            old(self).wf(),
            id + 1 == old(self).vect@.len(),
            old(self).delete_error(id as int) is None,
        ensures
            final(self).wf(),
            final(self)@ == old(self).undone(PjLog::Create { id }),
    {
        let ghost prev = *self;
        let r = self.delete(id);
        let ghost mid = *self;
        proof {
            assert(prev.record_ok(id as int));
        }
        self.vect.pop();
        proof {
            self.depth@ = mid.depth@.drop_last();
            assert(mid@.len() == mid.vect@.len());
            assert(mid@.len() == prev@.len());
            assert(mid@[id as int] is None);
            assert(mid.vect@[id as int] is None);
            assert(!mid.live(id as int));
            assert forall|i: int| self.live(i) implies #[trigger] self.record_ok(i) by {
                assert(mid.live(i));
                assert(mid.record_ok(i));
                let p = mid.at(i);
                assert(mid.record_ok(p.pp as int));
                assert forall|k: int| 0 <= k < p.chpj@.len() implies {
                    let c = #[trigger] p.chpj@[k];
                    c != 0 && self.live(c as int) && self.at(c as int).pp == i
                } by {
                    assert(mid.live(p.chpj@[k] as int));
                }
                assert forall|k: int| 0 <= k < p.deps@.len() implies {
                    let d = #[trigger] p.deps@[k];
                    &&& self.live(d as int)
                    &&& self.at(p.pp as int).chpj@.contains(d)
                    &&& self.at(d as int).deps_rvs@.contains(i as usize)
                } by {
                    assert(mid.live(p.deps@[k] as int));
                }
                assert forall|k: int| 0 <= k < p.deps_rvs@.len() implies {
                    let r = #[trigger] p.deps_rvs@[k];
                    self.live(r as int) && self.at(r as int).deps@.contains(i as usize)
                } by {
                    assert(mid.live(p.deps_rvs@[k] as int));
                }
            }
            assert forall|t: i64, i: usize| #[trigger] self.time.has(t, i) implies self.live(
                i as int,
            ) && self.at(i as int).deadline == Some(t) by {
                assert(mid.time.has(t, i));
            }
            assert forall|s: Seq<char>, i: usize| #[trigger] self.name.has(s, i) implies self.live(
                i as int,
            ) && self.at(i as int).name@ == s by {
                assert(mid.name.has(s, i));
            }
            assert(self.vect@ =~= mid.vect@.drop_last());
            assert forall|i: int| 0 <= i < self@.len() implies self@[i] == mid@[i] by {
                assert(self.vect@[i] == mid.vect@[i]);
            }
            assert(self@ =~= mid@.drop_last());
            assert(self@ =~= prev.undone(PjLog::Create { id }));
        }
    }

    /// Takes back the change that `log` records. The changes are taken back
    /// in the reverse of the order in which they were made.
    pub fn undo(&mut self, log: PjLog)
        requires
            old(self).wf(),
            old(self).undoable(log),
        ensures
            final(self).wf(),
            final(self)@ == old(self).undone(log),
    {
        match log {
            PjLog::AddEvent { id, ev } => {
                let _ = self.rmv_event(id, ev);
            },
            PjLog::RmvEvent { id, ev } => {
                let _ = self.add_event(id, ev);
            },
            PjLog::Weight { id, old } => {
                let _ = self.update_weight(id, old);
            },
            PjLog::WeightType { id, old } => {
                let _ = self.update_weight_type(id, old);
            },
            PjLog::Create { id } => {
                self.uncreate(id);
            },
            PjLog::Delete { pj } => {
                self.restore(pj);
            },
            PjLog::QuotaEsti { id, old } => {
                let _ = self.update_quota_esti(id, old);
            },
            PjLog::QuotaDone { id, old_done, old_esti } => {
                let ghost prev = *self;
                match &mut self.vect[id] {
                    Some(p) => {
                        p.quota_done = old_done;
                        p.quota_esti = old_esti;
                    },
                    None => {},
                }
                proof {
                    assert(prev.record_ok(id as int));
                    prev.lemma_own_change(self, id as int);
                    assert(self@ =~= prev.undone(log));
                }
            },
            PjLog::Deadline { id, old } => {
                let _ = self.update_deadline(id, old);
            },
            PjLog::DepsAdd { id, add } => {
                let _ = self.rmv_deps(id, add);
            },
            PjLog::DepsRmv { id, rmv } => {
                let _ = self.add_deps(id, rmv);
            },
            PjLog::Parent { id, old } => {
                let _ = self.update_pp(id, old);
            },
            PjLog::Name { id, old } => {
                let _ = self.update_name(id, old);
            },
            PjLog::State { ids } => {
                self.set_states(&ids, State::Todo);
            },
            PjLog::Nothing => {},
        }
    }

    /// A list without repeats that stands for the empty set is empty.
    proof fn lemma_empty(s: Seq<usize>)
        requires
            s.to_set() == Set::<usize>::empty(),
        ensures
            s.len() == 0,
    {
        if s.len() > 0 {
            assert(s.contains(s[0]));
            assert(s.to_set().contains(s[0]));
        }
    }

    /// What `create` did, `undo` takes back.
    pub(crate) proof fn lemma_undo_create(&self, new: &PjStore, pj: Pj)
        requires
            self.wf(),
            new.wf(),
            self.create_error(pj) is None,
            new@ == self@.update(
                pj.pp as int,
                Some(
                    PjView {
                        chpj: self.at(pj.pp as int)@.chpj.insert(self@.len() as usize),
                        ..self.at(pj.pp as int)@
                    },
                ),
            ).push(Some(PjView { id: self@.len() as usize, ..pj@ })),
            self.vect@.len() <= usize::MAX,
        ensures
            new.undoable(PjLog::Create { id: self@.len() as usize }),
            new.undone(PjLog::Create { id: self@.len() as usize }) == self@,
    {
        let n = self@.len() as int;
        let pp = pj.pp as int;
        self.lemma_view();
        new.lemma_view();
        assert(new@[n] is Some);
        assert(new@[n] == Some(new.at(n)@));
        assert(new@[pp] == Some(new.at(pp)@));
        assert(self@[pp] == Some(self.at(pp)@));
        assert(pj.deps@.to_set() =~= Set::<usize>::empty());
        assert(pj.deps_rvs@.to_set() =~= Set::<usize>::empty());
        assert(pj.chev@.to_set() =~= Set::<usize>::empty());
        assert(pj.chpj@.to_set() =~= Set::<usize>::empty());
        Self::lemma_empty(new.at(n).deps@);
        Self::lemma_empty(new.at(n).deps_rvs@);
        Self::lemma_empty(new.at(n).chev@);
        Self::lemma_empty(new.at(n).chpj@);
        assert(self.record_ok(pp));
        if self.at(pp).chpj@.contains(n as usize) {
            let k = choose|k: int|
                0 <= k < self.at(pp).chpj@.len() && self.at(pp).chpj@[k] == n as usize;
            assert(self.live(self.at(pp).chpj@[k] as int));
        }
        assert(self.at(pp)@.chpj.insert(n as usize).remove(n as usize) =~= self.at(pp)@.chpj);
        assert(new.undone(PjLog::Create { id: n as usize }) =~= self@);
    }

    /// What `delete` did, `undo` takes back.
    pub(crate) proof fn lemma_undo_delete(&self, new: &PjStore, id: int)
        requires
            self.wf(),
            new.wf(),
            self.delete_error(id) is None,
            new@ == self@.update(
                self.at(id).pp as int,
                Some(
                    PjView {
                        chpj: self.at(self.at(id).pp as int)@.chpj.remove(id as usize),
                        ..self.at(self.at(id).pp as int)@
                    },
                ),
            ).update(id, None),
            self.vect@.len() <= usize::MAX,
        ensures
            new.undoable(PjLog::Delete { pj: self.at(id) }),
            new.undone(PjLog::Delete { pj: self.at(id) }) == self@,
    {
        let pj = self.at(id);
        let pp = pj.pp as int;
        self.lemma_view();
        new.lemma_view();
        assert(self.record_ok(id));
        assert(pp != id) by {
            if pp == id {
                assert(self.at(id).chpj@.contains(id as usize));
            }
        }
        assert(new@[id] is None);
        assert(new@[pp] is Some);
        assert(new@[pp] == Some(new.at(pp)@));
        assert(self@[pp] == Some(self.at(pp)@));
        assert(self@[id] == Some(self.at(id)@));
        if new.named(pj.name@) {
            let i = choose|i: int| new.live(i) && (#[trigger] new.at(i)).name@ == pj.name@;
            assert(new@[i] == Some(new.at(i)@));
            assert(self@[i] is Some);
            assert(self@[i] == Some(self.at(i)@));
            self.lemma_names_distinct(i, id);
        }
        assert(self.at(pp)@.chpj.remove(id as usize).insert(id as usize) =~= self.at(pp)@.chpj);
        assert(new.undone(PjLog::Delete { pj }) =~= self@);
    }

    /// What `update_name` did, `undo` takes back.
    pub(crate) proof fn lemma_undo_name(&self, new: &PjStore, id: int, name: Seq<char>)
        requires
            self.wf(),
            new.wf(),
            self.live(id),
            id != 0,
            new@ == self@.update(id, Some(PjView { name, ..self.at(id)@ })),
        ensures
            new.live(id),
            new.named(self.at(id).name@) ==> new.at(id).name@ == self.at(id).name@,
            new@.update(id, Some(PjView { name: self.at(id).name@, ..new.at(id)@ })) == self@,
    {
        self.lemma_view();
        new.lemma_view();
        assert(new@[id] is Some);
        assert(new@[id] == Some(new.at(id)@));
        assert(self@[id] == Some(self.at(id)@));
        let stale = self.at(id).name@;
        if new.named(stale) && new.at(id).name@ != stale {
            let i = choose|i: int| new.live(i) && (#[trigger] new.at(i)).name@ == stale;
            assert(new@[i] == Some(new.at(i)@));
            assert(self@[i] is Some);
            assert(self@[i] == Some(self.at(i)@));
            self.lemma_names_distinct(i, id);
        }
        assert(new@.update(id, Some(PjView { name: stale, ..new.at(id)@ })) =~= self@);
    }

    /// What `update_state` did, `undo` takes back.
    pub(crate) proof fn lemma_undo_state(
        &self,
        new: &PjStore,
        id: int,
        state: State,
        ids: Seq<usize>,
    )
        requires
            self.wf(),
            new.wf(),
            self.live(id),
            forall|i: usize|
                ids.contains(i) <==> state != self.at(id).state && #[trigger] self.marked(
                    id,
                    i as int,
                ),
            new@ == self.with_states(ids, state),
            self.vect@.len() <= usize::MAX,
        ensures
            forall|k: int| 0 <= k < ids.len() ==> new.live(#[trigger] ids[k] as int),
            new.with_states(ids, State::Todo) == self@,
    {
        self.lemma_view();
        new.lemma_view();
        assert forall|k: int| 0 <= k < ids.len() implies new.live(#[trigger] ids[k] as int) by {
            assert(ids.contains(ids[k]));
            assert(self.marked(id, ids[k] as int));
            assert(new@[ids[k] as int] is Some);
        }
        assert forall|i: int| 0 <= i < self@.len() implies new.with_states(ids, State::Todo)[i]
            == self@[i] by {
            assert(new@[i] is Some <==> self@[i] is Some);
            if self.live(i) {
                assert(self@[i] == Some(self.at(i)@));
                assert(new@[i] == Some(new.at(i)@));
                assert(i as usize == i);
                if ids.contains(i as usize) {
                    assert(self.marked(id, i));
                }
            }
        }
        assert(new.with_states(ids, State::Todo) =~= self@);
    }

    /// What `update_pp` did, `undo` takes back.
    pub(crate) proof fn lemma_undo_parent(&self, new: &PjStore, id: int, pp: usize)
        requires
            self.wf(),
            new.wf(),
            self.move_error(id, pp as int) is None,
            self.at(id).pp == pp ==> *new == *self,
            self.at(id).pp != pp ==> !new.above(id, self.at(id).pp as int) && new@ == self@.update(
                self.at(id).pp as int,
                Some(
                    PjView {
                        chpj: self.at(self.at(id).pp as int)@.chpj.remove(id as usize),
                        ..self.at(self.at(id).pp as int)@
                    },
                ),
            ).update(
                pp as int,
                Some(
                    PjView {
                        chpj: self.at(pp as int)@.chpj.insert(id as usize),
                        ..self.at(pp as int)@
                    },
                ),
            ).update(id, Some(PjView { pp, ..self.at(id)@ })),
            self.vect@.len() <= usize::MAX,
        ensures
            new.undoable(PjLog::Parent { id: id as usize, old: self.at(id).pp }),
            new.undone(PjLog::Parent { id: id as usize, old: self.at(id).pp }) == self@,
    {
        let from = self.at(id).pp;
        self.lemma_view();
        new.lemma_view();
        assert(self.record_ok(id));
        if from == pp {
        } else {
            assert(new@[id] is Some);
            assert(new@[id] == Some(new.at(id)@));
            assert(new@[from as int] is Some);
            assert(new@[from as int] == Some(new.at(from as int)@));
            assert(new@[pp as int] == Some(new.at(pp as int)@));
            assert(self@[id] == Some(self.at(id)@));
            assert(self@[from as int] == Some(self.at(from as int)@));
            assert(self@[pp as int] == Some(self.at(pp as int)@));
            assert(from != id) by {
                if from == id {
                    self.lemma_above_rank(id, id);
                }
            }
            assert(pp != id) by {
                assert(self.above(id, id));
            }
            assert(self.at(id).deps@.to_set() =~= Set::<usize>::empty());
            assert(self.at(id).deps_rvs@.to_set() =~= Set::<usize>::empty());
            Self::lemma_empty(new.at(id).deps@);
            Self::lemma_empty(new.at(id).deps_rvs@);
            assert(self.record_ok(pp as int));
            if self.at(pp as int).chpj@.contains(id as usize) {
                let k = choose|k: int|
                    0 <= k < self.at(pp as int).chpj@.len() && self.at(pp as int).chpj@[k]
                        == id as usize;
                assert(self.at(self.at(pp as int).chpj@[k] as int).pp == pp);
            }
            assert(self.at(pp as int)@.chpj.insert(id as usize).remove(id as usize) =~= self.at(
                pp as int,
            )@.chpj);
            assert(self.at(from as int)@.chpj.remove(id as usize).insert(id as usize) =~= self.at(
                from as int,
            )@.chpj);
            assert(new.undone(PjLog::Parent { id: id as usize, old: from }) =~= self@);
        }
    }
}

} // verus!
