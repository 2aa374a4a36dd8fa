use vstd::prelude::*;
use crate::store::ev::{Ev, EvLog, EvStore, EvView};
use crate::store::pj::{PjStore, PjView};

verus! {

impl EvStore {
    /// The change that `log` records can be taken back in this store, beside
    /// the project store `pj`. This holds in the stores as the change left
    /// them.
    pub open(crate) spec fn undoable(&self, log: EvLog, pj: &PjStore) -> bool {
        match log {
            EvLog::Create { id } => id + 1 == self.vect@.len() && self.live(id as int),
            EvLog::Delete { old } => {
                &&& old.id < self.vect@.len()
                &&& !self.live(old.id as int)
                &&& pj.live(old.pp as int)
                &&& !self.named(old.name@)
                &&& !self.timed(old.time)
            },
            EvLog::Parent { id, old } => self.live(id as int) && pj.live(old as int),
            EvLog::Name { id, old } => self.live(id as int) && !self.named(old@),
            EvLog::Time { id, old } => self.live(id as int) && !self.timed(old),
            EvLog::QuotaEsti { id, old } => self.live(id as int),
            EvLog::State { id, old } => self.live(id as int),
        }
    }

    /// The event store after the change that `log` records was taken back.
    pub open(crate) spec fn undone(&self, log: EvLog) -> Seq<Option<EvView>> {
        match log {
            EvLog::Create { id } => self@.drop_last(),
            EvLog::Delete { old } => self@.update(old.id as int, Some(old@)),
            EvLog::Parent { id, old } => self@.update(
                id as int,
                Some(EvView { pp: old, ..self.at(id as int)@ }),
            ),
            EvLog::Name { id, old } => self@.update(
                id as int,
                Some(EvView { name: old@, ..self.at(id as int)@ }),
            ),
            EvLog::Time { id, old } => self@.update(
                id as int,
                Some(EvView { time: old, ..self.at(id as int)@ }),
            ),
            EvLog::QuotaEsti { id, old } => self@.update(
                id as int,
                Some(EvView { quota_esti: old, ..self.at(id as int)@ }),
            ),
            EvLog::State { id, old } => self@.update(
                id as int,
                Some(EvView { state: old, ..self.at(id as int)@ }),
            ),
        }
    }

    /// The project store `pj` after the change that `log` records was taken
    /// back.
    pub open(crate) spec fn undone_beside(&self, log: EvLog, pj: &PjStore) -> Seq<Option<PjView>> {
        match log {
            EvLog::Create { id } => {
                let pp = self.at(id as int).pp as int;
                pj@.update(pp, Some(PjView { chev: pj.at(pp)@.chev.remove(id), ..pj.at(pp)@ }))
            },
            EvLog::Delete { old } => {
                let pp = old.pp as int;
                pj@.update(pp, Some(PjView { chev: pj.at(pp)@.chev.insert(old.id), ..pj.at(pp)@ }))
            },
            EvLog::Parent { id, old } => {
                let from = self.at(id as int).pp;
                if from == old {
                    pj@
                } else {
                    pj@.update(
                        old as int,
                        Some(
                            PjView {
                                chev: pj.at(old as int)@.chev.insert(id),
                                ..pj.at(old as int)@
                            },
                        ),
                    ).update(
                        from as int,
                        Some(
                            PjView {
                                chev: pj.at(from as int)@.chev.remove(id),
                                ..pj.at(from as int)@
                            },
                        ),
                    )
                }
            },
            _ => pj@,
        }
    }

    /// Takes the last place away again, with the event that was created at
    /// it.
    fn uncreate(&mut self, id: usize, pj_store: &mut PjStore)
        requires
            old(self).wf(),
            old(pj_store).wf(),
            old(self).linked(old(pj_store)),
            id + 1 == old(self).vect@.len(),
            old(self).live(id as int),
        ensures
            final(self).wf(),
            final(pj_store).wf(),
            final(self).linked(final(pj_store)),
            final(self)@ == old(self).undone(EvLog::Create { id }),
            final(pj_store)@ == old(self).undone_beside(EvLog::Create { id }, old(pj_store)),
    {
        let ghost prev = *self;
        let _ = self.delete(id, pj_store);
        let ghost mid = *self;
        self.vect.pop();
        proof {
            mid.lemma_view();
            prev.lemma_view();
            self.lemma_view();
            assert(mid@[id as int] is None);
            assert(!mid.live(id as int));
            assert(self.vect@ =~= mid.vect@.drop_last());
            assert forall|i: int| self.live(i) implies {
                &&& (#[trigger] self.at(i)).id == i
                &&& self.time.has(self.at(i).time, i as usize)
                &&& self.name.has(self.at(i).name@, i as usize)
            } by {
                assert(mid.live(i));
                assert(mid.at(i).id == i);
            }
            assert forall|i: int, j: int| self.live(i) && self.live(j) && i != j implies (
            #[trigger] self.at(i)).time != (#[trigger] self.at(j)).time by {
                assert(mid.live(i) && mid.live(j));
                assert(mid.at(i).time != mid.at(j).time);
            }
            assert forall|t: i64, i: usize| #[trigger] self.time.has(t, i) implies self.live(
                i as int,
            ) && self.at(i as int).time == t by {
                assert(mid.time.has(t, i));
            }
            assert forall|s: Seq<char>, i: usize| #[trigger] self.name.has(s, i) implies self.live(
                i as int,
            ) && self.at(i as int).name@ == s by {
                assert(mid.name.has(s, i));
            }
            assert forall|e: int| self.live(e) implies pj_store.live(
                (#[trigger] self.at(e)).pp as int,
            ) && pj_store.at(self.at(e).pp as int).chev@.contains(e as usize) by {
                assert(mid.live(e));
                assert(pj_store.live(mid.at(e).pp as int));
            }
            assert forall|p: int, e: usize|
                pj_store.live(p) && #[trigger] pj_store.at(p).chev@.contains(e) implies self.live(
                e as int,
            ) && self.at(e as int).pp == p by {
                assert(mid.live(e as int));
            }
            assert(mid@ == prev@.update(id as int, None));
            assert(self@.len() == prev@.len() - 1);
            assert forall|i: int| 0 <= i < self@.len() implies self@[i] == prev@.drop_last()[i] by {
                assert(self.vect@[i] == mid.vect@[i]);
                assert(self@[i] == mid@[i]);
                assert(mid@[i] == prev@[i]);
            }
            assert(self@ =~= prev@.drop_last());
        }
    }

    /// Puts the deleted event `ev` back at its place.
    fn restore(&mut self, ev: Ev, pj_store: &mut PjStore)
        requires
            old(self).wf(),
            old(pj_store).wf(),
            old(self).linked(old(pj_store)),
            old(self).undoable(EvLog::Delete { old: ev }, old(pj_store)),
        ensures
            final(self).wf(),
            final(pj_store).wf(),
            final(self).linked(final(pj_store)),
            final(self)@ == old(self).undone(EvLog::Delete { old: ev }),
            final(pj_store)@ == old(self).undone_beside(EvLog::Delete { old: ev }, old(pj_store)),
    {
        let ghost prev = *self;
        let ghost prev_pj = *pj_store;
        let ghost given = ev;
        let id = ev.id;
        let pp = ev.pp;
        proof {
            prev_pj.lemma_view();
            if prev_pj.at(pp as int).chev@.contains(id) {
                assert(prev.live(id as int));
            }
            if self.name.has_name(ev.name@) {
                let k = choose|k: int|
                    0 <= k < self.name@.len() && (#[trigger] self.name@[k]).0 == ev.name@;
                let e = self.name@[k];
                assert(self.name.has(e.0, e.1));
                assert(self.at(e.1 as int).name@ == ev.name@);
            }
        }
        let _ = pj_store.add_event(pp, id);
        self.name.insert(ev.name.clone(), id);
        self.time.insert(ev.time, id);
        self.vect[id] = Some(ev);
        proof {
            pj_store.lemma_view();
            self.lemma_view();
            assert forall|i: int| self.live(i) implies {
                &&& (#[trigger] self.at(i)).id == i
                &&& self.time.has(self.at(i).time, i as usize)
                &&& self.name.has(self.at(i).name@, i as usize)
            } by {
                if i != id {
                    assert(prev.live(i));
                    assert(prev.at(i).id == i);
                }
            }
            assert forall|i: int, j: int| self.live(i) && self.live(j) && i != j implies (
            #[trigger] self.at(i)).time != (#[trigger] self.at(j)).time by {
                if i != id && j != id {
                    assert(prev.live(i) && prev.live(j));
                    assert(prev.at(i).time != prev.at(j).time);
                } else if i == id {
                    assert(prev.live(j));
                    assert(prev.at(j).time != given.time);
                } else {
                    assert(prev.live(i));
                    assert(prev.at(i).time != given.time);
                }
            }
            assert forall|t: i64, i: usize| #[trigger] self.time.has(t, i) implies self.live(
                i as int,
            ) && self.at(i as int).time == t by {
                if !(t == given.time && i == id) {
                    assert(prev.time.has(t, i));
                }
            }
            assert forall|s: Seq<char>, i: usize| #[trigger] self.name.has(s, i) implies self.live(
                i as int,
            ) && self.at(i as int).name@ == s by {
                if !(s == given.name@ && i == id) {
                    assert(prev.name.has(s, i));
                }
            }
            assert forall|e: int| self.live(e) implies pj_store.live(
                (#[trigger] self.at(e)).pp as int,
            ) && pj_store.at(self.at(e).pp as int).chev@.contains(e as usize) by {
                if e != id {
                    assert(prev.live(e));
                    let q = prev.at(e).pp as int;
                    assert(prev_pj.live(q));
                    assert(prev_pj.at(q).chev@.contains(e as usize));
                    assert(prev_pj@[q] == Some(prev_pj.at(q)@));
                    assert(pj_store@[q] == Some(pj_store.at(q)@));
                } else {
                    assert(pj_store@[pp as int] == Some(pj_store.at(pp as int)@));
                }
            }
            assert forall|p: int, e: usize|
                pj_store.live(p) && #[trigger] pj_store.at(p).chev@.contains(e) implies self.live(
                e as int,
            ) && self.at(e as int).pp == p by {
                assert(pj_store@[p] == Some(pj_store.at(p)@));
                assert(prev_pj@[p] is Some);
                assert(prev_pj.live(p));
                assert(prev_pj@[p] == Some(prev_pj.at(p)@));
                if !(p == pp && e == id) {
                    assert(prev_pj.at(p).chev@.contains(e));
                    assert(prev.live(e as int));
                }
            }
            assert(self@ =~= prev@.update(id as int, Some(given@)));
        }
    }

    /// Takes back the change that `log` records, in this store and, where
    /// the change reached it, in the project store. The changes are taken
    /// back in the reverse of the order in which they were made.
    pub fn undo(&mut self, log: EvLog, pj_store: &mut PjStore)
        requires
            old(self).wf(),
            old(pj_store).wf(),
            old(self).linked(old(pj_store)),
            old(self).undoable(log, old(pj_store)),
        ensures
            final(self).wf(),
            final(pj_store).wf(),
            final(self).linked(final(pj_store)),
            final(self)@ == old(self).undone(log),
            final(pj_store)@ == old(self).undone_beside(log, old(pj_store)),
    {
        match log {
            EvLog::Create { id } => {
                self.uncreate(id, pj_store);
            },
            EvLog::Delete { old } => {
                self.restore(old, pj_store);
            },
            EvLog::Parent { id, old } => {
                let _ = self.update_pp(id, old, pj_store);
            },
            EvLog::Name { id, old } => {
                let _ = self.update_name(id, old);
            },
            EvLog::Time { id, old } => {
                let _ = self.update_time(id, old);
            },
            EvLog::QuotaEsti { id, old } => {
                let _ = self.update_quota_esti(id, old);
            },
            EvLog::State { id, old } => {
                let ghost prev = *self;
                match &mut self.vect[id] {
                    Some(e) => {
                        e.state = old;
                    },
                    None => {},
                }
                proof {
                    prev.lemma_own_change(self, id as int);
                    assert(self@ =~= prev.undone(log));
                }
            },
        }
    }

    /// What `create` did, `undo` takes back.
    pub(crate) proof fn lemma_undo_create(
        &self,
        new: &EvStore,
        pj: &PjStore,
        new_pj: &PjStore,
        ev: Ev,
    )
        requires
            self.wf(),
            pj.wf(),
            self.linked(pj),
            pj.live(ev.pp as int),
            new@ == self@.push(Some(EvView { id: self@.len() as usize, ..ev@ })),
            new_pj@ == pj@.update(
                ev.pp as int,
                Some(
                    PjView {
                        chev: pj.at(ev.pp as int)@.chev.insert(self@.len() as usize),
                        ..pj.at(ev.pp as int)@
                    },
                ),
            ),
            self.vect@.len() <= usize::MAX,
        ensures
            new.undoable(EvLog::Create { id: self@.len() as usize }, new_pj),
            new.undone(EvLog::Create { id: self@.len() as usize }) == self@,
            new.undone_beside(EvLog::Create { id: self@.len() as usize }, new_pj) == pj@,
    {
        let n = self@.len() as int;
        let pp = ev.pp as int;
        self.lemma_view();
        new.lemma_view();
        pj.lemma_view();
        new_pj.lemma_view();
        assert(new@[n] is Some);
        assert(new@[n] == Some(new.at(n)@));
        assert(new_pj@[pp] == Some(new_pj.at(pp)@));
        assert(pj@[pp] == Some(pj.at(pp)@));
        if pj.at(pp).chev@.contains(n as usize) {
            assert(self.live(n));
        }
        assert(pj.at(pp)@.chev.insert(n as usize).remove(n as usize) =~= pj.at(pp)@.chev);
        assert(new.undone(EvLog::Create { id: n as usize }) =~= self@);
        assert(new.undone_beside(EvLog::Create { id: n as usize }, new_pj) =~= pj@);
    }

    /// What `delete` did, `undo` takes back.
    pub(crate) proof fn lemma_undo_delete(
        &self,
        new: &EvStore,
        pj: &PjStore,
        new_pj: &PjStore,
        id: int,
    )
        requires
            self.wf(),
            pj.wf(),
            self.linked(pj),
            self.live(id),
            new@ == self@.update(id, None),
            new_pj@ == pj@.update(
                self.at(id).pp as int,
                Some(
                    PjView {
                        chev: pj.at(self.at(id).pp as int)@.chev.remove(id as usize),
                        ..pj.at(self.at(id).pp as int)@
                    },
                ),
            ),
            self.vect@.len() <= usize::MAX,
        ensures
            new.undoable(EvLog::Delete { old: self.at(id) }, new_pj),
            new.undone(EvLog::Delete { old: self.at(id) }) == self@,
            new.undone_beside(EvLog::Delete { old: self.at(id) }, new_pj) == pj@,
    {
        let old = self.at(id);
        let pp = old.pp as int;
        self.lemma_view();
        new.lemma_view();
        pj.lemma_view();
        new_pj.lemma_view();
        assert(old.id == id);
        assert(pj.live(pp));
        assert(pj.at(pp).chev@.contains(id as usize));
        assert(new@[id] is None);
        assert(new_pj@[pp] is Some);
        assert(new_pj@[pp] == Some(new_pj.at(pp)@));
        assert(pj@[pp] == Some(pj.at(pp)@));
        assert(self@[id] == Some(self.at(id)@));
        if new.named(old.name@) {
            let i = choose|i: int| new.live(i) && (#[trigger] new.at(i)).name@ == old.name@;
            assert(new@[i] == Some(new.at(i)@));
            assert(self@[i] is Some);
            assert(self@[i] == Some(self.at(i)@));
            self.lemma_events_distinct(i, id);
        }
        if new.timed(old.time) {
            let i = choose|i: int| new.live(i) && (#[trigger] new.at(i)).time == old.time;
            assert(new@[i] == Some(new.at(i)@));
            assert(self@[i] is Some);
            assert(self@[i] == Some(self.at(i)@));
            self.lemma_events_distinct(i, id);
        }
        assert(pj.at(pp)@.chev.remove(id as usize).insert(id as usize) =~= pj.at(pp)@.chev);
        assert(new.undone(EvLog::Delete { old }) =~= self@);
        assert(new.undone_beside(EvLog::Delete { old }, new_pj) =~= pj@);
    }

    /// What `update_pp` did, `undo` takes back.
    pub(crate) proof fn lemma_undo_parent(
        &self,
        new: &EvStore,
        pj: &PjStore,
        new_pj: &PjStore,
        id: int,
        pp: usize,
    )
        requires
            self.wf(),
            pj.wf(),
            self.linked(pj),
            self.live(id),
            pj.live(pp as int),
            new@ == self@.update(id, Some(EvView { pp, ..self.at(id)@ })),
            self.at(id).pp == pp ==> *new_pj == *pj,
            self.at(id).pp != pp ==> new_pj@ == pj@.update(
                pp as int,
                Some(PjView { chev: pj.at(pp as int)@.chev.insert(id as usize), ..pj.at(pp as int)@ }),
            ).update(
                self.at(id).pp as int,
                Some(
                    PjView {
                        chev: pj.at(self.at(id).pp as int)@.chev.remove(id as usize),
                        ..pj.at(self.at(id).pp as int)@
                    },
                ),
            ),
            self.vect@.len() <= usize::MAX,
        ensures
            new.undoable(EvLog::Parent { id: id as usize, old: self.at(id).pp }, new_pj),
            new.undone(EvLog::Parent { id: id as usize, old: self.at(id).pp }) == self@,
            new.undone_beside(EvLog::Parent { id: id as usize, old: self.at(id).pp }, new_pj) == pj@,
    {
        let from = self.at(id).pp;
        let log = EvLog::Parent { id: id as usize, old: from };
        self.lemma_view();
        new.lemma_view();
        pj.lemma_view();
        new_pj.lemma_view();
        assert(pj.live(from as int));
        assert(pj.at(from as int).chev@.contains(id as usize));
        assert(new@[id] is Some);
        assert(new@[id] == Some(new.at(id)@));
        assert(self@[id] == Some(self.at(id)@));
        assert(new.undone(log) =~= self@);
        if from != pp {
            assert(new_pj@[from as int] is Some);
            assert(new_pj@[pp as int] is Some);
            assert(new_pj@[from as int] == Some(new_pj.at(from as int)@));
            assert(new_pj@[pp as int] == Some(new_pj.at(pp as int)@));
            assert(pj@[from as int] == Some(pj.at(from as int)@));
            assert(pj@[pp as int] == Some(pj.at(pp as int)@));
            if pj.at(pp as int).chev@.contains(id as usize) {
                assert(self.at(id).pp == pp);
            }
            assert(pj.at(pp as int)@.chev.insert(id as usize).remove(id as usize) =~= pj.at(
                pp as int,
            )@.chev);
            assert(pj.at(from as int)@.chev.remove(id as usize).insert(id as usize) =~= pj.at(
                from as int,
            )@.chev);
            assert(new.undone_beside(log, new_pj) =~= pj@);
        }
    }

    /// What `update_name` did, `undo` takes back.
    pub(crate) proof fn lemma_undo_name(&self, new: &EvStore, id: int, name: Seq<char>)
        requires
            self.wf(),
            self.live(id),
            !self.named(name),
            new@ == self@.update(id, Some(EvView { name, ..self.at(id)@ })),
        ensures
            new.live(id),
            !new.named(self.at(id).name@),
            new@.update(id, Some(EvView { name: self.at(id).name@, ..new.at(id)@ })) == self@,
    {
        self.lemma_view();
        new.lemma_view();
        assert(new@[id] is Some);
        assert(new@[id] == Some(new.at(id)@));
        assert(self@[id] == Some(self.at(id)@));
        let stale = self.at(id).name@;
        if new.named(stale) {
            let i = choose|i: int| new.live(i) && (#[trigger] new.at(i)).name@ == stale;
            assert(new@[i] == Some(new.at(i)@));
            if i != id {
                assert(self@[i] is Some);
                assert(self@[i] == Some(self.at(i)@));
                self.lemma_events_distinct(i, id);
            }
        }
        assert(new@.update(id, Some(EvView { name: stale, ..new.at(id)@ })) =~= self@);
    }

    /// What `update_time` did, `undo` takes back.
    pub(crate) proof fn lemma_undo_time(&self, new: &EvStore, id: int, time: i64)
        requires
            self.wf(),
            self.live(id),
            !self.timed(time),
            new@ == self@.update(id, Some(EvView { time, ..self.at(id)@ })),
        ensures
            new.live(id),
            !new.timed(self.at(id).time),
            new@.update(id, Some(EvView { time: self.at(id).time, ..new.at(id)@ })) == self@,
    {
        self.lemma_view();
        new.lemma_view();
        assert(new@[id] is Some);
        assert(new@[id] == Some(new.at(id)@));
        assert(self@[id] == Some(self.at(id)@));
        let stale = self.at(id).time;
        if new.timed(stale) {
            let i = choose|i: int| new.live(i) && (#[trigger] new.at(i)).time == stale;
            assert(new@[i] == Some(new.at(i)@));
            if i != id {
                assert(self@[i] is Some);
                assert(self@[i] == Some(self.at(i)@));
                self.lemma_events_distinct(i, id);
            }
        }
        assert(new@.update(id, Some(EvView { time: stale, ..new.at(id)@ })) =~= self@);
    }
}

} // verus!
