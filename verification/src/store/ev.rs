use vstd::prelude::*;
use crate::data::State;
use crate::index::TimeIndex;
use crate::names::NameIndex;
use crate::idset;
use crate::store::pj::{PjLog, PjStore, PjView};

verus! {

/// An event as the store keeps it: a fixed time and a fixed cost under a
/// project.
#[derive(Debug)]
pub struct Ev {
    /// The place of the event in the store.
    pub id: usize,
    /// The project that the event belongs to.
    pub pp: usize,
    pub name: String,
    pub time: i64,
    pub quota_esti: usize,
    pub color: (u8, u8, u8),
    pub state: State,
}

/// An event as a mathematical value.
pub ghost struct EvView {
    pub id: usize,
    pub pp: usize,
    pub name: Seq<char>,
    pub time: i64,
    pub quota_esti: usize,
    pub color: (u8, u8, u8),
    pub state: State,
}

impl View for Ev {
    type V = EvView;

    open spec fn view(&self) -> EvView {
        EvView {
            id: self.id,
            pp: self.pp,
            name: self.name@,
            time: self.time,
            quota_esti: self.quota_esti,
            color: self.color,
            state: self.state,
        }
    }
}

impl Clone for Ev {
    fn clone(&self) -> (ev: Ev)
        ensures
            ev@ == self@,
    {
        self.copy()
    }
}

impl Ev {
    /// An event named `name` under the project `pp`, at the time `time`
    /// and with the cost `quota_esti`, still to come.
    pub fn new(name: String, pp: usize, time: i64, quota_esti: usize) -> (ev: Ev)
        ensures
            ev@ == (EvView {
                id: 0,
                pp,
                name: name@,
                time,
                quota_esti,
                color: (0u8, 0u8, 0u8),
                state: State::Todo,
            }),
    {
        Ev { id: 0, pp, name, time, quota_esti, color: (0, 0, 0), state: State::Todo }
    }

    pub fn id(&self) -> (id: usize)
        ensures
            id == self.id,
    {
        self.id
    }

    pub fn pp(&self) -> (pp: usize)
        ensures
            pp == self.pp,
    {
        self.pp
    }

    pub fn name(&self) -> (name: &str)
        ensures
            name@ == self.name@,
    {
        self.name.as_str()
    }

    pub fn quota_esti(&self) -> (quota: usize)
        ensures
            quota == self.quota_esti,
    {
        self.quota_esti
    }

    pub fn time(&self) -> (time: i64)
        ensures
            time == self.time,
    {
        self.time
    }

    /// The colour as one number: red, green and blue from the high byte down.
    pub fn color_usize(&self) -> (packed: usize)
        ensures
            packed == self.color.0 * 65536 + self.color.1 * 256 + self.color.2,
    {
        let r: usize = self.color.0 as usize;
        let g: usize = self.color.1 as usize;
        let b: usize = self.color.2 as usize;
        r * 256 * 256 + g * 256 + b
    }

    /// A copy of the event.
    pub fn copy(&self) -> (ev: Ev)
        ensures
            ev@ == self@,
    {
        Ev {
            id: self.id,
            pp: self.pp,
            name: self.name.clone(),
            time: self.time,
            quota_esti: self.quota_esti,
            color: self.color,
            state: self.state,
        }
    }
}

/// Why the event store refused a change.
#[derive(Debug, Clone, Copy, PartialEq, Eq, Structural)]
pub enum EvErr {
    TimeClash,
    NameClash,
    ParentNotExist,
    InvalidEventId,
    /// An event that is done or given up does not change its state again.
    InvalidStateChange,
}

/// What a change to the event store was, with what is needed to take it
/// back.
#[derive(Clone, Debug)]
pub enum EvLog {
    Create { id: usize },
    Delete { old: Ev },
    Parent { id: usize, old: usize },
    Name { id: usize, old: String },
    Time { id: usize, old: i64 },
    QuotaEsti { id: usize, old: usize },
    State { id: usize, old: State },
}

/// The events under their ids, with an index of their names and one of
/// their times. No two events bear the same name or fall on the same time.
#[derive(Clone)]
pub struct EvStore {
    pub(crate) vect: Vec<Option<Ev>>,
    pub(crate) time: TimeIndex,
    pub(crate) name: NameIndex,
}

impl EvStore {
    /// The places of the store, each with its event or empty.
    pub open(crate) spec fn view(&self) -> Seq<Option<EvView>> {
        Seq::new(
            self.vect@.len(),
            |i: int|
                match self.vect@[i] {
                    Some(e) => Some(e@),
                    None => None,
                },
        )
    }

    /// The place `i` holds an event.
    pub open(crate) spec fn live(&self, i: int) -> bool {
        0 <= i < self.vect@.len() && self.vect@[i] is Some
    }

    /// The event at the place `i`.
    pub open(crate) spec fn at(&self, i: int) -> Ev {
        self.vect@[i]->0
    }

    /// Some event bears the name `s`.
    pub open(crate) spec fn named(&self, s: Seq<char>) -> bool {
        exists|i: int| self.live(i) && (#[trigger] self.at(i)).name@ == s
    }

    /// Some event falls on the time `t`.
    pub open(crate) spec fn timed(&self, t: i64) -> bool {
        exists|i: int| self.live(i) && (#[trigger] self.at(i)).time == t
    }

    /// The store is in order: each event knows its place, and the two
    /// indexes hold what the events hold, no more and no less, each time once.
    pub open(crate) spec fn wf(&self) -> bool {
        &&& forall|i: int|
            self.live(i) ==> {
                &&& (#[trigger] self.at(i)).id == i
                &&& self.time.has(self.at(i).time, i as usize)
                &&& self.name.has(self.at(i).name@, i as usize)
            }
        &&& forall|i: int, j: int|
            self.live(i) && self.live(j) && i != j ==> (#[trigger] self.at(i)).time != (
            #[trigger] self.at(j)).time
        &&& self.time.wf()
        &&& forall|t: i64, i: usize| #[trigger]
            self.time.has(t, i) ==> self.live(i as int) && self.at(i as int).time == t
        &&& self.name.wf()
        &&& forall|s: Seq<char>, i: usize| #[trigger]
            self.name.has(s, i) ==> self.live(i as int) && self.at(i as int).name@ == s
    }

    /// The events and the projects agree on which event belongs to which
    /// project.
    pub open(crate) spec fn linked(&self, pj: &PjStore) -> bool {
        &&& forall|e: int|
            self.live(e) ==> pj.live((#[trigger] self.at(e)).pp as int) && pj.at(
                self.at(e).pp as int,
            ).chev@.contains(e as usize)
        &&& forall|p: int, e: usize|
            pj.live(p) && #[trigger] pj.at(p).chev@.contains(e) ==> self.live(e as int)
                && self.at(e as int).pp == p
    }

    /// How the view shows what the places hold.
    pub(crate) proof fn lemma_view(&self)
        ensures
            self@.len() == self.vect@.len(),
            forall|i: int| 0 <= i < self@.len() ==> (#[trigger] self@[i] is Some <==> self.live(i)),
            forall|i: int| self.live(i) ==> #[trigger] self@[i] == Some(self.at(i)@),
    {
    }

    pub fn new() -> (store: EvStore)
        ensures
            store.wf(),
            store@.len() == 0,
    {
        let store = EvStore { vect: Vec::new(), time: TimeIndex::new(), name: NameIndex::new() };
        proof {
            assert forall|t: i64, i: usize| #[trigger] store.time.has(t, i) implies false by {}
            assert forall|s: Seq<char>, i: usize| #[trigger] store.name.has(s, i) implies false by {}
        }
        store
    }

    /// The event at the place `id`.
    pub(crate) fn rec(&self, id: usize) -> (e: &Ev)
        requires
            self.live(id as int),
        ensures
            *e == self.at(id as int),
    {
        self.vect[id].as_ref().unwrap()
    }

    /// Whether the place `id` holds an event.
    pub fn has(&self, id: usize) -> (live: bool)
        ensures
            live == self.live(id as int),
    {
        id < self.vect.len() && self.vect[id].is_some()
    }

    /// `Ok` where the place `id` holds an event.
    pub fn check_exists(&self, id: usize) -> (r: Result<(), EvErr>)
        ensures
            r is Ok <==> self.live(id as int),
            r is Err ==> r == Err::<(), EvErr>(EvErr::InvalidEventId),
    {
        if self.has(id) {
            Ok(())
        } else {
            Err(EvErr::InvalidEventId)
        }
    }

    /// A copy of the event at the place `id`.
    pub fn get_by_id(&self, id: usize) -> (r: Option<Ev>)
        ensures
            r is Some <==> self.live(id as int),
            r matches Some(e) ==> e@ == self.at(id as int)@,
    {
        if self.has(id) {
            Some(self.rec(id).copy())
        } else {
            None
        }
    }

    /// The place of the event named `name`.
    pub fn find(&self, name: &str) -> (r: Option<usize>)
        requires
            self.wf(),
        ensures
            r is Some <==> self.named(name@),
            r matches Some(id) ==> self.live(id as int) && self.at(id as int).name@ == name@,
    {
        let r = self.name.get(name);
        proof {
            if r is None && self.named(name@) {
                let i = choose|i: int| self.live(i) && (#[trigger] self.at(i)).name@ == name@;
                let k = choose|k: int|
                    0 <= k < self.name@.len() && self.name@[k] == (name@, i as usize);
                assert(self.name@[k].0 == name@);
            }
            if r is Some {
                assert(self.name.has(name@, r->0));
                assert(self.at(r->0 as int).name@ == name@);
            }
        }
        r
    }

    /// The place of the event at the time `t`.
    pub fn find_at(&self, t: i64) -> (r: Option<usize>)
        requires
            self.wf(),
        ensures
            r is Some <==> self.timed(t),
            r matches Some(id) ==> self.live(id as int) && self.at(id as int).time == t,
    {
        let r = self.time.get(t);
        proof {
            if r is None && self.timed(t) {
                let i = choose|i: int| self.live(i) && (#[trigger] self.at(i)).time == t;
                let k = choose|k: int| 0 <= k < self.time@.len() && self.time@[k] == (t, i as usize);
                assert(self.time@[k].0 == t);
            }
            if r is Some {
                assert(self.time.has(t, r->0));
                assert(self.at(r->0 as int).time == t);
            }
        }
        r
    }

    /// A copy of the event named `name`.
    pub fn get_by_name(&self, name: &str) -> (r: Option<Ev>)
        requires
            self.wf(),
        ensures
            r is Some <==> self.named(name@),
            r matches Some(e) ==> e@.name == name@ && self.live(e@.id as int) && e@ == self.at(
                e@.id as int,
            )@,
    {
        match self.find(name) {
            Some(id) => Some(self.rec(id).copy()),
            None => None,
        }
    }

    /// The names of all events, in the order of the names.
    pub fn get_all_names(&self) -> (r: Result<Vec<String>, EvErr>)
        requires
            self.wf(),
        ensures
            r is Ok,
            forall|s: Seq<char>| #[trigger] self.named(s) <==> crate::names::lists(r->Ok_0@, s),
            crate::names::ascending(r->Ok_0@),
    {
        let names = self.name.names();
        proof {
            assert forall|s: Seq<char>| #[trigger] self.named(s) <==> crate::names::lists(
                names@,
                s,
            ) by {
                if self.named(s) {
                    let i = choose|i: int| self.live(i) && (#[trigger] self.at(i)).name@ == s;
                    let k = choose|k: int|
                        0 <= k < self.name@.len() && self.name@[k] == (s, i as usize);
                    assert(names@[k]@ == s);
                }
                if crate::names::lists(names@, s) {
                    let k = choose|k: int| 0 <= k < names@.len() && (#[trigger] names@[k])@ == s;
                    let e = self.name@[k];
                    assert(self.name.has(e.0, e.1));
                    assert(self.live(e.1 as int) && self.at(e.1 as int).name@ == s);
                }
            }
        }
        Ok(names)
    }

    /// A store in order stays in order when one event changes in what the
    /// indexes do not hold.
    pub(crate) proof fn lemma_own_change(&self, new: &EvStore, id: int)
        requires
            self.wf(),
            self.live(id),
            new.vect@.len() == self.vect@.len(),
            forall|j: int| 0 <= j < self.vect@.len() && j != id ==> new.vect@[j] == self.vect@[j],
            new.live(id),
            new.at(id).id == self.at(id).id,
            new.at(id).name == self.at(id).name,
            new.at(id).time == self.at(id).time,
            new.name == self.name,
            new.time == self.time,
        ensures
            new.wf(),
            forall|pj: &PjStore|
                new.at(id).pp == self.at(id).pp && #[trigger] self.linked(pj) ==> new.linked(pj),
    {
        assert forall|i: int| new.live(i) implies {
            &&& (#[trigger] new.at(i)).id == i
            &&& new.time.has(new.at(i).time, i as usize)
            &&& new.name.has(new.at(i).name@, i as usize)
        } by {
            assert(self.live(i));
            assert(self.at(i).id == i);
        }
        assert forall|i: int, j: int| new.live(i) && new.live(j) && i != j implies (
        #[trigger] new.at(i)).time != (#[trigger] new.at(j)).time by {
            assert(self.live(i) && self.live(j));
            assert(self.at(i).time != self.at(j).time);
        }
        assert forall|t: i64, i: usize| #[trigger] new.time.has(t, i) implies new.live(i as int)
            && new.at(i as int).time == t by {
            assert(self.time.has(t, i));
        }
        assert forall|s: Seq<char>, i: usize| #[trigger] new.name.has(s, i) implies new.live(
            i as int,
        ) && new.at(i as int).name@ == s by {
            assert(self.name.has(s, i));
        }
        assert forall|pj: &PjStore|
            new.at(id).pp == self.at(id).pp && #[trigger] self.linked(pj) implies new.linked(
            pj,
        ) by {
            assert forall|e: int| new.live(e) implies pj.live((#[trigger] new.at(e)).pp as int)
                && pj.at(new.at(e).pp as int).chev@.contains(e as usize) by {
                assert(self.live(e));
                assert(pj.live(self.at(e).pp as int));
            }
            assert forall|p: int, e: usize|
                pj.live(p) && #[trigger] pj.at(p).chev@.contains(e) implies new.live(e as int)
                && new.at(e as int).pp == p by {
                assert(self.live(e as int));
            }
        }
    }

    /// Sets the cost of the event `id`.
    pub fn update_quota_esti(&mut self, id: usize, quota: usize) -> (r: Result<EvLog, EvErr>)
        requires
            old(self).wf(),
        ensures
            final(self).wf(),
            r matches Ok(log) ==> final(self).undone(log) == old(self)@ && forall|pj: &PjStore|
                #[trigger] final(self).undoable(log, pj),
            forall|pj: &PjStore| #[trigger] old(self).linked(pj) ==> final(self).linked(pj),
            r is Ok <==> old(self).live(id as int),
            r matches Ok(log) ==> {
                &&& log == (EvLog::QuotaEsti { id, old: old(self).at(id as int).quota_esti })
                &&& final(self)@ == old(self)@.update(
                    id as int,
                    Some(EvView { quota_esti: quota, ..old(self).at(id as int)@ }),
                )
            },
            r matches Err(e) ==> e == EvErr::InvalidEventId && *final(self) == *old(self),
    {
        if !self.has(id) {
            return Err(EvErr::InvalidEventId);
        }
        let ghost prev = *self;
        let old = self.rec(id).quota_esti;
        match &mut self.vect[id] {
            Some(e) => {
                e.quota_esti = quota;
            },
            None => {},
        }
        proof {
            prev.lemma_own_change(self, id as int);
            assert(self@ =~= prev@.update(
                id as int,
                Some(EvView { quota_esti: quota, ..prev.at(id as int)@ }),
            ));
        }
        proof {
            self.lemma_view();
            prev.lemma_view();
            assert(self.undone(EvLog::QuotaEsti { id, old }) =~= prev@);
        }
        Ok(EvLog::QuotaEsti { id, old })
    }

    /// Gives the event `id` the state `state`. An event that is done or
    /// given up keeps its state.
    pub fn update_state(&mut self, id: usize, state: State) -> (r: Result<EvLog, EvErr>)
        requires
            old(self).wf(),
        ensures
            final(self).wf(),
            r matches Ok(log) ==> final(self).undone(log) == old(self)@ && forall|pj: &PjStore|
                #[trigger] final(self).undoable(log, pj),
            forall|pj: &PjStore| #[trigger] old(self).linked(pj) ==> final(self).linked(pj),
            r is Ok <==> old(self).live(id as int) && (old(self).at(id as int).state
                == State::Todo || old(self).at(id as int).state == state),
            r matches Ok(log) ==> {
                &&& log == (EvLog::State { id, old: old(self).at(id as int).state })
                &&& final(self)@ == old(self)@.update(
                    id as int,
                    Some(EvView { state, ..old(self).at(id as int)@ }),
                )
            },
            r matches Err(e) ==> {
                &&& *final(self) == *old(self)
                &&& e == if old(self).live(id as int) {
                    EvErr::InvalidStateChange
                } else {
                    EvErr::InvalidEventId
                }
            },
    {
        if !self.has(id) {
            return Err(EvErr::InvalidEventId);
        }
        let old = self.rec(id).state;
        if old != State::Todo && old != state {
            return Err(EvErr::InvalidStateChange);
        }
        let ghost prev = *self;
        match &mut self.vect[id] {
            Some(e) => {
                e.state = state;
            },
            None => {},
        }
        proof {
            prev.lemma_own_change(self, id as int);
            assert(self@ =~= prev@.update(
                id as int,
                Some(EvView { state, ..prev.at(id as int)@ }),
            ));
        }
        proof {
            self.lemma_view();
            prev.lemma_view();
            assert(self.undone(EvLog::State { id, old }) =~= prev@);
        }
        Ok(EvLog::State { id, old })
    }

    /// Why the event `ev` cannot be created, where it cannot.
    pub open(crate) spec fn create_error(&self, ev: Ev, pj: &PjStore) -> Option<EvErr> {
        if self.timed(ev.time) {
            Some(EvErr::TimeClash)
        } else if self.named(ev.name@) {
            Some(EvErr::NameClash)
        } else if !pj.live(ev.pp as int) {
            Some(EvErr::ParentNotExist)
        } else {
            None
        }
    }

    /// The change itself; what `create` adds is that it can be taken back.
    pub(crate) fn create_inner(&mut self, ev: Ev, pj_store: &mut PjStore) -> (r: Result<(EvLog, PjLog), EvErr>)
        requires
            old(self).wf(),
            old(pj_store).wf(),
            old(self).linked(old(pj_store)),
        ensures
            final(self).wf(),
            final(pj_store).wf(),
            final(self).linked(final(pj_store)),
            r is Ok <==> old(self).create_error(ev, old(pj_store)) is None,
            r matches Ok(logs) ==> {
                let n = old(self)@.len() as usize;
                &&& logs.0 == (EvLog::Create { id: n })
                &&& logs.1 == (PjLog::AddEvent { id: ev.pp, ev: n })
                &&& final(self)@ == old(self)@.push(Some(EvView { id: n, ..ev@ }))
                &&& final(pj_store)@ == old(pj_store)@.update(
                    ev.pp as int,
                    Some(
                        PjView {
                            chev: old(pj_store).at(ev.pp as int)@.chev.insert(n),
                            ..old(pj_store).at(ev.pp as int)@
                        },
                    ),
                )
            },
            r matches Err(e) ==> {
                &&& *final(self) == *old(self)
                &&& *final(pj_store) == *old(pj_store)
                &&& Some(e) == old(self).create_error(ev, old(pj_store))
            },
    {
        if self.find_at(ev.time).is_some() {
            return Err(EvErr::TimeClash);
        }
        if self.find(ev.name.as_str()).is_some() {
            return Err(EvErr::NameClash);
        }
        let ghost prev = *self;
        let ghost prev_pj = *pj_store;
        let ghost given = ev;
        let id = self.vect.len();
        let pp = ev.pp;
        match pj_store.add_event(pp, id) {
            Err(_) => Err(EvErr::ParentNotExist),
            Ok(plog) => {
                let mut ev = ev;
                ev.id = id;
                proof {
                    if self.name.has_name(ev.name@) {
                        let k = choose|k: int|
                            0 <= k < self.name@.len() && (#[trigger] self.name@[k]).0 == ev.name@;
                        let e = self.name@[k];
                        assert(self.name.has(e.0, e.1));
                        assert(self.at(e.1 as int).name@ == ev.name@);
                    }
                }
                self.name.insert(ev.name.clone(), id);
                self.time.insert(ev.time, id);
                self.vect.push(Some(ev));
                proof {
                    assert forall|i: int| self.live(i) implies {
                        &&& (#[trigger] self.at(i)).id == i
                        &&& self.time.has(self.at(i).time, i as usize)
                        &&& self.name.has(self.at(i).name@, i as usize)
                    } by {
                        if i != id {
                            assert(prev.live(i));
                            assert(prev.at(i).id == i);
                        }
                    }
                    assert forall|i: int, j: int|
                        self.live(i) && self.live(j) && i != j implies (#[trigger] self.at(
                        i,
                    )).time != (#[trigger] self.at(j)).time by {
                        if i != id && j != id {
                            assert(prev.live(i) && prev.live(j));
                            assert(prev.at(i).time != prev.at(j).time);
                        } else if i == id {
                            assert(prev.live(j));
                            assert(prev.at(j).time != given.time);
                        } else {
                            assert(prev.live(i));
                            assert(prev.at(i).time != given.time);
                        }
                    }
                    assert forall|t: i64, i: usize| #[trigger] self.time.has(t, i) implies self.live(
                        i as int,
                    ) && self.at(i as int).time == t by {
                        if !(t == given.time && i == id) {
                            assert(prev.time.has(t, i));
                        }
                    }
                    assert forall|s: Seq<char>, i: usize| #[trigger]
                        self.name.has(s, i) implies self.live(i as int) && self.at(
                        i as int,
                    ).name@ == s by {
                        if !(s == given.name@ && i == id) {
                            assert(prev.name.has(s, i));
                        }
                    }
                    pj_store.lemma_view();
                    prev_pj.lemma_view();
                    assert forall|e: int| self.live(e) implies pj_store.live(
                        (#[trigger] self.at(e)).pp as int,
                    ) && pj_store.at(self.at(e).pp as int).chev@.contains(e as usize) by {
                        if e != id {
                            assert(prev.live(e));
                            let q = prev.at(e).pp as int;
                            assert(prev_pj.live(q));
                            assert(prev_pj.at(q).chev@.contains(e as usize));
                            assert(prev_pj@[q] == Some(prev_pj.at(q)@));
                            assert(pj_store@[q] == Some(pj_store.at(q)@));
                        } else {
                            assert(pj_store@[pp as int] == Some(pj_store.at(pp as int)@));
                        }
                    }
                    assert forall|p: int, e: usize|
                        pj_store.live(p) && #[trigger] pj_store.at(p).chev@.contains(
                            e,
                        ) implies self.live(e as int) && self.at(e as int).pp == p by {
                        assert(pj_store@[p] == Some(pj_store.at(p)@));
                        assert(prev_pj@[p] is Some);
                        assert(prev_pj.live(p));
                        assert(prev_pj@[p] == Some(prev_pj.at(p)@));
                        if !(p == pp && e == id) {
                            assert(prev_pj.at(p).chev@.contains(e));
                            assert(prev.live(e as int));
                        }
                    }
                    assert(self@ =~= prev@.push(Some(EvView { id, ..given@ })));
                }
                Ok((EvLog::Create { id }, plog))
            },
        }
    }

    /// Takes `ev` into the store at the next free place, and notes it with
    /// the project that it names. The time and the name of a new event are
    /// not those of another.
    pub fn create(&mut self, ev: Ev, pj_store: &mut PjStore) -> (r: Result<(EvLog, PjLog), EvErr>)
        requires
            old(self).wf(),
            old(pj_store).wf(),
            old(self).linked(old(pj_store)),
        ensures
            final(self).wf(),
            r matches Ok(logs) ==> {
                &&& final(self).undoable(logs.0, final(pj_store))
                &&& final(self).undone(logs.0) == old(self)@
                &&& final(self).undone_beside(logs.0, final(pj_store)) == old(pj_store)@
            },
            final(pj_store).wf(),
            final(self).linked(final(pj_store)),
            r is Ok <==> old(self).create_error(ev, old(pj_store)) is None,
            r matches Ok(logs) ==> {
                let n = old(self)@.len() as usize;
                &&& logs.0 == (EvLog::Create { id: n })
                &&& logs.1 == (PjLog::AddEvent { id: ev.pp, ev: n })
                &&& final(self)@ == old(self)@.push(Some(EvView { id: n, ..ev@ }))
                &&& final(pj_store)@ == old(pj_store)@.update(
                    ev.pp as int,
                    Some(
                        PjView {
                            chev: old(pj_store).at(ev.pp as int)@.chev.insert(n),
                            ..old(pj_store).at(ev.pp as int)@
                        },
                    ),
                )
            },
            r matches Err(e) ==> {
                &&& *final(self) == *old(self)
                &&& *final(pj_store) == *old(pj_store)
                &&& Some(e) == old(self).create_error(ev, old(pj_store))
            },
    {
        let ghost prev = *self;
        let ghost prev_pj = *pj_store;
        let n = self.vect.len();
        let r = self.create_inner(ev, pj_store);
        proof {
            if r is Ok {
                prev.lemma_undo_create(self, &prev_pj, pj_store, ev);
            }
        }
        r
    }

    /// The change itself; what `delete` adds is that it can be taken back.
    pub(crate) fn delete_inner(&mut self, id: usize, pj_store: &mut PjStore) -> (r: Result<EvLog, EvErr>)
        requires
            old(self).wf(),
            old(pj_store).wf(),
            old(self).linked(old(pj_store)),
        ensures
            final(self).wf(),
            final(pj_store).wf(),
            final(self).linked(final(pj_store)),
            r is Ok <==> old(self).live(id as int),
            r matches Ok(log) ==> {
                let pp = old(self).at(id as int).pp as int;
                &&& log matches EvLog::Delete { old: ev }
                &&& ev == old(self).at(id as int)
                &&& final(self)@ == old(self)@.update(id as int, None)
                &&& final(pj_store)@ == old(pj_store)@.update(
                    pp,
                    Some(
                        PjView {
                            chev: old(pj_store).at(pp)@.chev.remove(id),
                            ..old(pj_store).at(pp)@
                        },
                    ),
                )
            },
            r matches Err(e) ==> {
                &&& e == EvErr::InvalidEventId
                &&& *final(self) == *old(self)
                &&& *final(pj_store) == *old(pj_store)
            },
    {
        if !self.has(id) {
            return Err(EvErr::InvalidEventId);
        }
        let ghost prev = *self;
        let ghost prev_pj = *pj_store;
        let pp = self.rec(id).pp;
        let _ = pj_store.rmv_event(pp, id);
        let ev = self.vect[id].take().unwrap();
        self.time.remove(ev.time, id);
        self.name.remove(ev.name.as_str());
        proof {
            assert(prev.at(id as int).id == id);
            assert forall|i: int| self.live(i) implies {
                &&& (#[trigger] self.at(i)).id == i
                &&& self.time.has(self.at(i).time, i as usize)
                &&& self.name.has(self.at(i).name@, i as usize)
            } by {
                assert(prev.live(i));
                assert(prev.at(i).id == i);
                assert(prev.at(i).time != prev.at(id as int).time);
                if prev.at(i).name@ == ev.name@ {
                    prev.name.lemma_unique(ev.name@, i as usize, id);
                }
            }
            assert forall|i: int, j: int| self.live(i) && self.live(j) && i != j implies (
            #[trigger] self.at(i)).time != (#[trigger] self.at(j)).time by {
                assert(prev.live(i) && prev.live(j));
                assert(prev.at(i).time != prev.at(j).time);
            }
            assert forall|t: i64, i: usize| #[trigger] self.time.has(t, i) implies self.live(
                i as int,
            ) && self.at(i as int).time == t by {
                assert(prev.time.has(t, i));
            }
            assert forall|s: Seq<char>, i: usize| #[trigger] self.name.has(s, i) implies self.live(
                i as int,
            ) && self.at(i as int).name@ == s by {
                assert(prev.name.has(s, i));
            }
            pj_store.lemma_view();
            prev_pj.lemma_view();
            assert forall|e: int| self.live(e) implies pj_store.live(
                (#[trigger] self.at(e)).pp as int,
            ) && pj_store.at(self.at(e).pp as int).chev@.contains(e as usize) by {
                assert(prev.live(e));
                let q = prev.at(e).pp as int;
                assert(prev_pj.live(q));
                assert(prev_pj.at(q).chev@.contains(e as usize));
                assert(prev_pj@[q] == Some(prev_pj.at(q)@));
                assert(pj_store@[q] == Some(pj_store.at(q)@));
            }
            assert forall|p: int, e: usize|
                pj_store.live(p) && #[trigger] pj_store.at(p).chev@.contains(e) implies self.live(
                e as int,
            ) && self.at(e as int).pp == p by {
                assert(pj_store@[p] == Some(pj_store.at(p)@));
                assert(prev_pj@[p] is Some);
                assert(prev_pj.live(p));
                assert(prev_pj@[p] == Some(prev_pj.at(p)@));
                assert(prev_pj.at(p).chev@.contains(e));
                assert(prev.live(e as int));
            }
            assert(self@ =~= prev@.update(id as int, None));
        }
        Ok(EvLog::Delete { old: ev })
    }

    /// Deletes the event `id`, which leaves its place empty, and strikes it
    /// from its project.
    pub fn delete(&mut self, id: usize, pj_store: &mut PjStore) -> (r: Result<EvLog, EvErr>)
        requires
            old(self).wf(),
            old(pj_store).wf(),
            old(self).linked(old(pj_store)),
        ensures
            final(self).wf(),
            r matches Ok(log) ==> {
                &&& final(self).undoable(log, final(pj_store))
                &&& final(self).undone(log) == old(self)@
                &&& final(self).undone_beside(log, final(pj_store)) == old(pj_store)@
            },
            final(pj_store).wf(),
            final(self).linked(final(pj_store)),
            r is Ok <==> old(self).live(id as int),
            r matches Ok(log) ==> {
                let pp = old(self).at(id as int).pp as int;
                &&& log matches EvLog::Delete { old: ev }
                &&& ev == old(self).at(id as int)
                &&& final(self)@ == old(self)@.update(id as int, None)
                &&& final(pj_store)@ == old(pj_store)@.update(
                    pp,
                    Some(
                        PjView {
                            chev: old(pj_store).at(pp)@.chev.remove(id),
                            ..old(pj_store).at(pp)@
                        },
                    ),
                )
            },
            r matches Err(e) ==> {
                &&& e == EvErr::InvalidEventId
                &&& *final(self) == *old(self)
                &&& *final(pj_store) == *old(pj_store)
            },
    {
        let ghost prev = *self;
        let ghost prev_pj = *pj_store;
        let n = self.vect.len();
        let r = self.delete_inner(id, pj_store);
        proof {
            if r is Ok {
                prev.lemma_undo_delete(self, &prev_pj, pj_store, id as int);
            }
        }
        r
    }

    /// The change itself; what `update_pp` adds is that it can be taken back.
    pub(crate) fn update_pp_inner(&mut self, id: usize, pp: usize, pj_store: &mut PjStore) -> (r: Result<
        EvLog,
        EvErr,
    >)
        requires
            old(self).wf(),
            old(pj_store).wf(),
            old(self).linked(old(pj_store)),
        ensures
            final(self).wf(),
            final(pj_store).wf(),
            final(self).linked(final(pj_store)),
            r is Ok <==> old(self).live(id as int) && old(pj_store).live(pp as int),
            r matches Ok(log) ==> {
                let from = old(self).at(id as int).pp;
                &&& log == (EvLog::Parent { id, old: from })
                &&& final(self)@ == old(self)@.update(
                    id as int,
                    Some(EvView { pp, ..old(self).at(id as int)@ }),
                )
                &&& from == pp ==> *final(pj_store) == *old(pj_store)
                &&& from != pp ==> final(pj_store)@ == old(pj_store)@.update(
                    pp as int,
                    Some(
                        PjView {
                            chev: old(pj_store).at(pp as int)@.chev.insert(id),
                            ..old(pj_store).at(pp as int)@
                        },
                    ),
                ).update(
                    from as int,
                    Some(
                        PjView {
                            chev: old(pj_store).at(from as int)@.chev.remove(id),
                            ..old(pj_store).at(from as int)@
                        },
                    ),
                )
            },
            r matches Err(e) ==> {
                &&& *final(self) == *old(self)
                &&& *final(pj_store) == *old(pj_store)
                &&& e == if old(self).live(id as int) {
                    EvErr::ParentNotExist
                } else {
                    EvErr::InvalidEventId
                }
            },
    {
        if !self.has(id) {
            return Err(EvErr::InvalidEventId);
        }
        if !pj_store.has(pp) {
            return Err(EvErr::ParentNotExist);
        }
        let from = self.rec(id).pp;
        let ghost prev = *self;
        let ghost prev_pj = *pj_store;
        if from != pp {
            let _ = pj_store.add_event(pp, id);
            let ghost mid_pj = *pj_store;
            let _ = pj_store.rmv_event(from, id);
            match &mut self.vect[id] {
                Some(e) => {
                    e.pp = pp;
                },
                None => {},
            }
            proof {
                prev.lemma_own_change(self, id as int);
                pj_store.lemma_view();
                mid_pj.lemma_view();
                prev_pj.lemma_view();
                assert(prev_pj.live(from as int));
                assert(mid_pj@[from as int] == prev_pj@[from as int]);
                assert(mid_pj.live(from as int));
                assert(mid_pj.at(from as int)@ == prev_pj.at(from as int)@);
                assert forall|e: int| self.live(e) implies pj_store.live(
                    (#[trigger] self.at(e)).pp as int,
                ) && pj_store.at(self.at(e).pp as int).chev@.contains(e as usize) by {
                    assert(prev.live(e));
                    let q = self.at(e).pp as int;
                    assert(prev_pj.live(prev.at(e).pp as int));
                    assert(prev_pj.at(prev.at(e).pp as int).chev@.contains(e as usize));
                    assert(prev_pj@[q] == Some(prev_pj.at(q)@));
                    assert(mid_pj@[q] == Some(mid_pj.at(q)@));
                    assert(pj_store@[q] == Some(pj_store.at(q)@));
                }
                assert forall|p: int, e: usize|
                    pj_store.live(p) && #[trigger] pj_store.at(p).chev@.contains(
                        e,
                    ) implies self.live(e as int) && self.at(e as int).pp == p by {
                    assert(pj_store@[p] == Some(pj_store.at(p)@));
                    assert(mid_pj@[p] is Some);
                    assert(mid_pj.live(p));
                    assert(mid_pj@[p] == Some(mid_pj.at(p)@));
                    assert(prev_pj@[p] is Some);
                    assert(prev_pj.live(p));
                    assert(prev_pj@[p] == Some(prev_pj.at(p)@));
                    if !(p == pp && e == id) {
                        assert(mid_pj.at(p).chev@.contains(e));
                        assert(prev_pj.at(p).chev@.contains(e));
                        assert(prev.live(e as int));
                    }
                }
            }
        }
        proof {
            assert(self@ =~= prev@.update(id as int, Some(EvView { pp, ..prev.at(id as int)@ })));
        }
        Ok(EvLog::Parent { id, old: from })
    }

    /// Moves the event `id` to the project `pp`.
    pub fn update_pp(&mut self, id: usize, pp: usize, pj_store: &mut PjStore) -> (r: Result<
        EvLog,
        EvErr,
    >)
        requires
            old(self).wf(),
            old(pj_store).wf(),
            old(self).linked(old(pj_store)),
        ensures
            final(self).wf(),
            r matches Ok(log) ==> {
                &&& final(self).undoable(log, final(pj_store))
                &&& final(self).undone(log) == old(self)@
                &&& final(self).undone_beside(log, final(pj_store)) == old(pj_store)@
            },
            final(pj_store).wf(),
            final(self).linked(final(pj_store)),
            r is Ok <==> old(self).live(id as int) && old(pj_store).live(pp as int),
            r matches Ok(log) ==> {
                let from = old(self).at(id as int).pp;
                &&& log == (EvLog::Parent { id, old: from })
                &&& final(self)@ == old(self)@.update(
                    id as int,
                    Some(EvView { pp, ..old(self).at(id as int)@ }),
                )
                &&& from == pp ==> *final(pj_store) == *old(pj_store)
                &&& from != pp ==> final(pj_store)@ == old(pj_store)@.update(
                    pp as int,
                    Some(
                        PjView {
                            chev: old(pj_store).at(pp as int)@.chev.insert(id),
                            ..old(pj_store).at(pp as int)@
                        },
                    ),
                ).update(
                    from as int,
                    Some(
                        PjView {
                            chev: old(pj_store).at(from as int)@.chev.remove(id),
                            ..old(pj_store).at(from as int)@
                        },
                    ),
                )
            },
            r matches Err(e) ==> {
                &&& *final(self) == *old(self)
                &&& *final(pj_store) == *old(pj_store)
                &&& e == if old(self).live(id as int) {
                    EvErr::ParentNotExist
                } else {
                    EvErr::InvalidEventId
                }
            },
    {
        let ghost prev = *self;
        let ghost prev_pj = *pj_store;
        let n = self.vect.len();
        let r = self.update_pp_inner(id, pp, pj_store);
        proof {
            if r is Ok {
                prev.lemma_undo_parent(self, &prev_pj, pj_store, id as int, pp);
            }
        }
        r
    }

    /// The change itself; what `update_name` adds is that it can be taken back.
    pub(crate) fn update_name_inner(&mut self, id: usize, name: String) -> (r: Result<EvLog, EvErr>)
        requires
            old(self).wf(),
        ensures
            final(self).wf(),
            forall|pj: &PjStore| #[trigger] old(self).linked(pj) ==> final(self).linked(pj),
            r is Ok <==> old(self).live(id as int) && !old(self).named(name@),
            r matches Ok(log) ==> {
                &&& log matches EvLog::Name { id: i, old: o }
                &&& i == id
                &&& o@ == old(self).at(id as int).name@
                &&& final(self)@ == old(self)@.update(
                    id as int,
                    Some(EvView { name: name@, ..old(self).at(id as int)@ }),
                )
            },
            r matches Err(e) ==> {
                &&& *final(self) == *old(self)
                &&& e == if old(self).live(id as int) {
                    EvErr::NameClash
                } else {
                    EvErr::InvalidEventId
                }
            },
    {
        if !self.has(id) {
            return Err(EvErr::InvalidEventId);
        }
        if self.find(name.as_str()).is_some() {
            return Err(EvErr::NameClash);
        }
        let ghost prev = *self;
        let ghost fresh = name@;
        let ghost stale = prev.at(id as int).name@;
        let label = name.clone();
        let mut old = name;
        match &mut self.vect[id] {
            Some(e) => {
                std::mem::swap(&mut e.name, &mut old);
            },
            None => {},
        }
        self.name.remove(old.as_str());
        proof {
            if self.name.has_name(fresh) {
                let k = choose|k: int| 0 <= k < self.name@.len() && (#[trigger] self.name@[k]).0
                    == fresh;
                let e = self.name@[k];
                assert(self.name.has(e.0, e.1));
                assert(prev.name.has(e.0, e.1));
                assert(prev.at(e.1 as int).name@ == fresh);
                assert(false);
            }
        }
        self.name.insert(label, id);
        proof {
            assert(prev.at(id as int).id == id);
            assert forall|i: int| self.live(i) implies {
                &&& (#[trigger] self.at(i)).id == i
                &&& self.time.has(self.at(i).time, i as usize)
                &&& self.name.has(self.at(i).name@, i as usize)
            } by {
                assert(prev.live(i));
                assert(prev.at(i).id == i);
                if i != id {
                    if prev.at(i).name@ == stale {
                        prev.name.lemma_unique(stale, i as usize, id);
                    }
                }
            }
            assert forall|i: int, j: int| self.live(i) && self.live(j) && i != j implies (
            #[trigger] self.at(i)).time != (#[trigger] self.at(j)).time by {
                assert(prev.live(i) && prev.live(j));
                assert(prev.at(i).time != prev.at(j).time);
            }
            assert forall|t: i64, i: usize| #[trigger] self.time.has(t, i) implies self.live(
                i as int,
            ) && self.at(i as int).time == t by {
                assert(prev.time.has(t, i));
            }
            assert forall|s: Seq<char>, i: usize| #[trigger] self.name.has(s, i) implies self.live(
                i as int,
            ) && self.at(i as int).name@ == s by {
                if !(s == fresh && i == id) {
                    assert(prev.name.has(s, i));
                }
            }
            assert forall|pj: &PjStore| #[trigger] prev.linked(pj) implies self.linked(pj) by {
                assert forall|e: int| self.live(e) implies pj.live(
                    (#[trigger] self.at(e)).pp as int,
                ) && pj.at(self.at(e).pp as int).chev@.contains(e as usize) by {
                    assert(prev.live(e));
                    assert(pj.live(prev.at(e).pp as int));
                }
                assert forall|p: int, e: usize|
                    pj.live(p) && #[trigger] pj.at(p).chev@.contains(e) implies self.live(
                    e as int,
                ) && self.at(e as int).pp == p by {
                    assert(prev.live(e as int));
                }
            }
            assert(self@ =~= prev@.update(
                id as int,
                Some(EvView { name: fresh, ..prev.at(id as int)@ }),
            ));
        }
        Ok(EvLog::Name { id, old })
    }

    /// Renames the event `id`. A name that an event bears already is
    /// refused, also where it is the event's own.
    pub fn update_name(&mut self, id: usize, name: String) -> (r: Result<EvLog, EvErr>)
        requires
            old(self).wf(),
        ensures
            final(self).wf(),
            r matches Ok(log) ==> final(self).undone(log) == old(self)@ && forall|pj: &PjStore|
                #[trigger] final(self).undoable(log, pj),
            forall|pj: &PjStore| #[trigger] old(self).linked(pj) ==> final(self).linked(pj),
            r is Ok <==> old(self).live(id as int) && !old(self).named(name@),
            r matches Ok(log) ==> {
                &&& log matches EvLog::Name { id: i, old: o }
                &&& i == id
                &&& o@ == old(self).at(id as int).name@
                &&& final(self)@ == old(self)@.update(
                    id as int,
                    Some(EvView { name: name@, ..old(self).at(id as int)@ }),
                )
            },
            r matches Err(e) ==> {
                &&& *final(self) == *old(self)
                &&& e == if old(self).live(id as int) {
                    EvErr::NameClash
                } else {
                    EvErr::InvalidEventId
                }
            },
    {
        let ghost prev = *self;
        let ghost fresh = name@;
        let r = self.update_name_inner(id, name);
        proof {
            if r is Ok {
                prev.lemma_undo_name(self, id as int, fresh);
            }
        }
        r
    }

    /// The change itself; what `update_time` adds is that it can be taken back.
    pub(crate) fn update_time_inner(&mut self, id: usize, time: i64) -> (r: Result<EvLog, EvErr>)
        requires
            old(self).wf(),
        ensures
            final(self).wf(),
            forall|pj: &PjStore| #[trigger] old(self).linked(pj) ==> final(self).linked(pj),
            r is Ok <==> old(self).live(id as int) && !old(self).timed(time),
            r matches Ok(log) ==> {
                &&& log == (EvLog::Time { id, old: old(self).at(id as int).time })
                &&& final(self)@ == old(self)@.update(
                    id as int,
                    Some(EvView { time, ..old(self).at(id as int)@ }),
                )
            },
            r matches Err(e) ==> {
                &&& *final(self) == *old(self)
                &&& e == if old(self).live(id as int) {
                    EvErr::TimeClash
                } else {
                    EvErr::InvalidEventId
                }
            },
    {
        if !self.has(id) {
            return Err(EvErr::InvalidEventId);
        }
        if self.find_at(time).is_some() {
            return Err(EvErr::TimeClash);
        }
        let ghost prev = *self;
        let old = self.rec(id).time;
        match &mut self.vect[id] {
            Some(e) => {
                e.time = time;
            },
            None => {},
        }
        self.time.remove(old, id);
        self.time.insert(time, id);
        proof {
            assert(prev.at(id as int).id == id);
            assert forall|i: int| self.live(i) implies {
                &&& (#[trigger] self.at(i)).id == i
                &&& self.time.has(self.at(i).time, i as usize)
                &&& self.name.has(self.at(i).name@, i as usize)
            } by {
                assert(prev.live(i));
                assert(prev.at(i).id == i);
                if i != id {
                    assert(prev.time.has(prev.at(i).time, i as usize));
                }
            }
            assert forall|i: int, j: int| self.live(i) && self.live(j) && i != j implies (
            #[trigger] self.at(i)).time != (#[trigger] self.at(j)).time by {
                assert(prev.live(i) && prev.live(j));
                assert(prev.at(i).time != prev.at(j).time);
                assert(prev.at(i).time != time);
                assert(prev.at(j).time != time);
            }
            assert forall|t: i64, i: usize| #[trigger] self.time.has(t, i) implies self.live(
                i as int,
            ) && self.at(i as int).time == t by {
                if !(t == time && i == id) {
                    assert(prev.time.has(t, i));
                }
            }
            assert forall|s: Seq<char>, i: usize| #[trigger] self.name.has(s, i) implies self.live(
                i as int,
            ) && self.at(i as int).name@ == s by {
                assert(prev.name.has(s, i));
            }
            assert forall|pj: &PjStore| #[trigger] prev.linked(pj) implies self.linked(pj) by {
                assert forall|e: int| self.live(e) implies pj.live(
                    (#[trigger] self.at(e)).pp as int,
                ) && pj.at(self.at(e).pp as int).chev@.contains(e as usize) by {
                    assert(prev.live(e));
                    assert(pj.live(prev.at(e).pp as int));
                }
                assert forall|p: int, e: usize|
                    pj.live(p) && #[trigger] pj.at(p).chev@.contains(e) implies self.live(
                    e as int,
                ) && self.at(e as int).pp == p by {
                    assert(prev.live(e as int));
                }
            }
            assert(self@ =~= prev@.update(id as int, Some(EvView { time, ..prev.at(id as int)@ })));
        }
        Ok(EvLog::Time { id, old })
    }

    /// Moves the event `id` to the time `time`. A time on which an event
    /// falls already is refused, also where it is the event's own.
    pub fn update_time(&mut self, id: usize, time: i64) -> (r: Result<EvLog, EvErr>)
        requires
            old(self).wf(),
        ensures
            final(self).wf(),
            r matches Ok(log) ==> final(self).undone(log) == old(self)@ && forall|pj: &PjStore|
                #[trigger] final(self).undoable(log, pj),
            forall|pj: &PjStore| #[trigger] old(self).linked(pj) ==> final(self).linked(pj),
            r is Ok <==> old(self).live(id as int) && !old(self).timed(time),
            r matches Ok(log) ==> {
                &&& log == (EvLog::Time { id, old: old(self).at(id as int).time })
                &&& final(self)@ == old(self)@.update(
                    id as int,
                    Some(EvView { time, ..old(self).at(id as int)@ }),
                )
            },
            r matches Err(e) ==> {
                &&& *final(self) == *old(self)
                &&& e == if old(self).live(id as int) {
                    EvErr::TimeClash
                } else {
                    EvErr::InvalidEventId
                }
            },
    {
        let ghost prev = *self;
        let r = self.update_time_inner(id, time);
        proof {
            if r is Ok {
                prev.lemma_undo_time(self, id as int, time);
            }
        }
        r
    }

    /// The events stay with their projects where the project store changes
    /// in nothing that concerns events.
    pub(crate) proof fn lemma_relinked(&self, before: &PjStore, after: &PjStore)
        requires
            self.linked(before),
            after@.len() >= before@.len(),
            forall|i: int| #![trigger after@[i]]
                0 <= i < before@.len() ==> (after@[i] is Some <==> before@[i] is Some) && (
                before@[i] is Some ==> after@[i]->0.chev == before@[i]->0.chev),
            forall|i: int| #![trigger after@[i]]
                before@.len() <= i < after@.len() ==> (after@[i] is Some ==> after@[i]->0.chev
                    == Set::<usize>::empty()),
        ensures
            self.linked(after),
    {
        after.lemma_view();
        before.lemma_view();
        assert forall|e: int| self.live(e) implies after.live((#[trigger] self.at(e)).pp as int)
            && after.at(self.at(e).pp as int).chev@.contains(e as usize) by {
            let q = self.at(e).pp as int;
            assert(before.live(q));
            assert(before.at(q).chev@.contains(e as usize));
            assert(before@[q] == Some(before.at(q)@));
            assert(after@[q] is Some);
            assert(after@[q] == Some(after.at(q)@));
        }
        assert forall|p: int, e: usize|
            after.live(p) && #[trigger] after.at(p).chev@.contains(e) implies self.live(e as int)
            && self.at(e as int).pp == p by {
            assert(after@[p] == Some(after.at(p)@));
            assert(after.at(p)@.chev.contains(e));
            if p < before@.len() {
                assert(before@[p] is Some);
                assert(before.live(p));
                assert(before@[p] == Some(before.at(p)@));
                assert(before.at(p).chev@.contains(e));
            }
        }
    }

    /// The number of places of the store, with those that a deleted event
    /// left empty.
    pub fn len(&self) -> (n: usize)
        ensures
            n == self@.len(),
    {
        self.vect.len()
    }

    /// Whether the events and the projects agree on which event belongs to
    /// which project.
    pub fn is_linked(&self, pj: &PjStore) -> (r: bool)
        ensures
            r == self.linked(pj),
    {
        let mut e: usize = 0;
        while e < self.vect.len()
            invariant
                e <= self.vect@.len(),
                forall|x: int|
                    0 <= x < e && self.live(x) ==> pj.live((#[trigger] self.at(x)).pp as int)
                        && pj.at(self.at(x).pp as int).chev@.contains(x as usize),
            decreases self.vect@.len() - e,
        {
            if self.has(e) {
                let pp = self.rec(e).pp;
                if !pj.has(pp) || !idset::contains(&pj.rec(pp).chev, e) {
                    assert(!self.linked(pj)) by {
                        assert(self.live(e as int));
                    }
                    return false;
                }
            }
            e += 1;
        }
        let n = pj.len();
        let mut p: usize = 0;
        while p < n
            invariant
                p <= n,
                n == pj@.len(),
                forall|x: int|
                    self.live(x) ==> pj.live((#[trigger] self.at(x)).pp as int) && pj.at(
                        self.at(x).pp as int,
                    ).chev@.contains(x as usize),
                forall|x: int, y: usize|
                    0 <= x < p && pj.live(x) && #[trigger] pj.at(x).chev@.contains(y) ==> self.live(
                        y as int,
                    ) && self.at(y as int).pp == x,
            decreases n - p,
        {
            if pj.has(p) {
                let list = &pj.rec(p).chev;
                let mut k: usize = 0;
                while k < list.len()
                    invariant
                        k <= list@.len(),
                        pj.live(p as int),
                        list@ == pj.at(p as int).chev@,
                        forall|m: int|
                            0 <= m < k ==> self.live(#[trigger] list@[m] as int) && self.at(
                                list@[m] as int,
                            ).pp == p,
                    decreases list@.len() - k,
                {
                    let y = list[k];
                    if !self.has(y) || self.rec(y).pp != p {
                        assert(!self.linked(pj)) by {
                            assert(pj.at(p as int).chev@.contains(y));
                        }
                        return false;
                    }
                    k += 1;
                }
                assert forall|y: usize| #[trigger] pj.at(p as int).chev@.contains(y) implies self.live(
                    y as int,
                ) && self.at(y as int).pp == p by {
                    let m = choose|m: int| 0 <= m < list@.len() && list@[m] == y;
                    assert(self.live(list@[m] as int));
                }
            }
            p += 1;
        }
        proof {
            pj.lemma_view();
        }
        true
    }
}

} // verus!
