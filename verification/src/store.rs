//! The entity store: projects and events under their ids, with the record
//! of each change that allows it to be taken back.

use vstd::prelude::*;

pub mod closure;
pub mod ev;
pub mod ev_undo;
pub mod laws;
pub mod pj;
pub mod revise;
pub mod undo;

use crate::store::ev::{Ev, EvErr, EvLog, EvStore};
use crate::store::pj::{same_lists, Pj, PjErr, PjLog, PjStore, PjView};

verus! {

/// A change to one of the two stores.
#[derive(Clone, Debug)]
pub enum DBLog {
    Ev(EvLog),
    Pj(PjLog),
}

impl From<EvLog> for DBLog {
    fn from(value: EvLog) -> (log: DBLog) {
        DBLog::Ev(value)
    }
}

impl vstd::std_specs::convert::FromSpecImpl<EvLog> for DBLog {
    open spec fn obeys_from_spec() -> bool {
        true
    }

    open spec fn from_spec(value: EvLog) -> DBLog {
        DBLog::Ev(value)
    }
}

impl From<PjLog> for DBLog {
    fn from(value: PjLog) -> (log: DBLog) {
        DBLog::Pj(value)
    }
}

impl vstd::std_specs::convert::FromSpecImpl<PjLog> for DBLog {
    open spec fn obeys_from_spec() -> bool {
        true
    }

    open spec fn from_spec(value: PjLog) -> DBLog {
        DBLog::Pj(value)
    }
}

/// Why one of the two stores refused a change.
#[derive(Debug, Clone, Copy, PartialEq, Eq, Structural)]
pub enum DBErr {
    Pj(PjErr),
    Ev(EvErr),
}

/// The projects and the events of one user, with the time zone in which the
/// user reads times, and the changes made so far, group by group.
#[derive(Clone)]
pub struct DataBase {
    pub(crate) tz: i32,
    pub(crate) ev: EvStore,
    pub(crate) pj: PjStore,
    pub(crate) log: Vec<Vec<DBLog>>,
}

impl DataBase {
    /// The two stores are in order and agree on the events of each project.
    pub open(crate) spec fn wf(&self) -> bool {
        &&& self.pj.wf()
        &&& self.ev.wf()
        &&& self.ev.linked(&self.pj)
    }

    /// The project store.
    pub open(crate) spec fn projects(&self) -> PjStore {
        self.pj
    }

    /// The event store.
    pub open(crate) spec fn events(&self) -> EvStore {
        self.ev
    }

    /// The changes made so far, group by group.
    pub open(crate) spec fn changes(&self) -> Seq<Vec<DBLog>> {
        self.log@
    }

    /// The time zone, in hours east of UTC.
    pub open(crate) spec fn zone(&self) -> i32 {
        self.tz
    }

    /// A database with the root project alone, read in the time zone `tz`.
    pub fn new(tz: i32) -> (db: DataBase)
        ensures
            db.wf(),
            db.zone() == tz,
            db.projects()@.len() == 1,
            db.projects().live(0),
            db.projects().at(0)@ == crate::store::pj::fresh_view("root"@),
            db.projects().bare(0),
            db.events()@.len() == 0,
            db.changes().len() == 0,
    {
        let db = DataBase { tz, ev: EvStore::new(), pj: PjStore::new(), log: Vec::new() };
        proof {
            assert(db.pj.record_ok(0));
            assert forall|p: int, e: usize|
                db.pj.live(p) && #[trigger] db.pj.at(p).chev@.contains(e) implies false by {
                assert(p == 0);
            }
        }
        db
    }

    /// A database of the two stores, where they agree on the events of
    /// each project, with `log` as its record of the changes made so far.
    pub fn from_parts(tz: i32, pj: PjStore, ev: EvStore, log: Vec<Vec<DBLog>>) -> (r: Option<
        DataBase,
    >)
        requires
            pj.wf(),
            ev.wf(),
        ensures
            r is Some <==> ev.linked(&pj),
            r matches Some(db) ==> {
                &&& db.wf()
                &&& db.zone() == tz
                &&& db.projects() == pj
                &&& db.events() == ev
                &&& db.changes() == log@
            },
    {
        if ev.is_linked(&pj) {
            Some(DataBase { tz, ev, pj, log })
        } else {
            None
        }
    }

    /// The changes made so far, group by group, to read.
    pub fn log(&self) -> (log: &Vec<Vec<DBLog>>)
        ensures
            log@ == self.changes(),
    {
        &self.log
    }

    /// The project store, to read.
    pub fn pj(&self) -> (pj: &PjStore)
        ensures
            *pj == self.projects(),
    {
        &self.pj
    }

    /// The event store, to read.
    pub fn ev(&self) -> (ev: &EvStore)
        ensures
            *ev == self.events(),
    {
        &self.ev
    }

    /// The names of all projects.
    pub fn pj_list(&self) -> (r: Result<Vec<String>, DBErr>)
        requires
            self.wf(),
        ensures
            r is Ok,
            forall|s: Seq<char>| #[trigger]
                self.projects().named(s) <==> crate::names::lists(r->Ok_0@, s),
            crate::names::ascending(r->Ok_0@),
    {
        match self.pj.get_all_names() {
            Ok(names) => Ok(names),
            Err(e) => Err(DBErr::Pj(e)),
        }
    }

    /// The names of all events.
    pub fn ev_list(&self) -> (r: Result<Vec<String>, DBErr>)
        requires
            self.wf(),
        ensures
            r is Ok,
            forall|s: Seq<char>| #[trigger]
                self.events().named(s) <==> crate::names::lists(r->Ok_0@, s),
            crate::names::ascending(r->Ok_0@),
    {
        match self.ev.get_all_names() {
            Ok(names) => Ok(names),
            Err(e) => Err(DBErr::Ev(e)),
        }
    }

    /// A copy of the project named `name`.
    pub fn pj_get_by_name(&self, name: &str) -> (r: Option<Pj>)
        requires
            self.wf(),
        ensures
            r is Some <==> self.projects().named(name@),
            r matches Some(p) ==> p@.name == name@ && self.projects().live(p@.id as int) && p@
                == self.projects().at(p@.id as int)@ && same_lists(
                p,
                self.projects().at(p@.id as int),
            ),
    {
        match self.pj.find(name) {
            Some(id) => {
                proof {
                    assert(self.pj.record_ok(id as int));
                    assert(self.pj.named(name@));
                }
                Some(self.pj.rec(id).copy())
            },
            None => None,
        }
    }

    /// A copy of the project named `name`, which is created under the root
    /// where no project bears the name yet.
    pub fn pj_get_or_create_by_name(&mut self, name: &str) -> (pj: Pj)
        requires
            old(self).wf(),
        ensures
            final(self).wf(),
            final(self).zone() == old(self).zone(),
            final(self).events() == old(self).events(),
            pj@.name == name@,
            final(self).projects().live(pj@.id as int),
            pj@ == final(self).projects().at(pj@.id as int)@,
            same_lists(pj, final(self).projects().at(pj@.id as int)),
            old(self).projects().named(name@) ==> *final(self) == *old(self),
            !old(self).projects().named(name@) ==> {
                let n = old(self).projects()@.len() as usize;
                &&& pj@.id == n
                &&& final(self).projects()@ == old(self).projects()@.update(
                    0,
                    Some(
                        PjView {
                            chpj: old(self).projects().at(0)@.chpj.insert(n),
                            ..old(self).projects().at(0)@
                        },
                    ),
                ).push(Some(pj@))
                &&& final(self).changes().len() == old(self).changes().len() + 1
                &&& final(self).changes().last()@ == seq![DBLog::Pj(PjLog::Create { id: n })]
            },
    {
        match self.pj.find(name) {
            Some(id) => {
                proof {
                    assert(self.pj.record_ok(id as int));
                    assert(self.pj.named(name@));
                }
                self.pj.rec(id).copy()
            },
            None => {
                let ghost prev = *self;
                let fresh = Pj::new(name.to_string());
                let id = self.pj.vect.len();
                let r = self.pj.create(fresh);
                if let Ok(log) = r {
                    let mut group: Vec<DBLog> = Vec::new();
                    group.push(DBLog::Pj(log));
                    self.log.push(group);
                    proof {
                        assert(group@ =~= seq![DBLog::Pj(PjLog::Create { id })]);
                    }
                }
                proof {
                    self.pj.lemma_view();
                    prev.pj.lemma_view();
                    assert(self.pj@[id as int] is Some);
                    self.ev.lemma_relinked(&prev.pj, &self.pj);
                }
                self.pj.rec(id).copy()
            },
        }
    }

    /// A copy of the event named `name`.
    pub fn ev_get_by_name(&self, name: &str) -> (r: Option<Ev>)
        requires
            self.wf(),
        ensures
            r is Some <==> self.events().named(name@),
            r matches Some(e) ==> e@.name == name@ && self.events().live(e@.id as int) && e@
                == self.events().at(e@.id as int)@,
    {
        self.ev.get_by_name(name)
    }

    /// A copy of the project at the place `id`.
    pub fn pj_get_by_id(&self, id: usize) -> (r: Option<Pj>)
        ensures
            r is Some <==> self.projects().live(id as int),
            r matches Some(p) ==> p@ == self.projects().at(id as int)@ && same_lists(
                p,
                self.projects().at(id as int),
            ),
    {
        self.pj.get_by_id(id)
    }

    /// A copy of the event at the place `id`.
    pub fn ev_get_by_id(&self, id: usize) -> (r: Option<Ev>)
        ensures
            r is Some <==> self.events().live(id as int),
            r matches Some(e) ==> e@ == self.events().at(id as int)@,
    {
        self.ev.get_by_id(id)
    }

    /// Renames the project `id` and notes the change.
    pub fn pj_set_name(&mut self, id: usize, name: String) -> (r: Result<(), DBErr>)
        requires
            old(self).wf(),
        ensures
            final(self).wf(),
            final(self).zone() == old(self).zone(),
            final(self).events() == old(self).events(),
            r is Ok <==> old(self).projects().live(id as int) && id != 0 && (old(
                self,
            ).projects().named(name@) ==> old(self).projects().at(id as int).name@ == name@),
            r is Ok ==> {
                &&& final(self).projects()@ == old(self).projects()@.update(
                    id as int,
                    Some(PjView { name: name@, ..old(self).projects().at(id as int)@ }),
                )
                &&& final(self).changes().len() == old(self).changes().len() + 1
                &&& final(self).changes().last()@.len() == 1
                &&& final(self).changes().last()@[0] matches DBLog::Pj(PjLog::Name { id: i, old: o })
                &&& i == id
                &&& o@ == old(self).projects().at(id as int).name@
            },
            r matches Err(e) ==> {
                &&& *final(self) == *old(self)
                &&& e == DBErr::Pj(
                    if !old(self).projects().live(id as int) {
                        PjErr::InvalidProjectId
                    } else if old(self).projects().named(name@) && old(self).projects().at(
                        id as int,
                    ).name@ != name@ {
                        PjErr::NameNotDistinct
                    } else {
                        PjErr::NameOfRootCannotBeModified
                    },
                )
            },
    {
        let ghost prev = *self;
        match self.pj.update_name(id, name) {
            Ok(log) => {
                let mut group: Vec<DBLog> = Vec::new();
                group.push(DBLog::Pj(log));
                self.log.push(group);
                proof {
                    self.ev.lemma_relinked(&prev.pj, &self.pj);
                }
                Ok(())
            },
            Err(e) => Err(DBErr::Pj(e)),
        }
    }

    /// Renames the event `id` and notes the change.
    pub fn ev_set_name(&mut self, id: usize, name: String) -> (r: Result<(), DBErr>)
        requires
            old(self).wf(),
        ensures
            final(self).wf(),
            final(self).zone() == old(self).zone(),
            final(self).projects() == old(self).projects(),
            r is Ok <==> old(self).events().live(id as int) && !old(self).events().named(name@),
            r is Ok ==> {
                &&& final(self).events()@ == old(self).events()@.update(
                    id as int,
                    Some(crate::store::ev::EvView { name: name@, ..old(self).events().at(id as int)@ }),
                )
                &&& final(self).changes().len() == old(self).changes().len() + 1
                &&& final(self).changes().last()@.len() == 1
                &&& final(self).changes().last()@[0] matches DBLog::Ev(EvLog::Name { id: i, old: o })
                &&& i == id
                &&& o@ == old(self).events().at(id as int).name@
            },
            r matches Err(e) ==> {
                &&& *final(self) == *old(self)
                &&& e == DBErr::Ev(
                    if old(self).events().live(id as int) {
                        EvErr::NameClash
                    } else {
                        EvErr::InvalidEventId
                    },
                )
            },
    {
        match self.ev.update_name(id, name) {
            Ok(log) => {
                let mut group: Vec<DBLog> = Vec::new();
                group.push(DBLog::Ev(log));
                self.log.push(group);
                Ok(())
            },
            Err(e) => Err(DBErr::Ev(e)),
        }
    }

    /// Sets the time zone, in hours east of UTC.
    pub fn set_tz(&mut self, tz: i32)
        requires
            -12 <= tz <= 12,
        ensures
            final(self).zone() == tz,
            final(self).projects() == old(self).projects(),
            final(self).events() == old(self).events(),
            final(self).changes() == old(self).changes(),
    {
        self.tz = tz;
    }

    /// The time zone, in hours east of UTC.
    pub fn tz(&self) -> (tz: i32)
        ensures
            tz == self.zone(),
    {
        self.tz
    }

    /// The time `utc` in the time zone of the database, in seconds since
    /// 1970, or nothing where the local time leaves the range of 64 bits.
    /// The caller reads the clock and hands the time in.
    pub fn datetime_loc(&self, utc: i64) -> (now: Option<i64>)
        requires
            -12 <= self.zone() <= 12,
        ensures
            now == crate::util::local_of(utc, self.zone()),
    {
        crate::util::local_time(utc, self.tz)
    }
}

} // verus!
