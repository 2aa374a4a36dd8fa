//! The project tree with its scheduler.

use vstd::prelude::*;

pub mod auto_schedule;
pub mod event;
pub mod project;
pub mod quota;
pub mod subtree;
pub mod walks;

use crate::data::auto_schedule::DayPlanView;
use crate::store::ev::EvStore;
use crate::store::pj::PjStore;

verus! {

/// Where a project or an event stands: still to do, done, or given up.
#[derive(Debug, Clone, Copy, PartialEq, Eq, Structural)]
pub enum State {
    Todo,
    Done,
    Abort,
}

impl Default for State {
    fn default() -> (s: State)
        ensures
            s == State::Todo,
    {
        State::Todo
    }
}

/// A project as it is handed in and out: the values that a caller sets, and
/// those that the store keeps for it.
#[derive(Debug)]
pub struct Project {
    /// The place of the project; one beyond the store asks for a new
    /// project.
    pub id: usize,
    pub name: String,
    /// The most that a day may give to the project.
    pub limit: usize,
    /// The work done and the work estimated.
    pub quota: (usize, usize),
    pub deadline: Option<i64>,
    pub parent: usize,
    /// The children of its parent that the project depends on.
    pub dependencies: Vec<usize>,
    pub state: State,
    pub color: (u8, u8, u8),
    pub weight: usize,
    /// The projects directly below; kept by the store.
    pub children: Vec<usize>,
    /// The children of its parent that depend on the project; kept by the
    /// store.
    pub dependencies_reverse: Vec<usize>,
}

/// A project as a mathematical value.
pub ghost struct ProjectView {
    pub id: usize,
    pub name: Seq<char>,
    pub limit: usize,
    pub quota: (usize, usize),
    pub deadline: Option<i64>,
    pub parent: usize,
    pub dependencies: Seq<usize>,
    pub state: State,
    pub color: (u8, u8, u8),
    pub weight: usize,
    pub children: Seq<usize>,
    pub dependencies_reverse: Seq<usize>,
}

impl View for Project {
    type V = ProjectView;

    open spec fn view(&self) -> ProjectView {
        ProjectView {
            id: self.id,
            name: self.name@,
            limit: self.limit,
            quota: self.quota,
            deadline: self.deadline,
            parent: self.parent,
            dependencies: self.dependencies@,
            state: self.state,
            color: self.color,
            weight: self.weight,
            children: self.children@,
            dependencies_reverse: self.dependencies_reverse@,
        }
    }
}

impl Clone for Project {
    fn clone(&self) -> (p: Project)
        ensures
            p@ == self@,
    {
        Project {
            id: self.id,
            name: self.name.clone(),
            limit: self.limit,
            quota: self.quota,
            deadline: self.deadline,
            parent: self.parent,
            dependencies: crate::idset::copy(&self.dependencies),
            state: self.state,
            color: self.color,
            weight: self.weight,
            children: crate::idset::copy(&self.children),
            dependencies_reverse: crate::idset::copy(&self.dependencies_reverse),
        }
    }
}

/// An event as it is handed in and out.
#[derive(Clone, Debug)]
pub struct Event {
    /// The place of the event; one beyond the store asks for a new event.
    pub id: usize,
    pub name: String,
    pub time: i64,
    pub state: State,
    pub quota: usize,
}

/// An event as a mathematical value.
pub ghost struct EventView {
    pub id: usize,
    pub name: Seq<char>,
    pub time: i64,
    pub state: State,
    pub quota: usize,
}

impl View for Event {
    type V = EventView;

    open spec fn view(&self) -> EventView {
        EventView {
            id: self.id,
            name: self.name@,
            time: self.time,
            state: self.state,
            quota: self.quota,
        }
    }
}

/// What a change made through `Data` was: the record before and after.
#[derive(Clone, Debug)]
pub enum LogItem {
    ProjectMajorUpdate(Project, Project),
    ProjectMinorUpdate(Project, Project),
    ProjectInsert(Project),
    EventItemInsert(Event),
    EventItemUpdate(Event, Event),
}

/// Why `Data` refused a request.
#[derive(Debug, Clone, Copy)]
pub enum DataError {
    IndexError(&'static str),
    InvalidId,
    InvalidStateChange,
    InvalidQuotaChange(&'static str),
    InvalidNewProject(&'static str),
    NoSuchProject,
}

/// The projects and events of one user behind one door: records are handed
/// in whole, and the plan of the days to come is made from them.
#[derive(Clone)]
pub struct Data {
    /// The time zone, in hours east of UTC.
    pub tz: i64,
    pub(crate) pj: PjStore,
    pub(crate) ev: EvStore,
    pub(crate) log: Vec<LogItem>,
}

impl Data {
    /// The project store.
    pub open(crate) spec fn projects(&self) -> PjStore {
        self.pj
    }

    /// The event store.
    pub open(crate) spec fn events(&self) -> EvStore {
        self.ev
    }

    /// The time zone, in hours east of UTC.
    pub open(crate) spec fn zone(&self) -> i64 {
        self.tz
    }

    /// The changes made so far.
    pub open(crate) spec fn changes(&self) -> Seq<LogItem> {
        self.log@
    }

    /// The two stores are in order and agree on the events of each project,
    /// and no place of either is empty: `Data` deletes nothing.
    pub open(crate) spec fn wf(&self) -> bool {
        &&& self.pj.wf()
        &&& self.ev.wf()
        &&& self.ev.linked(&self.pj)
        &&& forall|i: int| 0 <= i < self.pj.vect@.len() ==> #[trigger] self.pj.live(i)
        &&& forall|i: int| 0 <= i < self.ev.vect@.len() ==> #[trigger] self.ev.live(i)
    }

    /// The data of a user who has nothing yet but the root project.
    pub fn new(tz: i64) -> (data: Data)
        ensures
            data.wf(),
            data.zone() == tz,
            data.projects()@.len() == 1,
            data.projects().live(0),
            data.projects().at(0)@ == crate::store::pj::fresh_view("root"@),
            data.projects().bare(0),
            data.projects().dated().len() == 0,
            data.events()@.len() == 0,
            data.changes().len() == 0,
            data.schedulable(),
            forall|day: int| #[trigger] data.plan(day) == Seq::<DayPlanView>::empty(),
    {
        let data = Data { tz, pj: PjStore::new(), ev: EvStore::new(), log: Vec::new() };
        proof {
            assert forall|p: int, e: usize|
                data.pj.live(p) && #[trigger] data.pj.at(p).chev@.contains(e) implies false by {
                assert(p == 0);
            }
            let rest = data.initial_rest();
            assert(data.open_upto(rest, 0, 0) == 0);
            assert(data.open_below(rest, 0) == rest[0] + data.open_upto(rest, 0, 0));
            assert(rest[0] == 0);
        }
        data
    }

    /// No place of either store is empty.
    pub open(crate) spec fn dense(pj: &PjStore, ev: &EvStore) -> bool {
        &&& forall|i: int| 0 <= i < pj.vect@.len() ==> #[trigger] pj.live(i)
        &&& forall|i: int| 0 <= i < ev.vect@.len() ==> #[trigger] ev.live(i)
    }

    /// The data of a user from the two stores, where they agree on the
    /// events of each project and no place of either is empty; the record of
    /// changes is empty.
    pub fn from_parts(tz: i64, pj: PjStore, ev: EvStore) -> (r: Option<Data>)
        requires
            pj.wf(),
            ev.wf(),
        ensures
            r is Some <==> ev.linked(&pj) && Self::dense(&pj, &ev),
            r matches Some(data) ==> {
                &&& data.wf()
                &&& data.zone() == tz
                &&& data.projects() == pj
                &&& data.events() == ev
                &&& data.changes().len() == 0
            },
    {
        if !ev.is_linked(&pj) {
            return None;
        }
        let mut i: usize = 0;
        while i < pj.len()
            invariant
                i <= pj.vect@.len(),
                forall|x: int| 0 <= x < i ==> #[trigger] pj.live(x),
            decreases pj.vect@.len() - i,
        {
            if !pj.has(i) {
                return None;
            }
            i += 1;
        }
        let mut i: usize = 0;
        while i < ev.len()
            invariant
                i <= ev.vect@.len(),
                forall|x: int| 0 <= x < i ==> #[trigger] ev.live(x),
                forall|x: int| 0 <= x < pj.vect@.len() ==> #[trigger] pj.live(x),
            decreases ev.vect@.len() - i,
        {
            if !ev.has(i) {
                return None;
            }
            i += 1;
        }
        Some(Data { tz, pj, ev, log: Vec::new() })
    }
}

} // verus!
