use vstd::prelude::*;
use crate::data::{Data, DataError, LogItem, Project, ProjectView, State};
use crate::idset;
use crate::index::ids_between;
use crate::store::pj::{Pj, PjStore, PjView, WeightType};
use crate::store::revise::Values;

verus! {

/// The project `pj` of the store as it is handed out.
pub open spec fn project_view(pj: Pj) -> ProjectView {
    ProjectView {
        id: pj.id,
        name: pj.name@,
        limit: pj.limit,
        quota: (pj.quota_done, pj.quota_esti),
        deadline: pj.deadline,
        parent: pj.pp,
        dependencies: pj.deps@,
        state: pj.state,
        color: pj.color,
        weight: pj.weight,
        children: pj.chpj@,
        dependencies_reverse: pj.deps_rvs@,
    }
}

/// The record that the store takes for the new project `p`, before it gets
/// its place and its dependencies.
pub open spec fn fresh_record(p: Project) -> PjView {
    PjView {
        id: 0,
        pp: p.parent,
        color: p.color,
        chpj: Set::empty(),
        chev: Set::empty(),
        name: p.name@,
        deps: Set::empty(),
        deps_rvs: Set::empty(),
        deadline: p.deadline,
        quota_done: p.quota.0,
        quota_esti: p.quota.1,
        weight: p.weight,
        weight_type: WeightType::Permanent,
        state: p.state,
        limit: p.limit,
    }
}

/// Hands out the project `pj` of the store.
pub(crate) fn to_project(pj: &Pj) -> (p: Project)
    ensures
        p@ == project_view(*pj),
{
    Project {
        id: pj.id,
        name: pj.name.clone(),
        limit: pj.limit,
        quota: (pj.quota_done, pj.quota_esti),
        deadline: pj.deadline,
        parent: pj.pp,
        dependencies: idset::copy(&pj.deps),
        state: pj.state,
        color: pj.color,
        weight: pj.weight,
        children: idset::copy(&pj.chpj),
        dependencies_reverse: idset::copy(&pj.deps_rvs),
    }
}

/// The projects among the first `m` of `store`, but `id` itself, that stand
/// below the project `id` and are still to do, in the order of their ids.
pub open spec fn followers_upto(store: PjStore, id: int, m: int) -> Seq<usize>
    decreases m,
{
    if m <= 0 {
        Seq::empty()
    } else if m - 1 != id && store.marked(id, m - 1) {
        followers_upto(store, id, m - 1).push((m - 1) as usize)
    } else {
        followers_upto(store, id, m - 1)
    }
}

/// The ids of the projects that the entries of `items` speak of.
pub open spec fn noted_ids(items: Seq<LogItem>) -> Seq<usize> {
    Seq::new(
        items.len(),
        |k: int|
            match items[k] {
                LogItem::ProjectMinorUpdate(_, d) => d.id,
                LogItem::ProjectMajorUpdate(_, d) => d.id,
                LogItem::ProjectInsert(d) => d.id,
                LogItem::EventItemInsert(d) => d.id,
                LogItem::EventItemUpdate(_, d) => d.id,
            },
    )
}

impl Project {
    /// The work still open on the project: what is estimated and not done.
    pub fn need_quota(&self) -> (need: usize)
        requires
            self.quota.0 <= self.quota.1,
        ensures
            need == self.quota.1 - self.quota.0,
    {
        self.quota.1 - self.quota.0
    }

    /// A project named `name` that asks for a new place under the root:
    /// nothing done, nothing estimated, no weight, no deadline, no limit for a
    /// day.
    pub fn new(name: String) -> (p: Project)
        ensures
            p@ == (ProjectView {
                id: usize::MAX,
                name: name@,
                limit: usize::MAX,
                quota: (0, 0),
                deadline: None,
                parent: 0,
                dependencies: Seq::empty(),
                state: State::Todo,
                color: (0u8, 0u8, 0u8),
                weight: 0,
                children: Seq::empty(),
                dependencies_reverse: Seq::empty(),
            }),
    {
        let p = Project {
            id: usize::MAX,
            name,
            limit: usize::MAX,
            quota: (0, 0),
            deadline: None,
            parent: 0,
            dependencies: Vec::new(),
            state: State::Todo,
            color: (0, 0, 0),
            weight: 0,
            children: Vec::new(),
            dependencies_reverse: Vec::new(),
        };
        assert(p.dependencies@ =~= Seq::<usize>::empty());
        assert(p.children@ =~= Seq::<usize>::empty());
        assert(p.dependencies_reverse@ =~= Seq::<usize>::empty());
        p
    }

    pub fn id(&self) -> (id: usize)
        ensures
            id == self.id,
    {
        self.id
    }
}

impl Data {
    /// A copy of the project at the place `id`.
    pub fn get_project_by_id(&self, id: usize) -> (r: Result<Project, DataError>)
        ensures
            r is Ok <==> self.projects().live(id as int),
            r matches Ok(p) ==> p@ == project_view(self.projects().at(id as int)),
            r matches Err(e) ==> e is NoSuchProject,
    {
        if self.pj.has(id) {
            Ok(to_project(self.pj.rec(id)))
        } else {
            Err(DataError::NoSuchProject)
        }
    }

    /// A copy of the project named `name`.
    pub fn get_project_by_name(&self, name: &str) -> (r: Result<Project, DataError>)
        requires
            self.wf(),
        ensures
            r is Ok <==> self.projects().named(name@),
            r matches Ok(p) ==> p@.name == name@ && self.projects().live(p@.id as int) && p@
                == project_view(self.projects().at(p@.id as int)),
            r matches Err(e) ==> e is NoSuchProject,
    {
        match self.pj.find(name) {
            Some(id) => {
                proof {
                    assert(self.pj.record_ok(id as int));
                    assert(self.pj.named(name@));
                }
                Ok(to_project(self.pj.rec(id)))
            },
            None => Err(DataError::NoSuchProject),
        }
    }

    /// The ids of the projects with a deadline from `time_range.0` up to,
    /// but not at, `time_range.1`, in order of their deadlines.
    pub fn get_project_by_time_range(&self, time_range: (i64, i64)) -> (ids: Vec<usize>)
        requires
            self.wf(),
        ensures
            ids@ == self.deadlines_between(time_range.0 as int, time_range.1 as int),
            forall|k: int|
                0 <= k < ids@.len() ==> self.projects().live(#[trigger] ids@[k] as int) && (
                self.projects().at(ids@[k] as int).deadline matches Some(t) && time_range.0 <= t
                    < time_range.1),
    {
        let ids = self.pj.time.range(time_range.0, Some(time_range.1));
        proof {
            assert forall|k: int| 0 <= k < ids@.len() implies self.pj.live(
                #[trigger] ids@[k] as int,
            ) && (self.pj.at(ids@[k] as int).deadline matches Some(t) && time_range.0 <= t
                < time_range.1) by {
                crate::index::lemma_ids_between_from(
                    self.pj.time@,
                    time_range.0 as int,
                    time_range.1 as int,
                    k,
                );
                let m = choose|m: int|
                    0 <= m < self.pj.time@.len() && (#[trigger] self.pj.time@[m]).1 == ids@[k]
                        && time_range.0 <= self.pj.time@[m].0 < time_range.1;
                assert(self.pj.time.has(self.pj.time@[m].0, self.pj.time@[m].1));
            }
        }
        ids
    }

    /// The ids of the projects with a deadline in `lo <= t < hi`, in order
    /// of their deadlines and, among equal deadlines, of their ids.
    pub open(crate) spec fn deadlines_between(&self, lo: int, hi: int) -> Seq<usize> {
        ids_between(self.pj.time@, lo, hi)
    }

    /// Those of `deps` that the project `id` under `parent` can depend on:
    /// the children of `parent`, and itself where it is a project already.
    pub open(crate) spec fn siblings_among(&self, id: int, parent: int, deps: Seq<usize>) -> Set<
        usize,
    > {
        self.pj.siblings_among(id, parent, deps)
    }

    /// Why the new project `p` is refused, where it is.
    pub open(crate) spec fn insert_refusal(&self, p: Project) -> Option<DataError> {
        if !self.pj.live(p.parent as int) {
            Some(DataError::InvalidId)
        } else if p.state != State::Todo {
            Some(DataError::InvalidNewProject("creating a project which is not \"todo\""))
        } else if self.pj.named(p.name@) {
            Some(DataError::IndexError("project name is not unique"))
        } else if p.quota.0 > p.quota.1 {
            Some(DataError::InvalidQuotaChange("allocated quota exceeds the estimate"))
        } else {
            None
        }
    }

    /// The project store after the new project `p` was taken in: `p` stands
    /// at the next free place, among the children of its parent, and depends
    /// on those of the projects it names that are its siblings.
    pub open(crate) spec fn after_insert(&self, p: Project) -> Seq<Option<PjView>> {
        let n = self.pj@.len() as int;
        let deps = self.siblings_among(n, p.parent as int, p.dependencies@);
        Seq::new(
            (n + 1) as nat,
            |i: int|
                if i == n {
                    Some(PjView { id: n as usize, deps, ..fresh_record(p) })
                } else if !self.pj.live(i) {
                    None
                } else {
                    Some(
                        PjView {
                            chpj: if i == p.parent {
                                self.pj.at(i)@.chpj.insert(n as usize)
                            } else {
                                self.pj.at(i)@.chpj
                            },
                            deps_rvs: if deps.contains(i as usize) {
                                self.pj.at(i)@.deps_rvs.insert(n as usize)
                            } else {
                                self.pj.at(i)@.deps_rvs
                            },
                            ..self.pj.at(i)@
                        },
                    )
                },
        )
    }

    /// Takes in the new project `p`.
    fn insert_project(&mut self, p: Project) -> (r: Result<(), DataError>)
        requires
            old(self).wf(),
            p.id >= old(self).pj.vect@.len(),
        ensures
            final(self).wf(),
            final(self).ev == old(self).ev,
            final(self).tz == old(self).tz,
            r is Ok <==> old(self).insert_refusal(p) is None,
            r is Ok ==> {
                let n = old(self).pj@.len() as int;
                &&& final(self).pj@ == old(self).after_insert(p)
                &&& final(self).log@.len() == old(self).log@.len() + 1
                &&& final(self).log@.subrange(0, old(self).log@.len() as int) == old(self).log@
                &&& final(self).log@.last() matches LogItem::ProjectInsert(x)
                &&& x@ == project_view(final(self).pj.at(n))
            },
            r matches Err(e) ==> *final(self) == *old(self) && Some(e) == old(self).insert_refusal(
                p,
            ),
    {
        if !self.pj.has(p.parent) {
            return Err(DataError::InvalidId);
        }
        match p.state {
            State::Todo => {},
            _ => {
                return Err(DataError::InvalidNewProject("creating a project which is not \"todo\""));
            },
        }
        let taken = self.pj.find(p.name.as_str());
        proof {
            if taken is Some {
                assert(self.pj.at(taken->0 as int).name@ == p.name@);
                assert(self.pj.named(p.name@));
            }
        }
        if taken.is_some() {
            return Err(DataError::IndexError("project name is not unique"));
        }
        if p.quota.0 > p.quota.1 {
            return Err(DataError::InvalidQuotaChange("allocated quota exceeds the estimate"));
        }
        let ghost prev = *self;
        let id = self.pj.vect.len();
        let pj = Pj {
            id,
            pp: p.parent,
            color: p.color,
            chpj: Vec::new(),
            chev: Vec::new(),
            name: p.name,
            deps: Vec::new(),
            deps_rvs: Vec::new(),
            deadline: p.deadline,
            quota_done: p.quota.0,
            quota_esti: p.quota.1,
            weight: p.weight,
            weight_type: WeightType::Permanent,
            state: p.state,
            limit: p.limit,
        };
        proof {
            assert(pj.chpj@.to_set() =~= Set::<usize>::empty());
            assert(pj.chev@.to_set() =~= Set::<usize>::empty());
            assert(pj.deps@.to_set() =~= Set::<usize>::empty());
            assert(pj.deps_rvs@.to_set() =~= Set::<usize>::empty());
            assert(pj@ == (PjView { id, ..fresh_record(p) }));
        }
        let _ = self.pj.create(pj);
        let ghost mid = self.pj;
        proof {
            mid.lemma_view();
            prev.pj.lemma_view();
            assert(mid@[id as int] is Some);
            assert(mid.live(id as int));
        }
        self.pj.set_deps(id, &p.dependencies, false);
        proof {
            assert(self.pj.at(id as int).pp == mid.at(id as int).pp);
        }
        self.log.push(LogItem::ProjectInsert(to_project(self.pj.rec(id))));
        proof {
            self.pj.lemma_view();
            let goal = prev.after_insert(p);
            let want = prev.siblings_among(id as int, p.parent as int, p.dependencies@);
            let got = mid.peers_among(id as int, p.dependencies@, false);
            assert(mid@[p.parent as int] == Some(mid.at(p.parent as int)@));
            assert(mid@[id as int] == Some(mid.at(id as int)@));
            assert(prev.pj@[p.parent as int] == Some(prev.pj.at(p.parent as int)@));
            assert(got =~= want) by {
                assert forall|d: usize| got.contains(d) <==> want.contains(d) by {
                    assert(mid.at(p.parent as int)@.chpj.contains(d) <==> mid.at(
                        p.parent as int,
                    ).chpj@.contains(d));
                    assert(prev.pj.at(p.parent as int)@.chpj.contains(d) <==> prev.pj.at(
                        p.parent as int,
                    ).chpj@.contains(d));
                }
            }
            assert forall|i: int| 0 <= i < goal.len() implies self.pj@[i] == goal[i] by {
                if i < id {
                    assert(mid@[i] is Some <==> prev.pj@[i] is Some);
                    if prev.pj.live(i) {
                        assert(prev.pj@[i] == Some(prev.pj.at(i)@));
                        assert(mid@[i] == Some(mid.at(i)@));
                        assert(prev.pj.record_ok(i));
                        if prev.pj.at(i).deps_rvs@.contains(id) {
                            let m = choose|m: int|
                                0 <= m < prev.pj.at(i).deps_rvs@.len() && prev.pj.at(
                                    i,
                                ).deps_rvs@[m] == id;
                            assert(prev.pj.live(prev.pj.at(i).deps_rvs@[m] as int));
                        }
                        assert(mid.at(i)@.deps_rvs.remove(id) =~= mid.at(i)@.deps_rvs);
                    }
                } else {
                    assert(!got.contains(id));
                    assert(mid.at(i)@.deps_rvs.remove(id) =~= mid.at(i)@.deps_rvs);
                }
            }
            assert(self.pj@ =~= goal);
            self.ev.lemma_relinked(&prev.pj, &self.pj);
            assert forall|i: int| 0 <= i < self.pj.vect@.len() implies #[trigger] self.pj.live(
                i,
            ) by {
                assert(self.pj@[i] is Some);
            }
            assert(self.log@.subrange(0, prev.log@.len() as int) =~= prev.log@);
        }
        Ok(())
    }

    /// Why the change `p` to a project of the store is refused, where it is.
    pub open(crate) spec fn update_refusal(&self, p: Project) -> Option<DataError> {
        let id = p.id as int;
        let was = self.pj.at(id);
        if !self.pj.live(p.parent as int) {
            Some(DataError::InvalidId)
        } else if was.name@ != p.name@ && (id == 0 || self.pj.named(p.name@)) {
            Some(DataError::IndexError("project name is not unique"))
        } else if was.state != State::Todo && was.state != p.state {
            Some(DataError::InvalidStateChange)
        } else if was.quota_done > p.quota.0 {
            Some(DataError::InvalidQuotaChange("allocated quota should only increase"))
        } else if p.quota.0 > p.quota.1 {
            Some(DataError::InvalidQuotaChange("allocated quota exceeds the estimate"))
        } else if was.pp != p.parent && (was.deps@.len() != 0 || was.deps_rvs@.len() != 0) {
            Some(DataError::IndexError("project with dependencies cannot move"))
        } else if was.pp != p.parent && (id == 0 || self.pj.above(id, p.parent as int)) {
            Some(DataError::InvalidId)
        } else {
            None
        }
    }

    /// The project store after the change `p` to the project `p.id`. The
    /// project takes the values of `p`, moves under the parent that `p` names,
    /// and depends on those of the projects `p` names that are children of
    /// that parent, itself among them. Where it leaves `Todo`, the projects below it that are still to
    /// do leave with it. Its children, its events and the projects that depend
    /// on it are those it had.
    pub open(crate) spec fn after_update(&self, p: Project) -> Seq<Option<PjView>> {
        let id = p.id as int;
        let was = self.pj.at(id);
        let moved = was.pp != p.parent;
        let turned = was.state != p.state;
        let deps = self.siblings_among(id, p.parent as int, p.dependencies@);
        Seq::new(
            self.pj@.len(),
            |i: int|
                if !self.pj.live(i) {
                    None
                } else if i == id {
                    Some(
                        PjView {
                            pp: p.parent,
                            color: p.color,
                            name: p.name@,
                            deps,
                            deadline: p.deadline,
                            quota_done: p.quota.0,
                            quota_esti: p.quota.1,
                            weight: p.weight,
                            state: p.state,
                            limit: p.limit,
                            deps_rvs: if deps.contains(p.id) {
                                was@.deps_rvs.insert(p.id)
                            } else {
                                was@.deps_rvs.remove(p.id)
                            },
                            ..was@
                        },
                    )
                } else {
                    let v = self.pj.at(i)@;
                    Some(
                        PjView {
                            chpj: if moved && i == was.pp {
                                v.chpj.remove(p.id)
                            } else if moved && i == p.parent {
                                v.chpj.insert(p.id)
                            } else {
                                v.chpj
                            },
                            deps_rvs: if deps.contains(i as usize) {
                                v.deps_rvs.insert(p.id)
                            } else {
                                v.deps_rvs.remove(p.id)
                            },
                            state: if turned && self.pj.marked(id, i) {
                                p.state
                            } else {
                                v.state
                            },
                            ..v
                        },
                    )
                },
        )
    }

    /// Tells why the change `p` is refused, where it is.
    fn update_check(&self, p: &Project) -> (r: Option<DataError>)
        requires
            self.wf(),
            p.id < self.pj.vect@.len(),
        ensures
            r == self.update_refusal(*p),
    {
        let id = p.id;
        if !self.pj.has(p.parent) {
            return Some(DataError::InvalidId);
        }
        proof {
            assert(self.pj.live(id as int));
            assert(self.pj.record_ok(id as int));
        }
        let was = self.pj.rec(id);
        if !(was.name == p.name) {
            let taken = self.pj.find(p.name.as_str());
            proof {
                if taken is Some {
                    assert(self.pj.at(taken->0 as int).name@ == p.name@);
                    assert(self.pj.named(p.name@));
                }
            }
            if id == 0 || taken.is_some() {
                return Some(DataError::IndexError("project name is not unique"));
            }
        }
        if was.state != State::Todo && was.state != p.state {
            return Some(DataError::InvalidStateChange);
        }
        if was.quota_done > p.quota.0 {
            return Some(DataError::InvalidQuotaChange("allocated quota should only increase"));
        }
        if p.quota.0 > p.quota.1 {
            return Some(DataError::InvalidQuotaChange("allocated quota exceeds the estimate"));
        }
        if was.pp != p.parent {
            if was.deps.len() != 0 || was.deps_rvs.len() != 0 {
                return Some(DataError::IndexError("project with dependencies cannot move"));
            }
            if id == 0 || self.pj.is_above(id, p.parent) {
                return Some(DataError::InvalidId);
            }
        }
        None
    }

    /// Which projects are still to do.
    fn todo_flags(&self) -> (flags: Vec<bool>)
        requires
            self.wf(),
        ensures
            flags@.len() == self.pj.vect@.len(),
            forall|j: int|
                0 <= j < flags@.len() ==> flags@[j] == (self.pj.at(j).state == State::Todo),
    {
        let mut flags: Vec<bool> = Vec::new();
        let mut i: usize = 0;
        while i < self.pj.vect.len()
            invariant
                i <= self.pj.vect@.len(),
                self.wf(),
                flags@.len() == i,
                forall|j: int| 0 <= j < i ==> flags@[j] == (self.pj.at(j).state == State::Todo),
            decreases self.pj.vect@.len() - i,
        {
            assert(self.pj.live(i as int));
            flags.push(self.pj.rec(i).state == State::Todo);
            i += 1;
        }
        flags
    }

    /// The two stages of a change give what `after_update` says.
    proof fn lemma_after_update(&self, mid: &PjStore, last: &PjStore, p: Project, v: Values)
        requires
            self.wf(),
            self.pj.live(p.id as int),
            self.pj.live(p.parent as int),
            v.name@ == p.name@,
            v.quota == p.quota,
            v.weight == p.weight,
            v.color == p.color,
            v.limit == p.limit,
            v.deadline == p.deadline,
            v.state == p.state,
            mid@ == self.pj.with_values(p.id as int, v),
            mid.live(p.id as int),
            mid.live(p.parent as int),
            last@ == mid.with_links(
                p.id as int,
                p.parent,
                mid.siblings_among(p.id as int, p.parent as int, p.dependencies@),
            ),
            self.pj.vect@.len() <= usize::MAX,
        ensures
            last@ == self.after_update(p),
    {
        let goal = self.after_update(p);
        let s0 = self.pj;
        s0.lemma_view();
        mid.lemma_view();
        let id = p.id as int;
        let parent = p.parent as int;
        assert(mid@[parent] == Some(mid.at(parent)@));
        assert(s0@[parent] == Some(s0.at(parent)@));
        assert(mid@[id] == Some(mid.at(id)@));
        assert(s0@[id] == Some(s0.at(id)@));
        let want = s0.siblings_among(id, parent, p.dependencies@);
        let got = mid.siblings_among(id, parent, p.dependencies@);
        assert(got =~= want) by {
            assert forall|d: usize| got.contains(d) <==> want.contains(d) by {
                assert(mid.at(parent)@.chpj.contains(d) <==> mid.at(parent).chpj@.contains(d));
                assert(s0.at(parent)@.chpj.contains(d) <==> s0.at(parent).chpj@.contains(d));
            }
        }
        assert forall|i: int| 0 <= i < last@.len() implies last@[i] == goal[i] by {
            assert(mid@[i] is Some <==> s0@[i] is Some);
            assert(mid.live(i) <==> s0.live(i));
            if s0.live(i) {
                assert(s0@[i] == Some(s0.at(i)@));
                assert(mid@[i] == Some(mid.at(i)@));
                assert(i as usize == i);
            }
        }
        assert(last@ =~= goal);
    }

    /// The projects that leave `Todo` with the project `p.id` where the
    /// change `p` makes it leave, in the order of their ids; none where it
    /// stays.
    pub open(crate) spec fn followers(&self, p: Project) -> Seq<usize> {
        if self.pj.at(p.id as int).state != p.state {
            followers_upto(self.pj, p.id as int, self.pj@.len() as int)
        } else {
            Seq::empty()
        }
    }

    /// Notes the projects that left `Todo` with the project `id`.
    fn log_followers(
        &mut self,
        id: usize,
        was_todo: &Vec<bool>,
        Ghost(s0): Ghost<PjStore>,
        Ghost(turned): Ghost<bool>,
    )
        requires
            old(self).pj.vect@.len() == was_todo@.len(),
            s0.vect@.len() == was_todo@.len(),
            forall|j: int|
                0 <= j < was_todo@.len() ==> was_todo@[j] == (s0.at(j).state == State::Todo),
            forall|j: int| 0 <= j < was_todo@.len() ==> #[trigger] old(self).pj.live(j),
            forall|j: int|
                0 <= j < was_todo@.len() ==> (#[trigger] old(self).pj.at(j)).id == j && ((
                was_todo@[j] && old(self).pj.at(j).state != State::Todo) <==> (turned && s0.marked(
                    id as int,
                    j,
                ))),
        ensures
            final(self).pj == old(self).pj,
            final(self).ev == old(self).ev,
            final(self).tz == old(self).tz,
            final(self).log@.len() >= old(self).log@.len(),
            final(self).log@.subrange(0, old(self).log@.len() as int) == old(self).log@,
            noted_ids(
                final(self).log@.subrange(
                    old(self).log@.len() as int,
                    final(self).log@.len() as int,
                ),
            ) == if turned {
                followers_upto(s0, id as int, was_todo@.len() as int)
            } else {
                Seq::<usize>::empty()
            },
            forall|k: int|
                old(self).log@.len() <= k < final(self).log@.len() ==> {
                    &&& #[trigger] final(self).log@[k] matches LogItem::ProjectMinorUpdate(c, d)
                    &&& c@ == (ProjectView { state: State::Todo, ..d@ })
                    &&& d@.id != id
                    &&& s0.marked(id as int, d@.id as int)
                    &&& d@ == project_view(final(self).pj.at(d@.id as int))
                },
    {
        let ghost base = self.log@;
        let ghost store = self.pj;
        let n = was_todo.len();
        let mut i: usize = 0;
        proof {
            assert(noted_ids(self.log@.subrange(base.len() as int, self.log@.len() as int))
                =~= Seq::<usize>::empty());
        }
        while i < n
            invariant
                i <= n,
                n == was_todo@.len(),
                n == store.vect@.len(),
                self.pj == store,
                self.ev == old(self).ev,
                self.tz == old(self).tz,
                forall|j: int| 0 <= j < n ==> #[trigger] store.live(j),
                forall|j: int|
                    0 <= j < n ==> (#[trigger] store.at(j)).id == j && ((was_todo@[j] && store.at(
                        j,
                    ).state != State::Todo) <==> (turned && s0.marked(id as int, j))),
                self.log@.len() >= base.len(),
                self.log@.subrange(0, base.len() as int) == base,
                noted_ids(self.log@.subrange(base.len() as int, self.log@.len() as int)) == if turned {
                    followers_upto(s0, id as int, i as int)
                } else {
                    Seq::<usize>::empty()
                },
                forall|k: int|
                    base.len() <= k < self.log@.len() ==> {
                        &&& #[trigger] self.log@[k] matches LogItem::ProjectMinorUpdate(c, d)
                        &&& c@ == (ProjectView { state: State::Todo, ..d@ })
                        &&& d@.id != id
                        &&& s0.marked(id as int, d@.id as int)
                        &&& d@ == project_view(store.at(d@.id as int))
                    },
            decreases n - i,
        {
            assert(store.live(i as int));
            assert(store.at(i as int).id == i);
            if i != id && was_todo[i] && self.pj.rec(i).state != State::Todo {
                let after = to_project(self.pj.rec(i));
                let mut earlier = to_project(self.pj.rec(i));
                earlier.state = State::Todo;
                let ghost older = self.log@;
                self.log.push(LogItem::ProjectMinorUpdate(earlier, after));
                proof {
                    assert(self.log@.subrange(0, base.len() as int) =~= older.subrange(
                        0,
                        base.len() as int,
                    ));
                    assert forall|k: int| base.len() <= k < self.log@.len() implies {
                        &&& #[trigger] self.log@[k] matches LogItem::ProjectMinorUpdate(c, d)
                        &&& c@ == (ProjectView { state: State::Todo, ..d@ })
                        &&& d@.id != id
                        &&& s0.marked(id as int, d@.id as int)
                        &&& d@ == project_view(store.at(d@.id as int))
                    } by {
                        if k < older.len() {
                            assert(self.log@[k] == older[k]);
                        }
                    }
                    let was = older.subrange(base.len() as int, older.len() as int);
                    let now = self.log@.subrange(base.len() as int, self.log@.len() as int);
                    assert(now =~= was.push(self.log@[older.len() as int]));
                    assert(noted_ids(now) =~= noted_ids(was).push(i));
                }
            }
            i += 1;
        }
    }

    /// Changes the project `p.id` of the store to what `p` says.
    fn update_project(&mut self, p: Project) -> (r: Result<(), DataError>)
        requires
            old(self).wf(),
            p.id < old(self).pj.vect@.len(),
        ensures
            final(self).wf(),
            final(self).ev == old(self).ev,
            final(self).tz == old(self).tz,
            r is Ok <==> old(self).update_refusal(p) is None,
            r is Ok ==> {
                let n = old(self).log@.len() as int;
                &&& final(self).pj@ == old(self).after_update(p)
                &&& final(self).log@.len() > n
                &&& final(self).log@.subrange(0, n) == old(self).log@
                &&& final(self).log@[n] matches LogItem::ProjectMajorUpdate(a, b)
                &&& a@ == project_view(old(self).pj.at(p.id as int))
                &&& b@ == project_view(final(self).pj.at(p.id as int))
                &&& noted_ids(final(self).log@.subrange(n + 1, final(self).log@.len() as int))
                    == old(self).followers(p)
                &&& forall|k: int|
                    n < k < final(self).log@.len() ==> {
                        &&& #[trigger] final(self).log@[k] matches LogItem::ProjectMinorUpdate(c, d)
                        &&& c@ == (ProjectView { state: State::Todo, ..d@ })
                        &&& d@.id != p.id
                        &&& old(self).pj.marked(p.id as int, d@.id as int)
                        &&& d@ == project_view(final(self).pj.at(d@.id as int))
                    }
            },
            r matches Err(e) ==> *final(self) == *old(self) && Some(e) == old(self).update_refusal(
                p,
            ),
    {
        if let Some(e) = self.update_check(&p) {
            return Err(e);
        }
        let id = p.id;
        let ghost prev = *self;
        let ghost s0 = self.pj;
        let n = self.pj.vect.len();
        proof {
            assert(s0.live(id as int));
            assert(s0.record_ok(id as int));
        }
        let before = to_project(self.pj.rec(id));
        let was_todo = self.todo_flags();
        let ghost given = p;
        let ghost turned = s0.at(id as int).state != p.state;
        let v = Values {
            name: p.name,
            quota: p.quota,
            weight: p.weight,
            color: p.color,
            limit: p.limit,
            deadline: p.deadline,
            state: p.state,
        };
        self.pj.set_values(id, v);
        let ghost s4 = self.pj;
        proof {
            s0.lemma_view();
            s4.lemma_view();
            assert forall|j: int| #![trigger s4@[j]] 0 <= j < s4@.len() implies (s4@[j] is Some
                <==> s0@[j] is Some) && (s4@[j] is Some ==> s4@[j]->0.pp == s0@[j]->0.pp) by {
                if s0.live(j) {
                    assert(s0@[j] == Some(s0.at(j)@));
                }
            }
            s4.lemma_above_same(&s0, id as int, given.parent as int);
            assert(s4@[id as int] is Some);
            assert(s4@[given.parent as int] is Some);
            assert(s4@[id as int] == Some(s4.at(id as int)@));
            assert(s0@[id as int] == Some(s0.at(id as int)@));
            if s0.at(id as int).pp != given.parent {
                assert(s4.at(id as int).deps@.len() == 0) by {
                    if s4.at(id as int).deps@.len() > 0 {
                        let d = s4.at(id as int).deps@[0];
                        assert(s4.at(id as int).deps@.contains(d));
                        assert(s0.at(id as int)@.deps.contains(d));
                        assert(s0.at(id as int).deps@.contains(d));
                    }
                }
                assert(s4.at(id as int).deps_rvs@.len() == 0) by {
                    if s4.at(id as int).deps_rvs@.len() > 0 {
                        let d = s4.at(id as int).deps_rvs@[0];
                        assert(s4.at(id as int).deps_rvs@.contains(d));
                        assert(s0.at(id as int)@.deps_rvs.contains(d));
                        assert(s0.at(id as int).deps_rvs@.contains(d));
                    }
                }
            }
        }
        self.pj.set_links(id, p.parent, &p.dependencies);
        proof {
            let s6 = self.pj;
            s6.lemma_view();
            prev.lemma_after_update(&s4, &s6, given, v);
            assert forall|j: int| 0 <= j < n implies #[trigger] s6.live(j) by {
                assert(s0.live(j));
                assert(s6@[j] is Some);
            }
            self.ev.lemma_relinked(&prev.pj, &self.pj);
            assert forall|j: int| 0 <= j < n implies (#[trigger] s6.at(j)).id == j && ((
            was_todo@[j] && s6.at(j).state != State::Todo) <==> (turned && s0.marked(
                id as int,
                j,
            ))) by {
                assert(s0.live(j));
                assert(s0.record_ok(j));
                assert(s0@[j] == Some(s0.at(j)@));
                assert(s6@[j] == Some(s6.at(j)@));
                if j == id {
                    assert(s0.above(id as int, id as int));
                }
            }
        }
        self.log.push(LogItem::ProjectMajorUpdate(before, to_project(self.pj.rec(id))));
        let ghost base = self.log@;
        self.log_followers(id, &was_todo, Ghost(s0), Ghost(turned));
        proof {
            let m = prev.log@.len() as int;
            assert(base.subrange(0, m) =~= prev.log@);
            assert(self.log@.subrange(0, m) =~= prev.log@) by {
                assert forall|k: int| 0 <= k < m implies self.log@[k] == prev.log@[k] by {
                    assert(self.log@.subrange(0, base.len() as int)[k] == base[k]);
                }
            }
            assert(self.log@[m] == base[m]) by {
                assert(self.log@.subrange(0, base.len() as int)[m] == base[m]);
            }
        }
        Ok(())
    }

    /// Why the request `p` is refused, where it is.
    pub open(crate) spec fn upsert_refusal(&self, p: Project) -> Option<DataError> {
        if p.id >= self.pj@.len() {
            self.insert_refusal(p)
        } else {
            self.update_refusal(p)
        }
    }

    /// Takes in the project `new_project`: as a new project where its id
    /// lies beyond the store, else as a change to the project of that id.
    ///
    /// A new project must be still to do, bear a name of its own, and have
    /// done no more than is estimated. A change may not give the project the
    /// name of another or rename the root, not take it back from `Done` or
    /// `Abort`, not lower the work done or raise it over the estimate, and
    /// not move a project that has dependencies at either end, nor any
    /// project under itself. Of the dependencies named, those that are not
    /// children of the project's parent are left out; a project that is
    /// changed may name itself, one that is new cannot. A request that is
    /// refused changes nothing.
    pub fn upsert_project(&mut self, new_project: Project) -> (r: Result<(), DataError>)
        requires
            old(self).wf(),
        ensures
            final(self).wf(),
            final(self).events() == old(self).events(),
            final(self).zone() == old(self).zone(),
            r is Ok <==> old(self).upsert_refusal(new_project) is None,
            r is Ok ==> {
                let n = old(self).changes().len() as int;
                &&& final(self).projects()@ == if new_project.id >= old(self).projects()@.len() {
                    old(self).after_insert(new_project)
                } else {
                    old(self).after_update(new_project)
                }
                &&& final(self).changes().len() > n
                &&& final(self).changes().subrange(0, n) == old(self).changes()
                &&& new_project.id >= old(self).projects()@.len() ==> {
                    &&& final(self).changes().len() == n + 1
                    &&& final(self).changes()[n] matches LogItem::ProjectInsert(x)
                    &&& x@ == project_view(
                        final(self).projects().at(old(self).projects()@.len() as int),
                    )
                }
                &&& new_project.id < old(self).projects()@.len() ==> {
                    &&& final(self).changes()[n] matches LogItem::ProjectMajorUpdate(a, b)
                    &&& a@ == project_view(old(self).projects().at(new_project.id as int))
                    &&& b@ == project_view(final(self).projects().at(new_project.id as int))
                    &&& noted_ids(
                        final(self).changes().subrange(n + 1, final(self).changes().len() as int),
                    ) == old(self).followers(new_project)
                    &&& forall|k: int|
                        n < k < final(self).changes().len() ==> {
                            &&& #[trigger] final(self).changes()[k] matches LogItem::ProjectMinorUpdate(
                                c,
                                d,
                            )
                            &&& c@ == (ProjectView { state: State::Todo, ..d@ })
                            &&& d@.id != new_project.id
                            &&& old(self).projects().marked(new_project.id as int, d@.id as int)
                            &&& d@ == project_view(final(self).projects().at(d@.id as int))
                        }
                }
            },
            r matches Err(e) ==> *final(self) == *old(self) && Some(e) == old(
                self,
            ).upsert_refusal(new_project),
    {
        if new_project.id >= self.pj.vect.len() {
            self.insert_project(new_project)
        } else {
            self.update_project(new_project)
        }
    }
}

} // verus!
