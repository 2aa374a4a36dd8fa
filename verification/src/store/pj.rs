use vstd::prelude::*;
use crate::data::State;
use crate::idset;
use crate::index::TimeIndex;
use crate::names::NameIndex;

verus! {

/// How the weight of a project is meant: open to change, or fixed by the
/// user. The plan of the days treats both alike.
#[derive(Debug, Clone, Copy, PartialEq, Eq, Structural)]
pub enum WeightType {
    Flexible,
    Permanent,
}

impl Default for WeightType {
    fn default() -> (w: WeightType)
        ensures
            w == WeightType::Permanent,
    {
        WeightType::Permanent
    }
}

/// A project as the store keeps it.
#[derive(Debug)]
pub struct Pj {
    /// The place of the project in the store.
    pub id: usize,
    /// The parent project; the root is its own parent.
    pub pp: usize,
    pub color: (u8, u8, u8),
    /// The projects directly below this one.
    pub chpj: Vec<usize>,
    /// The events of this project.
    pub chev: Vec<usize>,
    pub name: String,
    /// The children of its parent that this project depends on.
    pub deps: Vec<usize>,
    /// The children of its parent that depend on this project.
    pub deps_rvs: Vec<usize>,
    pub deadline: Option<i64>,
    pub quota_done: usize,
    pub quota_esti: usize,
    pub weight: usize,
    pub weight_type: WeightType,
    pub state: State,
    /// The most that a day may give to this project.
    pub limit: usize,
}

/// A project as a mathematical value. The four lists of ids are sets here:
/// their order says nothing about the project.
pub ghost struct PjView {
    pub id: usize,
    pub pp: usize,
    pub color: (u8, u8, u8),
    pub chpj: Set<usize>,
    pub chev: Set<usize>,
    pub name: Seq<char>,
    pub deps: Set<usize>,
    pub deps_rvs: Set<usize>,
    pub deadline: Option<i64>,
    pub quota_done: usize,
    pub quota_esti: usize,
    pub weight: usize,
    pub weight_type: WeightType,
    pub state: State,
    pub limit: usize,
}

impl View for Pj {
    type V = PjView;

    open spec fn view(&self) -> PjView {
        PjView {
            id: self.id,
            pp: self.pp,
            color: self.color,
            chpj: self.chpj@.to_set(),
            chev: self.chev@.to_set(),
            name: self.name@,
            deps: self.deps@.to_set(),
            deps_rvs: self.deps_rvs@.to_set(),
            deadline: self.deadline,
            quota_done: self.quota_done,
            quota_esti: self.quota_esti,
            weight: self.weight,
            weight_type: self.weight_type,
            state: self.state,
            limit: self.limit,
        }
    }
}

/// A project named `name` of which nothing else is said yet.
pub open spec fn fresh_view(name: Seq<char>) -> PjView {
    PjView {
        id: 0,
        pp: 0,
        color: (0u8, 0u8, 0u8),
        chpj: Set::empty(),
        chev: Set::empty(),
        name,
        deps: Set::empty(),
        deps_rvs: Set::empty(),
        deadline: None,
        quota_done: 0,
        quota_esti: 0,
        weight: 0,
        weight_type: WeightType::Permanent,
        state: State::Todo,
        limit: usize::MAX,
    }
}

/// The four lists of `a` hold the ids of those of `b` in the same order.
pub open spec fn same_lists(a: Pj, b: Pj) -> bool {
    &&& a.chpj@ == b.chpj@
    &&& a.chev@ == b.chev@
    &&& a.deps@ == b.deps@
    &&& a.deps_rvs@ == b.deps_rvs@
}

impl Clone for Pj {
    fn clone(&self) -> (pj: Pj)
        ensures
            pj@ == self@,
            same_lists(pj, *self),
    {
        self.copy()
    }
}

impl Pj {
    /// A project named `name`, to be created under the root: nothing done,
    /// nothing estimated, no weight, no deadline.
    pub fn new(name: String) -> (pj: Pj)
        ensures
            pj@ == fresh_view(name@),
            pj.chpj@.len() == 0,
            pj.chev@.len() == 0,
            pj.deps@.len() == 0,
            pj.deps_rvs@.len() == 0,
    {
        let pj = Pj {
            id: 0,
            pp: 0,
            color: (0, 0, 0),
            chpj: Vec::new(),
            chev: Vec::new(),
            name,
            deps: Vec::new(),
            deps_rvs: Vec::new(),
            deadline: None,
            quota_done: 0,
            quota_esti: 0,
            weight: 0,
            weight_type: WeightType::Permanent,
            state: State::Todo,
            limit: usize::MAX,
        };
        assert(pj.chpj@.to_set() =~= Set::empty());
        assert(pj.chev@.to_set() =~= Set::empty());
        assert(pj.deps@.to_set() =~= Set::empty());
        assert(pj.deps_rvs@.to_set() =~= Set::empty());
        pj
    }

    pub fn id(&self) -> (id: usize)
        ensures
            id == self.id,
    {
        self.id
    }

    pub fn name(&self) -> (name: &str)
        ensures
            name@ == self.name@,
    {
        self.name.as_str()
    }

    /// A copy of the project, list for list in the same order.
    pub fn copy(&self) -> (pj: Pj)
        ensures
            pj@ == self@,
            same_lists(pj, *self),
    {
        Pj {
            id: self.id,
            pp: self.pp,
            color: self.color,
            chpj: idset::copy(&self.chpj),
            chev: idset::copy(&self.chev),
            name: self.name.clone(),
            deps: idset::copy(&self.deps),
            deps_rvs: idset::copy(&self.deps_rvs),
            deadline: self.deadline,
            quota_done: self.quota_done,
            quota_esti: self.quota_esti,
            weight: self.weight,
            weight_type: self.weight_type,
            state: self.state,
            limit: self.limit,
        }
    }
}

/// What a change to the project store was, with what is needed to take it
/// back.
#[derive(Clone, Debug)]
pub enum PjLog {
    Create { id: usize },
    Delete { pj: Pj },
    QuotaEsti { id: usize, old: usize },
    QuotaDone { id: usize, old_done: usize, old_esti: usize },
    Deadline { id: usize, old: Option<i64> },
    DepsAdd { id: usize, add: usize },
    DepsRmv { id: usize, rmv: usize },
    Name { id: usize, old: String },
    Parent { id: usize, old: usize },
    Weight { id: usize, old: usize },
    WeightType { id: usize, old: WeightType },
    /// The projects in `ids` left `Todo` together.
    State { ids: Vec<usize> },
    AddEvent { id: usize, ev: usize },
    RmvEvent { id: usize, ev: usize },
    /// The request asked for what was the case already.
    Nothing,
}

/// Why the project store refused a change.
#[derive(Debug, Clone, Copy, PartialEq, Eq, Structural)]
pub enum PjErr {
    NameOfRootCannotBeModified,
    NameNotDistinct,
    DependencyNotInPeer,
    BannedByPeerDependency,
    BannedByChildren,
    NewProjectButPeerDependency,
    NewProjectButChildren,
    InvalidProjectId,
    /// The work done would go down, or the estimate below the work done.
    InvalidQuotaChange,
    /// A project that is done or given up does not change its state again,
    /// and a new project is still to do.
    InvalidStateChange,
}

/// The projects under their ids, with an index of their names and one of
/// their deadlines. A project that was deleted leaves its place empty; a
/// place is never given to another project.
#[derive(Clone)]
pub struct PjStore {
    pub(crate) vect: Vec<Option<Pj>>,
    pub(crate) name: NameIndex,
    pub(crate) time: TimeIndex,
    /// How far each project is from the root: the witness that the parents
    /// form a tree.
    pub(crate) depth: Ghost<Seq<nat>>,
}

impl PjStore {
    /// The places of the store, each with its project or empty.
    pub open(crate) spec fn view(&self) -> Seq<Option<PjView>> {
        Seq::new(
            self.vect@.len(),
            |i: int|
                match self.vect@[i] {
                    Some(p) => Some(p@),
                    None => None,
                },
        )
    }

    /// The place `i` holds a project.
    pub open(crate) spec fn live(&self, i: int) -> bool {
        0 <= i < self.vect@.len() && self.vect@[i] is Some
    }

    /// The project at the place `i`.
    pub open(crate) spec fn at(&self, i: int) -> Pj {
        self.vect@[i]->0
    }

    /// The project at the place `i` has no children, no events and no
    /// dependencies at either end.
    pub open(crate) spec fn bare(&self, i: int) -> bool {
        &&& self.at(i).chpj@.len() == 0
        &&& self.at(i).chev@.len() == 0
        &&& self.at(i).deps@.len() == 0
        &&& self.at(i).deps_rvs@.len() == 0
    }

    /// The deadlines of the projects, each with the id of its project, in
    /// the order of time.
    pub open(crate) spec fn dated(&self) -> Seq<(i64, usize)> {
        self.time@
    }

    /// How far each place is from the root.
    pub open(crate) spec fn ranks(&self) -> Seq<nat> {
        self.depth@
    }

    /// How far the place `x` is from the root.
    pub open(crate) spec fn rank(&self, x: int) -> nat {
        if 0 <= x < self.depth@.len() {
            self.depth@[x]
        } else {
            0
        }
    }

    /// How many steps a walk down from the place `x` can still take.
    pub open(crate) spec fn room(&self, x: int) -> nat {
        if self.rank(x) <= seq_max(self.depth@) {
            (seq_max(self.depth@) - self.rank(x)) as nat
        } else {
            0
        }
    }

    /// The walk down from a project to one of its children takes a step.
    pub(crate) proof fn lemma_room(&self, p: int, k: int)
        requires
            self.wf(),
            self.live(p),
            0 <= k < self.at(p).chpj@.len(),
        ensures
            self.live(self.at(p).chpj@[k] as int),
            self.room(self.at(p).chpj@[k] as int) < self.room(p),
    {
        assert(self.record_ok(p));
        let c = self.at(p).chpj@[k] as int;
        assert(self.record_ok(c));
        lemma_seq_max(self.depth@, c);
        lemma_seq_max(self.depth@, p);
    }

    /// `a` is `x` or stands above it in the tree.
    pub open(crate) spec fn above(&self, a: int, x: int) -> bool
        decreases self.rank(x),
    {
        if x == a {
            true
        } else if !self.live(x) || x == 0 {
            false
        } else {
            let p = self.at(x).pp as int;
            if self.rank(p) < self.rank(x) {
                self.above(a, p)
            } else {
                false
            }
        }
    }

    /// What holds of the project at the place `i` in a store that is in order.
    pub open(crate) spec fn record_ok(&self, i: int) -> bool {
        let p = self.at(i);
        &&& p.id == i
        &&& self.live(p.pp as int)
        &&& i != 0 ==> self.rank(i) == self.rank(p.pp as int) + 1
        &&& i != 0 ==> self.at(p.pp as int).chpj@.contains(i as usize)
        &&& p.quota_done <= p.quota_esti
        &&& p.chpj@.no_duplicates()
        &&& p.chev@.no_duplicates()
        &&& p.deps@.no_duplicates()
        &&& p.deps_rvs@.no_duplicates()
        &&& forall|k: int|
            0 <= k < p.chpj@.len() ==> {
                let c = #[trigger] p.chpj@[k];
                c != 0 && self.live(c as int) && self.at(c as int).pp == i
            }
        &&& forall|k: int|
            0 <= k < p.deps@.len() ==> {
                let d = #[trigger] p.deps@[k];
                &&& self.live(d as int)
                &&& self.at(p.pp as int).chpj@.contains(d)
                &&& self.at(d as int).deps_rvs@.contains(i as usize)
            }
        &&& forall|k: int|
            0 <= k < p.deps_rvs@.len() ==> {
                let r = #[trigger] p.deps_rvs@[k];
                self.live(r as int) && self.at(r as int).deps@.contains(i as usize)
            }
        &&& p.deadline matches Some(t) ==> self.time.has(t, i as usize)
        &&& self.name.has(p.name@, i as usize)
    }

    /// The store is in order: the parents form a tree under the root at place
    /// 0, children and parents agree, dependencies join siblings and are
    /// noted at both ends, no project has done more than is estimated, and
    /// the two indexes hold what the projects hold, no more and no less.
    pub open(crate) spec fn wf(&self) -> bool {
        &&& self.live(0)
        &&& self.at(0).pp == 0
        &&& self.at(0).deps@.len() == 0
        &&& self.depth@.len() == self.vect@.len()
        &&& self.depth@[0] == 0
        &&& forall|i: int| self.live(i) ==> #[trigger] self.record_ok(i)
        &&& self.time.wf()
        &&& forall|t: i64, i: usize| #[trigger]
            self.time.has(t, i) ==> self.live(i as int) && self.at(i as int).deadline == Some(t)
        &&& self.name.wf()
        &&& forall|s: Seq<char>, i: usize| #[trigger]
            self.name.has(s, i) ==> self.live(i as int) && self.at(i as int).name@ == s
    }
}

/// The largest number of `s`.
pub open spec fn seq_max(s: Seq<nat>) -> nat
    decreases s.len(),
{
    if s.len() == 0 {
        0
    } else {
        let m = seq_max(s.drop_last());
        if s.last() > m {
            s.last()
        } else {
            m
        }
    }
}

pub proof fn lemma_seq_max(s: Seq<nat>, i: int)
    requires
        0 <= i < s.len(),
    ensures
        s[i] <= seq_max(s),
    decreases s.len(),
{
    if i < s.len() - 1 {
        lemma_seq_max(s.drop_last(), i);
    }
}

/// `a` and `b` agree on all that ties a project to the others and to the two
/// indexes.
pub open spec fn same_links(a: Pj, b: Pj) -> bool {
    &&& a.id == b.id
    &&& a.pp == b.pp
    &&& a.chpj == b.chpj
    &&& a.deps == b.deps
    &&& a.deps_rvs == b.deps_rvs
    &&& a.name == b.name
    &&& a.deadline == b.deadline
}

impl PjStore {
    /// How the view shows what the places hold.
    pub(crate) proof fn lemma_view(&self)
        ensures
            self@.len() == self.vect@.len(),
            forall|i: int| 0 <= i < self@.len() ==> (#[trigger] self@[i] is Some <==> self.live(i)),
            forall|i: int| self.live(i) ==> #[trigger] self@[i] == Some(self.at(i)@),
            forall|i: int, e: usize|
                self.at(i)@.chev.contains(e) <==> #[trigger] self.at(i).chev@.contains(e),
            forall|i: int, e: usize|
                self.at(i)@.chpj.contains(e) <==> #[trigger] self.at(i).chpj@.contains(e),
            forall|i: int, e: usize|
                self.at(i)@.deps.contains(e) <==> #[trigger] self.at(i).deps@.contains(e),
            forall|i: int, e: usize|
                self.at(i)@.deps_rvs.contains(e) <==> #[trigger] self.at(i).deps_rvs@.contains(e),
    {
    }

    /// A store in order stays in order when projects change in what
    /// concerns themselves alone.
    pub(crate) proof fn lemma_own_changes(&self, new: &PjStore)
        requires
            self.wf(),
            new.vect@.len() == self.vect@.len(),
            forall|j: int|
                0 <= j < self.vect@.len() ==> (#[trigger] new.live(j) <==> self.live(j)),
            forall|j: int|
                self.live(j) ==> {
                    &&& same_links(#[trigger] new.at(j), self.at(j))
                    &&& new.at(j).quota_done <= new.at(j).quota_esti
                    &&& new.at(j).chev@.no_duplicates()
                },
            new.name == self.name,
            new.time == self.time,
            new.depth == self.depth,
        ensures
            new.wf(),
    {
        assert(same_links(new.at(0), self.at(0)));
        assert forall|i: int| new.live(i) implies #[trigger] new.record_ok(i) by {
            assert(self.live(i));
            assert(self.record_ok(i));
            assert(same_links(new.at(i), self.at(i)));
            let p = self.at(i);
            assert(self.record_ok(p.pp as int));
            assert(same_links(new.at(p.pp as int), self.at(p.pp as int)));
            assert forall|k: int| 0 <= k < p.chpj@.len() implies {
                let c = #[trigger] p.chpj@[k];
                c != 0 && new.live(c as int) && new.at(c as int).pp == i
            } by {
                let c = p.chpj@[k];
                assert(self.live(c as int));
                assert(same_links(new.at(c as int), self.at(c as int)));
            }
            assert forall|k: int| 0 <= k < p.deps@.len() implies {
                let d = #[trigger] p.deps@[k];
                &&& new.live(d as int)
                &&& new.at(p.pp as int).chpj@.contains(d)
                &&& new.at(d as int).deps_rvs@.contains(i as usize)
            } by {
                let d = p.deps@[k];
                assert(self.live(d as int));
                assert(same_links(new.at(d as int), self.at(d as int)));
            }
            assert forall|k: int| 0 <= k < p.deps_rvs@.len() implies {
                let r = #[trigger] p.deps_rvs@[k];
                new.live(r as int) && new.at(r as int).deps@.contains(i as usize)
            } by {
                let r = p.deps_rvs@[k];
                assert(self.live(r as int));
                assert(same_links(new.at(r as int), self.at(r as int)));
            }
        }
        assert forall|t: i64, i: usize| #[trigger] new.time.has(t, i) implies new.live(i as int)
            && new.at(i as int).deadline == Some(t) by {
            assert(self.time.has(t, i));
            assert(same_links(new.at(i as int), self.at(i as int)));
        }
        assert forall|s: Seq<char>, i: usize| #[trigger] new.name.has(s, i) implies new.live(
            i as int,
        ) && new.at(i as int).name@ == s by {
            assert(self.name.has(s, i));
            assert(same_links(new.at(i as int), self.at(i as int)));
        }
    }

    /// The same for the change of one project.
    pub(crate) proof fn lemma_own_change(&self, new: &PjStore, id: int)
        requires
            self.wf(),
            self.live(id),
            new.vect@.len() == self.vect@.len(),
            forall|j: int| 0 <= j < self.vect@.len() && j != id ==> new.vect@[j] == self.vect@[j],
            new.live(id),
            same_links(new.at(id), self.at(id)),
            new.at(id).quota_done <= new.at(id).quota_esti,
            new.at(id).chev@.no_duplicates(),
            new.name == self.name,
            new.time == self.time,
            new.depth == self.depth,
        ensures
            new.wf(),
    {
        assert forall|j: int| self.live(j) implies {
            &&& same_links(#[trigger] new.at(j), self.at(j))
            &&& new.at(j).quota_done <= new.at(j).quota_esti
            &&& new.at(j).chev@.no_duplicates()
        } by {
            assert(self.record_ok(j));
        }
        self.lemma_own_changes(new);
    }

    /// A store with the root project alone.
    pub fn new() -> (store: PjStore)
        ensures
            store.wf(),
            store@.len() == 1,
            store.live(0),
            store.at(0)@ == fresh_view("root"@),
            store.bare(0),
            store.dated().len() == 0,
    {
        let root = Pj::new("root".to_string());
        let mut vect: Vec<Option<Pj>> = Vec::new();
        vect.push(Some(root));
        let mut name = NameIndex::new();
        assert(!name.has_name("root"@));
        name.insert("root".to_string(), 0);
        let depth: Ghost<Seq<nat>> = Ghost(Seq::empty().push(0nat));
        let store = PjStore { vect, name, time: TimeIndex::new(), depth };
        proof {
            assert(store.name.has("root"@, 0));
            assert(store.record_ok(0));
            assert forall|t: i64, i: usize| #[trigger] store.time.has(t, i) implies false by {}
        }
        store
    }

    /// The project at the place `id`.
    pub(crate) fn rec(&self, id: usize) -> (p: &Pj)
        requires
            self.live(id as int),
        ensures
            *p == self.at(id as int),
    {
        self.vect[id].as_ref().unwrap()
    }

    /// The number of places of the store, with those that a deleted
    /// project left empty.
    pub fn len(&self) -> (n: usize)
        ensures
            n == self@.len(),
    {
        self.vect.len()
    }

    /// Whether the place `id` holds a project.
    pub fn has(&self, id: usize) -> (live: bool)
        ensures
            live == self.live(id as int),
    {
        id < self.vect.len() && self.vect[id].is_some()
    }

    /// `Ok` where the place `id` holds a project.
    pub fn check_exists(&self, id: usize) -> (r: Result<(), PjErr>)
        ensures
            r is Ok <==> self.live(id as int),
            r is Err ==> r == Err::<(), PjErr>(PjErr::InvalidProjectId),
    {
        if self.has(id) {
            Ok(())
        } else {
            Err(PjErr::InvalidProjectId)
        }
    }

    /// A copy of the project at the place `id`.
    pub fn get_by_id(&self, id: usize) -> (r: Option<Pj>)
        ensures
            r is Some <==> self.live(id as int),
            r matches Some(p) ==> p@ == self.at(id as int)@ && same_lists(p, self.at(id as int)),
    {
        if self.has(id) {
            Some(self.rec(id).copy())
        } else {
            None
        }
    }

    /// The place of the project named `name`.
    pub fn find(&self, name: &str) -> (r: Option<usize>)
        requires
            self.wf(),
        ensures
            r matches Some(id) ==> self.live(id as int) && self.at(id as int).name@ == name@,
            r is None ==> forall|i: int| self.live(i) ==> self.at(i).name@ != name@,
    {
        let r = self.name.get(name);
        proof {
            if r is None {
                assert forall|i: int| self.live(i) implies self.at(i).name@ != name@ by {
                    assert(self.record_ok(i));
                    if self.at(i).name@ == name@ {
                        let k = choose|k: int|
                            0 <= k < self.name@.len() && self.name@[k] == (name@, i as usize);
                        assert(self.name@[k].0 == name@);
                    }
                }
            }
        }
        r
    }

    /// A copy of the project named `name`.
    pub fn get_by_name(&self, name: &String) -> (r: Option<Pj>)
        requires
            self.wf(),
        ensures
            r matches Some(p) ==> p@.name == name@ && self.live(p@.id as int) && p@ == self.at(
                p@.id as int,
            )@ && same_lists(p, self.at(p@.id as int)),
            r is None ==> forall|i: int| self.live(i) ==> self.at(i).name@ != name@,
    {
        match self.find(name.as_str()) {
            Some(id) => {
                assert(self.record_ok(id as int));
                Some(self.rec(id).copy())
            },
            None => None,
        }
    }

    /// Some project bears the name `s`.
    pub open(crate) spec fn named(&self, s: Seq<char>) -> bool {
        exists|i: int| self.live(i) && (#[trigger] self.at(i)).name@ == s
    }

    /// The names of all projects, in the order of the names.
    pub fn get_all_names(&self) -> (r: Result<Vec<String>, PjErr>)
        requires
            self.wf(),
        ensures
            r is Ok,
            forall|s: Seq<char>| #[trigger] self.named(s) <==> crate::names::lists(r->Ok_0@, s),
            crate::names::ascending(r->Ok_0@),
    {
        let names = self.name.names();
        proof {
            assert forall|s: Seq<char>| #[trigger] self.named(s) <==> crate::names::lists(
                names@,
                s,
            ) by {
                if self.named(s) {
                    let i = choose|i: int| self.live(i) && (#[trigger] self.at(i)).name@ == s;
                    assert(self.record_ok(i));
                    let k = choose|k: int|
                        0 <= k < self.name@.len() && self.name@[k] == (s, i as usize);
                    assert(names@[k]@ == s);
                }
                if exists|k: int| 0 <= k < names@.len() && (#[trigger] names@[k])@ == s {
                    let k = choose|k: int| 0 <= k < names@.len() && (#[trigger] names@[k])@ == s;
                    let e = self.name@[k];
                    assert(self.name.has(e.0, e.1));
                    assert(self.live(e.1 as int) && self.at(e.1 as int).name@ == s);
                }
            }
        }
        Ok(names)
    }

    /// Sets the weight of the project `id`.
    pub fn update_weight(&mut self, id: usize, weight: usize) -> (r: Result<PjLog, PjErr>)
        requires
            old(self).wf(),
        ensures
            final(self).wf(),
            r matches Ok(log) ==> final(self).undoable(log) && final(self).undone(log) == old(self)@,
            r is Ok <==> old(self).live(id as int),
            r matches Ok(log) ==> {
                &&& log == (PjLog::Weight { id, old: old(self).at(id as int).weight })
                &&& final(self)@ == old(self)@.update(
                    id as int,
                    Some(PjView { weight, ..old(self).at(id as int)@ }),
                )
            },
            r matches Err(e) ==> e == PjErr::InvalidProjectId && *final(self) == *old(self),
    {
        if !self.has(id) {
            return Err(PjErr::InvalidProjectId);
        }
        let ghost prev = *self;
        let old = self.rec(id).weight;
        match &mut self.vect[id] {
            Some(p) => {
                p.weight = weight;
            },
            None => {},
        }
        proof {
            assert(prev.record_ok(id as int));
            prev.lemma_own_change(self, id as int);
            assert(self@ =~= prev@.update(id as int, Some(PjView { weight, ..prev.at(id as int)@ })));
        }
        proof {
            self.lemma_view();
            prev.lemma_view();
            assert(self.undone(PjLog::Weight { id, old }) =~= prev@);
        }
        Ok(PjLog::Weight { id, old })
    }

    /// Sets the kind of weight of the project `id`.
    pub fn update_weight_type(&mut self, id: usize, weight_type: WeightType) -> (r: Result<
        PjLog,
        PjErr,
    >)
        requires
            old(self).wf(),
        ensures
            final(self).wf(),
            r matches Ok(log) ==> final(self).undoable(log) && final(self).undone(log) == old(self)@,
            r is Ok <==> old(self).live(id as int),
            r matches Ok(log) ==> {
                &&& log == (PjLog::WeightType { id, old: old(self).at(id as int).weight_type })
                &&& final(self)@ == old(self)@.update(
                    id as int,
                    Some(PjView { weight_type, ..old(self).at(id as int)@ }),
                )
            },
            r matches Err(e) ==> e == PjErr::InvalidProjectId && *final(self) == *old(self),
    {
        if !self.has(id) {
            return Err(PjErr::InvalidProjectId);
        }
        let ghost prev = *self;
        let old = self.rec(id).weight_type;
        match &mut self.vect[id] {
            Some(p) => {
                p.weight_type = weight_type;
            },
            None => {},
        }
        proof {
            assert(prev.record_ok(id as int));
            prev.lemma_own_change(self, id as int);
            assert(self@ =~= prev@.update(
                id as int,
                Some(PjView { weight_type, ..prev.at(id as int)@ }),
            ));
        }
        proof {
            self.lemma_view();
            prev.lemma_view();
            assert(self.undone(PjLog::WeightType { id, old }) =~= prev@);
        }
        Ok(PjLog::WeightType { id, old })
    }

    /// Sets the estimate of the project `id`. An estimate below the work
    /// done is refused.
    pub fn update_quota_esti(&mut self, id: usize, quota: usize) -> (r: Result<PjLog, PjErr>)
        requires
            old(self).wf(),
        ensures
            final(self).wf(),
            r matches Ok(log) ==> final(self).undoable(log) && final(self).undone(log) == old(self)@,
            r is Ok <==> old(self).live(id as int) && quota >= old(self).at(id as int).quota_done,
            r matches Ok(log) ==> {
                &&& log == (PjLog::QuotaEsti { id, old: old(self).at(id as int).quota_esti })
                &&& final(self)@ == old(self)@.update(
                    id as int,
                    Some(PjView { quota_esti: quota, ..old(self).at(id as int)@ }),
                )
            },
            r matches Err(e) ==> {
                &&& *final(self) == *old(self)
                &&& e == if old(self).live(id as int) {
                    PjErr::InvalidQuotaChange
                } else {
                    PjErr::InvalidProjectId
                }
            },
    {
        if !self.has(id) {
            return Err(PjErr::InvalidProjectId);
        }
        proof {
            assert(self.record_ok(id as int));
        }
        if quota < self.rec(id).quota_done {
            return Err(PjErr::InvalidQuotaChange);
        }
        let ghost prev = *self;
        let old = self.rec(id).quota_esti;
        match &mut self.vect[id] {
            Some(p) => {
                p.quota_esti = quota;
            },
            None => {},
        }
        proof {
            prev.lemma_own_change(self, id as int);
            assert(self@ =~= prev@.update(
                id as int,
                Some(PjView { quota_esti: quota, ..prev.at(id as int)@ }),
            ));
        }
        proof {
            self.lemma_view();
            prev.lemma_view();
            assert(prev.record_ok(id as int));
            assert(self.undone(PjLog::QuotaEsti { id, old }) =~= prev@);
        }
        Ok(PjLog::QuotaEsti { id, old })
    }

    /// Sets the work done on the project `id`, and raises the estimate to
    /// it where it was lower. The work done never goes down: a lower value is
    /// refused.
    pub fn update_quota_done(&mut self, id: usize, quota: usize) -> (r: Result<PjLog, PjErr>)
        requires
            old(self).wf(),
        ensures
            final(self).wf(),
            r matches Ok(log) ==> final(self).undoable(log) && final(self).undone(log) == old(self)@,
            final(self)@.len() == old(self)@.len(),
            forall|i: int|
                old(self).live(i) ==> final(self).live(i) && final(self).at(i).quota_done >= old(
                    self,
                ).at(i).quota_done,
            r is Ok <==> old(self).live(id as int) && quota >= old(self).at(id as int).quota_done,
            r matches Ok(log) ==> {
                &&& log == (PjLog::QuotaDone {
                    id,
                    old_done: old(self).at(id as int).quota_done,
                    old_esti: old(self).at(id as int).quota_esti,
                })
                &&& final(self)@ == old(self)@.update(
                    id as int,
                    Some(
                        PjView {
                            quota_done: quota,
                            quota_esti: if quota > old(self).at(id as int).quota_esti {
                                quota
                            } else {
                                old(self).at(id as int).quota_esti
                            },
                            ..old(self).at(id as int)@
                        },
                    ),
                )
            },
            r matches Err(e) ==> {
                &&& *final(self) == *old(self)
                &&& e == if old(self).live(id as int) {
                    PjErr::InvalidQuotaChange
                } else {
                    PjErr::InvalidProjectId
                }
            },
    {
        if !self.has(id) {
            return Err(PjErr::InvalidProjectId);
        }
        if quota < self.rec(id).quota_done {
            return Err(PjErr::InvalidQuotaChange);
        }
        let ghost prev = *self;
        let old_done = self.rec(id).quota_done;
        let old_esti = self.rec(id).quota_esti;
        match &mut self.vect[id] {
            Some(p) => {
                p.quota_done = quota;
                if quota > p.quota_esti {
                    p.quota_esti = quota;
                }
            },
            None => {},
        }
        proof {
            assert(prev.record_ok(id as int));
            prev.lemma_own_change(self, id as int);
            assert(self@ =~= prev@.update(
                id as int,
                Some(
                    PjView {
                        quota_done: quota,
                        quota_esti: if quota > old_esti {
                            quota
                        } else {
                            old_esti
                        },
                        ..prev.at(id as int)@
                    },
                ),
            ));
        }
        proof {
            self.lemma_view();
            prev.lemma_view();
            assert(self.undone(PjLog::QuotaDone { id, old_done, old_esti }) =~= prev@);
        }
        Ok(PjLog::QuotaDone { id, old_done, old_esti })
    }

    /// Notes the event `ev` as one of the project `id`.
    pub fn add_event(&mut self, id: usize, ev: usize) -> (r: Result<PjLog, PjErr>)
        requires
            old(self).wf(),
        ensures
            final(self).wf(),
            r matches Ok(log) ==> final(self).undoable(log) && final(self).undone(log) == old(self)@,
            r is Ok <==> old(self).live(id as int),
            r matches Ok(log) ==> {
                &&& log == if old(self).at(id as int).chev@.contains(ev) {
                    PjLog::Nothing
                } else {
                    PjLog::AddEvent { id, ev }
                }
                &&& final(self)@ == old(self)@.update(
                    id as int,
                    Some(
                        PjView {
                            chev: old(self).at(id as int)@.chev.insert(ev),
                            ..old(self).at(id as int)@
                        },
                    ),
                )
            },
            r matches Err(e) ==> e == PjErr::InvalidProjectId && *final(self) == *old(self),
    {
        if !self.has(id) {
            return Err(PjErr::InvalidProjectId);
        }
        let ghost prev = *self;
        if idset::contains(&self.rec(id).chev, ev) {
            proof {
                self.lemma_view();
                assert(prev.at(id as int)@.chev.insert(ev) =~= prev.at(id as int)@.chev);
                assert(self@ =~= prev@.update(
                    id as int,
                    Some(
                        PjView {
                            chev: prev.at(id as int)@.chev.insert(ev),
                            ..prev.at(id as int)@
                        },
                    ),
                ));
            }
            return Ok(PjLog::Nothing);
        }
        match &mut self.vect[id] {
            Some(p) => {
                idset::insert(&mut p.chev, ev);
            },
            None => {},
        }
        proof {
            assert(prev.record_ok(id as int));
            idset::lemma_with(prev.at(id as int).chev@, ev);
            prev.lemma_own_change(self, id as int);
            assert(self@ =~= prev@.update(
                id as int,
                Some(
                    PjView { chev: prev.at(id as int)@.chev.insert(ev), ..prev.at(id as int)@ },
                ),
            ));
        }
        proof {
            self.lemma_view();
            prev.lemma_view();
            assert(prev.at(id as int)@.chev.insert(ev).remove(ev) =~= prev.at(id as int)@.chev);
            assert(self.undone(PjLog::AddEvent { id, ev }) =~= prev@);
        }
        Ok(PjLog::AddEvent { id, ev })
    }

    /// Strikes the event `ev` from those of the project `id`.
    pub fn rmv_event(&mut self, id: usize, ev: usize) -> (r: Result<PjLog, PjErr>)
        requires
            old(self).wf(),
        ensures
            final(self).wf(),
            r matches Ok(log) ==> final(self).undoable(log) && final(self).undone(log) == old(self)@,
            r is Ok <==> old(self).live(id as int),
            r matches Ok(log) ==> {
                &&& log == if old(self).at(id as int).chev@.contains(ev) {
                    PjLog::RmvEvent { id, ev }
                } else {
                    PjLog::Nothing
                }
                &&& final(self)@ == old(self)@.update(
                    id as int,
                    Some(
                        PjView {
                            chev: old(self).at(id as int)@.chev.remove(ev),
                            ..old(self).at(id as int)@
                        },
                    ),
                )
            },
            r matches Err(e) ==> e == PjErr::InvalidProjectId && *final(self) == *old(self),
    {
        if !self.has(id) {
            return Err(PjErr::InvalidProjectId);
        }
        let ghost prev = *self;
        if !idset::contains(&self.rec(id).chev, ev) {
            proof {
                self.lemma_view();
                assert(prev.at(id as int)@.chev.remove(ev) =~= prev.at(id as int)@.chev);
                assert(self@ =~= prev@.update(
                    id as int,
                    Some(
                        PjView {
                            chev: prev.at(id as int)@.chev.remove(ev),
                            ..prev.at(id as int)@
                        },
                    ),
                ));
            }
            return Ok(PjLog::Nothing);
        }
        match &mut self.vect[id] {
            Some(p) => {
                idset::remove(&mut p.chev, ev);
            },
            None => {},
        }
        proof {
            assert(prev.record_ok(id as int));
            idset::lemma_without(prev.at(id as int).chev@, ev);
            prev.lemma_own_change(self, id as int);
            assert(self@ =~= prev@.update(
                id as int,
                Some(
                    PjView { chev: prev.at(id as int)@.chev.remove(ev), ..prev.at(id as int)@ },
                ),
            ));
        }
        proof {
            self.lemma_view();
            prev.lemma_view();
            assert(prev.at(id as int)@.chev.remove(ev).insert(ev) =~= prev.at(id as int)@.chev);
            assert(self.undone(PjLog::RmvEvent { id, ev }) =~= prev@);
        }
        Ok(PjLog::RmvEvent { id, ev })
    }

    /// Adds the edge "`id` depends on `dep`" at both its ends.
    pub(crate) fn link(&mut self, id: usize, dep: usize)
        requires
            old(self).wf(),
            old(self).live(id as int),
            id != 0,
            old(self).at(old(self).at(id as int).pp as int).chpj@.contains(dep),
        ensures
            final(self).wf(),
            final(self).depth == old(self).depth,
            final(self).time == old(self).time,
            final(self).name == old(self).name,
            final(self).vect@.len() == old(self).vect@.len(),
            forall|j: int|
                0 <= j < old(self).vect@.len() && j != id && j != dep ==> final(self).vect@[j]
                    == old(self).vect@[j],
            final(self).live(id as int),
            final(self).live(dep as int),
            id != dep ==> final(self).at(id as int) == (Pj {
                deps: final(self).at(id as int).deps,
                ..old(self).at(id as int)
            }) && final(self).at(dep as int) == (Pj {
                deps_rvs: final(self).at(dep as int).deps_rvs,
                ..old(self).at(dep as int)
            }),
            id == dep ==> final(self).at(id as int) == (Pj {
                deps: final(self).at(id as int).deps,
                deps_rvs: final(self).at(id as int).deps_rvs,
                ..old(self).at(id as int)
            }),
            final(self).at(id as int).deps@ == idset::with(old(self).at(id as int).deps@, dep),
            final(self).at(dep as int).deps_rvs@ == idset::with(
                old(self).at(dep as int).deps_rvs@,
                id,
            ),
    {
        let ghost prev = *self;
        proof {
            assert(prev.record_ok(id as int));
            let pp = prev.at(id as int).pp as int;
            assert(prev.record_ok(pp));
            let k = choose|k: int|
                0 <= k < prev.at(pp).chpj@.len() && prev.at(pp).chpj@[k] == dep;
            assert(prev.live(prev.at(pp).chpj@[k] as int));
            assert(prev.record_ok(dep as int));
        }
        match &mut self.vect[id] {
            Some(p) => {
                idset::insert(&mut p.deps, dep);
            },
            None => {},
        }
        match &mut self.vect[dep] {
            Some(p) => {
                idset::insert(&mut p.deps_rvs, id);
            },
            None => {},
        }
        proof {
            idset::lemma_with(prev.at(id as int).deps@, dep);
            idset::lemma_with(prev.at(dep as int).deps_rvs@, id);
            assert forall|i: int| self.live(i) implies #[trigger] self.record_ok(i) by {
                assert(prev.live(i));
                assert(prev.record_ok(i));
                let p = self.at(i);
                let q = prev.at(i);
                assert(prev.record_ok(q.pp as int));
                assert forall|k: int| 0 <= k < p.chpj@.len() implies {
                    let c = #[trigger] p.chpj@[k];
                    c != 0 && self.live(c as int) && self.at(c as int).pp == i
                } by {
                    assert(prev.live(q.chpj@[k] as int));
                }
                assert forall|k: int| 0 <= k < p.deps@.len() implies {
                    let d = #[trigger] p.deps@[k];
                    &&& self.live(d as int)
                    &&& self.at(p.pp as int).chpj@.contains(d)
                    &&& self.at(d as int).deps_rvs@.contains(i as usize)
                } by {
                    let d = p.deps@[k];
                    assert(p.deps@.contains(d));
                    if i == id && d == dep {
                    } else {
                        assert(q.deps@.contains(d));
                        let m = choose|m: int| 0 <= m < q.deps@.len() && q.deps@[m] == d;
                        assert(prev.live(q.deps@[m] as int));
                        assert(prev.at(d as int).deps_rvs@.contains(i as usize));
                    }
                }
                assert forall|k: int| 0 <= k < p.deps_rvs@.len() implies {
                    let r = #[trigger] p.deps_rvs@[k];
                    self.live(r as int) && self.at(r as int).deps@.contains(i as usize)
                } by {
                    let r = p.deps_rvs@[k];
                    assert(p.deps_rvs@.contains(r));
                    if i == dep && r == id {
                    } else {
                        assert(q.deps_rvs@.contains(r));
                        let m = choose|m: int| 0 <= m < q.deps_rvs@.len() && q.deps_rvs@[m] == r;
                        assert(prev.live(q.deps_rvs@[m] as int));
                        assert(prev.at(r as int).deps@.contains(i as usize));
                    }
                }
            }
            assert forall|t: i64, i: usize| #[trigger] self.time.has(t, i) implies self.live(
                i as int,
            ) && self.at(i as int).deadline == Some(t) by {
                assert(prev.time.has(t, i));
            }
            assert forall|s: Seq<char>, i: usize| #[trigger] self.name.has(s, i) implies self.live(
                i as int,
            ) && self.at(i as int).name@ == s by {
                assert(prev.name.has(s, i));
            }
        }
    }

    /// Takes the edge "`id` depends on `dep`" away at both its ends.
    pub(crate) fn unlink(&mut self, id: usize, dep: usize)
        requires
            old(self).wf(),
            old(self).live(id as int),
            old(self).live(dep as int),
        ensures
            final(self).wf(),
            final(self).depth == old(self).depth,
            final(self).time == old(self).time,
            final(self).name == old(self).name,
            final(self).vect@.len() == old(self).vect@.len(),
            forall|j: int|
                0 <= j < old(self).vect@.len() && j != id && j != dep ==> final(self).vect@[j]
                    == old(self).vect@[j],
            final(self).live(id as int),
            final(self).live(dep as int),
            id != dep ==> final(self).at(id as int) == (Pj {
                deps: final(self).at(id as int).deps,
                ..old(self).at(id as int)
            }) && final(self).at(dep as int) == (Pj {
                deps_rvs: final(self).at(dep as int).deps_rvs,
                ..old(self).at(dep as int)
            }),
            id == dep ==> final(self).at(id as int) == (Pj {
                deps: final(self).at(id as int).deps,
                deps_rvs: final(self).at(id as int).deps_rvs,
                ..old(self).at(id as int)
            }),
            final(self).at(id as int).deps@ == idset::without(old(self).at(id as int).deps@, dep),
            final(self).at(dep as int).deps_rvs@ == idset::without(
                old(self).at(dep as int).deps_rvs@,
                id,
            ),
    {
        let ghost prev = *self;
        match &mut self.vect[id] {
            Some(p) => {
                idset::remove(&mut p.deps, dep);
            },
            None => {},
        }
        match &mut self.vect[dep] {
            Some(p) => {
                idset::remove(&mut p.deps_rvs, id);
            },
            None => {},
        }
        proof {
            assert(prev.record_ok(id as int));
            assert(prev.record_ok(dep as int));
            idset::lemma_without(prev.at(id as int).deps@, dep);
            idset::lemma_without(prev.at(dep as int).deps_rvs@, id);
            assert forall|i: int| self.live(i) implies #[trigger] self.record_ok(i) by {
                assert(prev.live(i));
                assert(prev.record_ok(i));
                let p = self.at(i);
                let q = prev.at(i);
                assert(prev.record_ok(q.pp as int));
                assert forall|k: int| 0 <= k < p.chpj@.len() implies {
                    let c = #[trigger] p.chpj@[k];
                    c != 0 && self.live(c as int) && self.at(c as int).pp == i
                } by {
                    assert(prev.live(q.chpj@[k] as int));
                }
                assert forall|k: int| 0 <= k < p.deps@.len() implies {
                    let d = #[trigger] p.deps@[k];
                    &&& self.live(d as int)
                    &&& self.at(p.pp as int).chpj@.contains(d)
                    &&& self.at(d as int).deps_rvs@.contains(i as usize)
                } by {
                    let d = p.deps@[k];
                    assert(p.deps@.contains(d));
                    assert(q.deps@.contains(d));
                    let m = choose|m: int| 0 <= m < q.deps@.len() && q.deps@[m] == d;
                    assert(prev.live(q.deps@[m] as int));
                    assert(prev.at(d as int).deps_rvs@.contains(i as usize));
                }
                assert forall|k: int| 0 <= k < p.deps_rvs@.len() implies {
                    let r = #[trigger] p.deps_rvs@[k];
                    self.live(r as int) && self.at(r as int).deps@.contains(i as usize)
                } by {
                    let r = p.deps_rvs@[k];
                    assert(p.deps_rvs@.contains(r));
                    assert(q.deps_rvs@.contains(r));
                    let m = choose|m: int| 0 <= m < q.deps_rvs@.len() && q.deps_rvs@[m] == r;
                    assert(prev.live(q.deps_rvs@[m] as int));
                    assert(prev.at(r as int).deps@.contains(i as usize));
                }
            }
            assert forall|t: i64, i: usize| #[trigger] self.time.has(t, i) implies self.live(
                i as int,
            ) && self.at(i as int).deadline == Some(t) by {
                assert(prev.time.has(t, i));
            }
            assert forall|s: Seq<char>, i: usize| #[trigger] self.name.has(s, i) implies self.live(
                i as int,
            ) && self.at(i as int).name@ == s by {
                assert(prev.name.has(s, i));
            }
        }
    }

    /// `dep` is among the children of the parent of `id`, where `id` itself
    /// is too.
    pub open(crate) spec fn peer(&self, id: int, dep: usize) -> bool {
        &&& self.live(id)
        &&& id != 0
        &&& self.at(self.at(id).pp as int).chpj@.contains(dep)
    }

    /// Makes the project `id` depend on `dep`, a child of the same parent,
    /// which `id` itself is. Whether the dependencies then form a cycle is not
    /// looked at: the projects on a cycle, and one that depends on itself,
    /// wait for ever.
    pub fn add_deps(&mut self, id: usize, dep: usize) -> (r: Result<PjLog, PjErr>)
        requires
            old(self).wf(),
        ensures
            final(self).wf(),
            r matches Ok(log) ==> final(self).undoable(log) && final(self).undone(log) == old(self)@,
            r is Ok <==> old(self).peer(id as int, dep),
            r matches Ok(log) ==> {
                &&& log == if old(self).at(id as int).deps@.contains(dep) {
                    PjLog::Nothing
                } else {
                    PjLog::DepsAdd { id, add: dep }
                }
                &&& final(self)@ == old(self)@.update(
                    id as int,
                    Some(
                        PjView {
                            deps: old(self).at(id as int)@.deps.insert(dep),
                            ..old(self).at(id as int)@
                        },
                    ),
                ).update(
                    dep as int,
                    Some(
                        PjView {
                            deps_rvs: old(self).at(dep as int)@.deps_rvs.insert(id),
                            ..(if id == dep {
                                PjView {
                                    deps: old(self).at(id as int)@.deps.insert(dep),
                                    ..old(self).at(id as int)@
                                }
                            } else {
                                old(self).at(dep as int)@
                            })
                        },
                    ),
                )
            },
            r matches Err(e) ==> {
                &&& *final(self) == *old(self)
                &&& e == if old(self).live(id as int) {
                    PjErr::DependencyNotInPeer
                } else {
                    PjErr::InvalidProjectId
                }
            },
    {
        if !self.has(id) {
            return Err(PjErr::InvalidProjectId);
        }
        proof {
            assert(self.record_ok(id as int));
        }
        let pp = self.rec(id).pp;
        if id == 0 || !idset::contains(&self.rec(pp).chpj, dep) {
            return Err(PjErr::DependencyNotInPeer);
        }
        let ghost prev = *self;
        proof {
            prev.lemma_view();
            let k = choose|k: int|
                0 <= k < prev.at(pp as int).chpj@.len() && prev.at(pp as int).chpj@[k] == dep;
            assert(prev.record_ok(pp as int));
            assert(prev.live(prev.at(pp as int).chpj@[k] as int));
        }
        if idset::contains(&self.rec(id).deps, dep) {
            proof {
                let k = choose|k: int|
                    0 <= k < prev.at(id as int).deps@.len() && prev.at(id as int).deps@[k] == dep;
                assert(prev.at(prev.at(id as int).deps@[k] as int).deps_rvs@.contains(id));
                assert(prev.at(id as int)@.deps.insert(dep) =~= prev.at(id as int)@.deps);
                assert(prev.at(dep as int)@.deps_rvs.insert(id) =~= prev.at(dep as int)@.deps_rvs);
                assert(self@ =~= prev@.update(
                    id as int,
                    Some(
                        PjView {
                            deps: prev.at(id as int)@.deps.insert(dep),
                            ..prev.at(id as int)@
                        },
                    ),
                ).update(
                    dep as int,
                    Some(
                        PjView {
                            deps_rvs: prev.at(dep as int)@.deps_rvs.insert(id),
                            ..(if id == dep {
                                PjView {
                                    deps: prev.at(id as int)@.deps.insert(dep),
                                    ..prev.at(id as int)@
                                }
                            } else {
                                prev.at(dep as int)@
                            })
                        },
                    ),
                ));
            }
            return Ok(PjLog::Nothing);
        }
        self.link(id, dep);
        proof {
            idset::lemma_with(prev.at(id as int).deps@, dep);
            idset::lemma_with(prev.at(dep as int).deps_rvs@, id);
            assert(self@ =~= prev@.update(
                id as int,
                Some(PjView { deps: prev.at(id as int)@.deps.insert(dep), ..prev.at(id as int)@ }),
            ).update(
                dep as int,
                Some(
                    PjView {
                        deps_rvs: prev.at(dep as int)@.deps_rvs.insert(id),
                        ..(if id == dep {
                            PjView {
                                deps: prev.at(id as int)@.deps.insert(dep),
                                ..prev.at(id as int)@
                            }
                        } else {
                            prev.at(dep as int)@
                        })
                    },
                ),
            ));
        }
        proof {
            self.lemma_view();
            if prev.at(dep as int).deps_rvs@.contains(id) {
                assert(prev.record_ok(dep as int));
                let k = choose|k: int|
                    0 <= k < prev.at(dep as int).deps_rvs@.len() && prev.at(dep as int).deps_rvs@[k]
                        == id;
                assert(prev.at(prev.at(dep as int).deps_rvs@[k] as int).deps@.contains(dep));
            }
            assert(prev.at(id as int)@.deps.insert(dep).remove(dep) =~= prev.at(id as int)@.deps);
            assert(prev.at(dep as int)@.deps_rvs.insert(id).remove(id) =~= prev.at(
                dep as int,
            )@.deps_rvs);
            assert(self@[id as int] == Some(self.at(id as int)@));
            assert(self@[dep as int] == Some(self.at(dep as int)@));
            assert(self.undone(PjLog::DepsAdd { id, add: dep }) =~= prev@);
        }
        Ok(PjLog::DepsAdd { id, add: dep })
    }

    /// Ends the dependency of the project `id` on `dep`.
    pub fn rmv_deps(&mut self, id: usize, dep: usize) -> (r: Result<PjLog, PjErr>)
        requires
            old(self).wf(),
        ensures
            final(self).wf(),
            r matches Ok(log) ==> final(self).undoable(log) && final(self).undone(log) == old(self)@,
            r is Ok <==> old(self).live(id as int) && old(self).live(dep as int),
            r matches Ok(log) ==> {
                &&& log == if old(self).at(id as int).deps@.contains(dep) {
                    PjLog::DepsRmv { id, rmv: dep }
                } else {
                    PjLog::Nothing
                }
                &&& final(self)@ == old(self)@.update(
                    id as int,
                    Some(
                        PjView {
                            deps: old(self).at(id as int)@.deps.remove(dep),
                            ..old(self).at(id as int)@
                        },
                    ),
                ).update(
                    dep as int,
                    Some(
                        PjView {
                            deps_rvs: old(self).at(dep as int)@.deps_rvs.remove(id),
                            ..(if id == dep {
                                PjView {
                                    deps: old(self).at(id as int)@.deps.remove(dep),
                                    ..old(self).at(id as int)@
                                }
                            } else {
                                old(self).at(dep as int)@
                            })
                        },
                    ),
                )
            },
            r matches Err(e) ==> e == PjErr::InvalidProjectId && *final(self) == *old(self),
    {
        if !self.has(id) || !self.has(dep) {
            return Err(PjErr::InvalidProjectId);
        }
        let ghost prev = *self;
        let linked = idset::contains(&self.rec(id).deps, dep);
        proof {
            prev.lemma_view();
            assert(prev.record_ok(id as int));
            assert(prev.record_ok(dep as int));
            if linked {
                let k = choose|k: int|
                    0 <= k < prev.at(id as int).deps@.len() && prev.at(id as int).deps@[k] == dep;
                assert(prev.at(prev.at(id as int).deps@[k] as int).deps_rvs@.contains(id));
                assert(prev.at(prev.at(id as int).pp as int).chpj@.contains(prev.at(id as int).deps@[k]));
            } else if prev.at(dep as int).deps_rvs@.contains(id) {
                let k = choose|k: int|
                    0 <= k < prev.at(dep as int).deps_rvs@.len() && prev.at(dep as int).deps_rvs@[k]
                        == id;
                assert(prev.at(prev.at(dep as int).deps_rvs@[k] as int).deps@.contains(dep));
            }
        }
        self.unlink(id, dep);
        proof {
            idset::lemma_without(prev.at(id as int).deps@, dep);
            idset::lemma_without(prev.at(dep as int).deps_rvs@, id);
            assert(self@ =~= prev@.update(
                id as int,
                Some(PjView { deps: prev.at(id as int)@.deps.remove(dep), ..prev.at(id as int)@ }),
            ).update(
                dep as int,
                Some(
                    PjView {
                        deps_rvs: prev.at(dep as int)@.deps_rvs.remove(id),
                        ..(if id == dep {
                            PjView {
                                deps: prev.at(id as int)@.deps.remove(dep),
                                ..prev.at(id as int)@
                            }
                        } else {
                            prev.at(dep as int)@
                        })
                    },
                ),
            ));
        }
        proof {
            self.lemma_view();
            assert(self@[id as int] == Some(self.at(id as int)@));
            assert(self@[dep as int] == Some(self.at(dep as int)@));
            if linked {
                assert(id != 0) by {
                    if id == 0 {
                        assert(prev.at(0).deps@.len() == 0);
                    }
                }
                assert(self.at(prev.at(id as int).pp as int).chpj == prev.at(
                    prev.at(id as int).pp as int,
                ).chpj);
                assert(self.peer(id as int, dep));
                assert(prev.at(id as int)@.deps.remove(dep).insert(dep) =~= prev.at(
                    id as int,
                )@.deps);
                assert(prev.at(dep as int)@.deps_rvs.remove(id).insert(id) =~= prev.at(
                    dep as int,
                )@.deps_rvs);
                assert(self.undone(PjLog::DepsRmv { id, rmv: dep }) =~= prev@);
            } else {
                assert(self@ =~= prev@) by {
                    assert(prev.at(id as int)@.deps.remove(dep) =~= prev.at(id as int)@.deps);
                    assert(prev.at(dep as int)@.deps_rvs.remove(id) =~= prev.at(
                        dep as int,
                    )@.deps_rvs);
                }
            }
        }
        if !linked {
            return Ok(PjLog::Nothing);
        }
        Ok(PjLog::DepsRmv { id, rmv: dep })
    }

    /// Sets or clears the deadline of the project `id`.
    pub fn update_deadline(&mut self, id: usize, new: Option<i64>) -> (r: Result<PjLog, PjErr>)
        requires
            old(self).wf(),
        ensures
            final(self).wf(),
            r matches Ok(log) ==> final(self).undoable(log) && final(self).undone(log) == old(self)@,
            final(self).ranks() == old(self).ranks(),
            r is Ok <==> old(self).live(id as int),
            r matches Ok(log) ==> {
                &&& log == (PjLog::Deadline { id, old: old(self).at(id as int).deadline })
                &&& final(self)@ == old(self)@.update(
                    id as int,
                    Some(PjView { deadline: new, ..old(self).at(id as int)@ }),
                )
            },
            r matches Err(e) ==> e == PjErr::InvalidProjectId && *final(self) == *old(self),
    {
        if !self.has(id) {
            return Err(PjErr::InvalidProjectId);
        }
        let ghost prev = *self;
        let old = self.rec(id).deadline;
        match &mut self.vect[id] {
            Some(p) => {
                p.deadline = new;
            },
            None => {},
        }
        if let Some(t) = old {
            self.time.remove(t, id);
        }
        if let Some(t) = new {
            self.time.insert(t, id);
        }
        proof {
            assert(prev.record_ok(id as int));
            assert forall|i: int| self.live(i) implies #[trigger] self.record_ok(i) by {
                assert(prev.live(i));
                assert(prev.record_ok(i));
                let p = self.at(i);
                let q = prev.at(i);
                assert(prev.record_ok(q.pp as int));
                assert forall|k: int| 0 <= k < p.chpj@.len() implies {
                    let c = #[trigger] p.chpj@[k];
                    c != 0 && self.live(c as int) && self.at(c as int).pp == i
                } by {
                    assert(prev.live(q.chpj@[k] as int));
                }
                assert forall|k: int| 0 <= k < p.deps@.len() implies {
                    let d = #[trigger] p.deps@[k];
                    &&& self.live(d as int)
                    &&& self.at(p.pp as int).chpj@.contains(d)
                    &&& self.at(d as int).deps_rvs@.contains(i as usize)
                } by {
                    assert(prev.live(q.deps@[k] as int));
                }
                assert forall|k: int| 0 <= k < p.deps_rvs@.len() implies {
                    let r = #[trigger] p.deps_rvs@[k];
                    self.live(r as int) && self.at(r as int).deps@.contains(i as usize)
                } by {
                    assert(prev.live(q.deps_rvs@[k] as int));
                }
                if p.deadline is Some {
                    let t = p.deadline->0;
                    if i != id {
                        assert(prev.time.has(t, i as usize));
                    }
                    assert(self.time.has(t, i as usize));
                }
            }
            assert forall|t: i64, i: usize| #[trigger] self.time.has(t, i) implies self.live(
                i as int,
            ) && self.at(i as int).deadline == Some(t) by {
                if !(new == Some(t) && i == id) {
                    assert(prev.time.has(t, i));
                }
            }
            assert forall|s: Seq<char>, i: usize| #[trigger] self.name.has(s, i) implies self.live(
                i as int,
            ) && self.at(i as int).name@ == s by {
                assert(prev.name.has(s, i));
            }
            assert(self@ =~= prev@.update(
                id as int,
                Some(PjView { deadline: new, ..prev.at(id as int)@ }),
            ));
        }
        proof {
            self.lemma_view();
            prev.lemma_view();
            assert(self.undone(PjLog::Deadline { id, old }) =~= prev@);
        }
        Ok(PjLog::Deadline { id, old })
    }

    /// The change itself; what `update_name` adds is that it can be taken back.
    pub(crate) fn update_name_inner(&mut self, id: usize, name: String) -> (r: Result<PjLog, PjErr>)
        requires
            old(self).wf(),
        ensures
            final(self).wf(),
            final(self).ranks() == old(self).ranks(),
            r is Ok <==> old(self).live(id as int) && id != 0 && (old(self).named(name@)
                ==> old(self).at(id as int).name@ == name@),
            r matches Ok(log) ==> {
                &&& log matches PjLog::Name { id: i, old: o }
                &&& i == id
                &&& o@ == old(self).at(id as int).name@
                &&& final(self)@ == old(self)@.update(
                    id as int,
                    Some(PjView { name: name@, ..old(self).at(id as int)@ }),
                )
            },
            r matches Err(e) ==> {
                &&& *final(self) == *old(self)
                &&& e == if !old(self).live(id as int) {
                    PjErr::InvalidProjectId
                } else if old(self).named(name@) && old(self).at(id as int).name@ != name@ {
                    PjErr::NameNotDistinct
                } else {
                    PjErr::NameOfRootCannotBeModified
                }
            },
    {
        if !self.has(id) {
            return Err(PjErr::InvalidProjectId);
        }
        proof {
            assert(self.record_ok(id as int));
        }
        let taken = self.find(name.as_str());
        let same = self.rec(id).name == name;
        proof {
            if taken is Some {
                let j = taken->0;
                assert(self.record_ok(j as int));
                assert(self.at(j as int).name@ == name@);
                assert(self.named(name@));
                if same {
                    self.name.lemma_unique(name@, j, id);
                }
            }
        }
        if !same && taken.is_some() {
            return Err(PjErr::NameNotDistinct);
        }
        if id == 0 {
            return Err(PjErr::NameOfRootCannotBeModified);
        }
        let ghost prev = *self;
        let ghost fresh = name@;
        let ghost stale = prev.at(id as int).name@;
        let label = name.clone();
        let mut old = name;
        match &mut self.vect[id] {
            Some(p) => {
                std::mem::swap(&mut p.name, &mut old);
            },
            None => {},
        }
        self.name.remove(old.as_str());
        proof {
            if self.name.has_name(fresh) {
                let k = choose|k: int| 0 <= k < self.name@.len() && (#[trigger] self.name@[k]).0
                    == fresh;
                let e = self.name@[k];
                assert(self.name.has(e.0, e.1));
                assert(prev.name.has(e.0, e.1));
                assert(false);
            }
        }
        self.name.insert(label, id);
        proof {
            assert forall|i: int| self.live(i) implies #[trigger] self.record_ok(i) by {
                assert(prev.live(i));
                assert(prev.record_ok(i));
                let p = self.at(i);
                let q = prev.at(i);
                assert(prev.record_ok(q.pp as int));
                assert forall|k: int| 0 <= k < p.chpj@.len() implies {
                    let c = #[trigger] p.chpj@[k];
                    c != 0 && self.live(c as int) && self.at(c as int).pp == i
                } by {
                    assert(prev.live(q.chpj@[k] as int));
                }
                assert forall|k: int| 0 <= k < p.deps@.len() implies {
                    let d = #[trigger] p.deps@[k];
                    &&& self.live(d as int)
                    &&& self.at(p.pp as int).chpj@.contains(d)
                    &&& self.at(d as int).deps_rvs@.contains(i as usize)
                } by {
                    assert(prev.live(q.deps@[k] as int));
                }
                assert forall|k: int| 0 <= k < p.deps_rvs@.len() implies {
                    let r = #[trigger] p.deps_rvs@[k];
                    self.live(r as int) && self.at(r as int).deps@.contains(i as usize)
                } by {
                    assert(prev.live(q.deps_rvs@[k] as int));
                }
                if i != id {
                    assert(prev.name.has(q.name@, i as usize));
                    if q.name@ == stale {
                        prev.name.lemma_unique(stale, i as usize, id);
                    }
                }
                assert(self.name.has(p.name@, i as usize));
            }
            assert forall|t: i64, i: usize| #[trigger] self.time.has(t, i) implies self.live(
                i as int,
            ) && self.at(i as int).deadline == Some(t) by {
                assert(prev.time.has(t, i));
            }
            assert forall|s: Seq<char>, i: usize| #[trigger] self.name.has(s, i) implies self.live(
                i as int,
            ) && self.at(i as int).name@ == s by {
                if !(s == fresh && i == id) {
                    assert(prev.name.has(s, i));
                    if i == id {
                        assert(s == stale);
                    }
                }
            }
            assert(self@ =~= prev@.update(
                id as int,
                Some(PjView { name: fresh, ..prev.at(id as int)@ }),
            ));
        }
        Ok(PjLog::Name { id, old })
    }

    /// Renames the project `id`. The root keeps its name, and no two
    /// projects bear the same.
    pub fn update_name(&mut self, id: usize, name: String) -> (r: Result<PjLog, PjErr>)
        requires
            old(self).wf(),
        ensures
            final(self).wf(),
            r matches Ok(log) ==> final(self).undoable(log) && final(self).undone(log) == old(self)@,
            final(self).ranks() == old(self).ranks(),
            r is Ok <==> old(self).live(id as int) && id != 0 && (old(self).named(name@)
                ==> old(self).at(id as int).name@ == name@),
            r matches Ok(log) ==> {
                &&& log matches PjLog::Name { id: i, old: o }
                &&& i == id
                &&& o@ == old(self).at(id as int).name@
                &&& final(self)@ == old(self)@.update(
                    id as int,
                    Some(PjView { name: name@, ..old(self).at(id as int)@ }),
                )
            },
            r matches Err(e) ==> {
                &&& *final(self) == *old(self)
                &&& e == if !old(self).live(id as int) {
                    PjErr::InvalidProjectId
                } else if old(self).named(name@) && old(self).at(id as int).name@ != name@ {
                    PjErr::NameNotDistinct
                } else {
                    PjErr::NameOfRootCannotBeModified
                }
            },
    {
        let ghost prev = *self;
        let ghost fresh = name@;
        let r = self.update_name_inner(id, name);
        proof {
            if r is Ok {
                prev.lemma_undo_name(self, id as int, fresh);
            }
        }
        r
    }

    /// Why `pj` cannot be created, where it cannot.
    pub open(crate) spec fn create_error(&self, pj: Pj) -> Option<PjErr> {
        if pj.deps@.len() != 0 || pj.deps_rvs@.len() != 0 {
            Some(PjErr::NewProjectButPeerDependency)
        } else if pj.chev@.len() != 0 || pj.chpj@.len() != 0 {
            Some(PjErr::NewProjectButChildren)
        } else if !self.live(pj.pp as int) {
            Some(PjErr::InvalidProjectId)
        } else if self.named(pj.name@) {
            Some(PjErr::NameNotDistinct)
        } else if pj.quota_done > pj.quota_esti {
            Some(PjErr::InvalidQuotaChange)
        } else if pj.state != State::Todo {
            Some(PjErr::InvalidStateChange)
        } else {
            None
        }
    }

    /// The change itself; what `create` adds is that it can be taken back.
    fn create_inner(&mut self, pj: Pj) -> (r: Result<PjLog, PjErr>)
        requires
            old(self).wf(),
        ensures
            final(self).wf(),
            r is Ok <==> old(self).create_error(pj) is None,
            r matches Ok(log) ==> {
                let n = old(self)@.len();
                let pp = pj.pp as int;
                &&& log == (PjLog::Create { id: n as usize })
                &&& final(self)@ == old(self)@.update(
                    pp,
                    Some(
                        PjView {
                            chpj: old(self).at(pp)@.chpj.insert(n as usize),
                            ..old(self).at(pp)@
                        },
                    ),
                ).push(Some(PjView { id: n as usize, ..pj@ }))
            },
            r matches Err(e) ==> *final(self) == *old(self) && Some(e) == old(self).create_error(
                pj,
            ),
    {
        if pj.deps.len() != 0 || pj.deps_rvs.len() != 0 {
            return Err(PjErr::NewProjectButPeerDependency);
        }
        if pj.chev.len() != 0 || pj.chpj.len() != 0 {
            return Err(PjErr::NewProjectButChildren);
        }
        if !self.has(pj.pp) {
            return Err(PjErr::InvalidProjectId);
        }
        let taken = self.find(pj.name.as_str());
        proof {
            if taken is Some {
                assert(self.at(taken->0 as int).name@ == pj.name@);
                assert(self.named(pj.name@));
            }
        }
        if taken.is_some() {
            return Err(PjErr::NameNotDistinct);
        }
        if pj.quota_done > pj.quota_esti {
            return Err(PjErr::InvalidQuotaChange);
        }
        match pj.state {
            State::Todo => {},
            _ => {
                return Err(PjErr::InvalidStateChange);
            },
        }
        let ghost prev = *self;
        let ghost given = pj;
        let id = self.vect.len();
        let pp = pj.pp;
        let mut pj = pj;
        pj.id = id;
        proof {
            assert(prev.record_ok(pp as int));
            if prev.at(pp as int).chpj@.contains(id) {
                let k = choose|k: int|
                    0 <= k < prev.at(pp as int).chpj@.len() && prev.at(pp as int).chpj@[k] == id;
                assert(prev.live(prev.at(pp as int).chpj@[k] as int));
            }
            if self.name.has_name(pj.name@) {
                let k = choose|k: int| 0 <= k < self.name@.len() && (#[trigger] self.name@[k]).0
                    == pj.name@;
                let e = self.name@[k];
                assert(self.name.has(e.0, e.1));
            }
        }
        match &mut self.vect[pp] {
            Some(p) => {
                idset::insert(&mut p.chpj, id);
            },
            None => {},
        }
        self.name.insert(pj.name.clone(), id);
        if let Some(t) = pj.deadline {
            self.time.insert(t, id);
        }
        proof {
            self.depth@ = prev.depth@.push(prev.depth@[pp as int] + 1);
        }
        self.vect.push(Some(pj));
        proof {
            idset::lemma_with(prev.at(pp as int).chpj@, id);
            assert(pj.chpj@.to_set() =~= given.chpj@.to_set());
            assert forall|i: int| self.live(i) implies #[trigger] self.record_ok(i) by {
                let p = self.at(i);
                if i == id {
                    assert(self.name.has(p.name@, i as usize));
                } else {
                    assert(prev.live(i));
                    assert(prev.record_ok(i));
                    let q = prev.at(i);
                    assert(prev.record_ok(q.pp as int));
                    assert forall|k: int| 0 <= k < p.chpj@.len() implies {
                        let c = #[trigger] p.chpj@[k];
                        c != 0 && self.live(c as int) && self.at(c as int).pp == i
                    } by {
                        if k < q.chpj@.len() {
                            assert(prev.live(q.chpj@[k] as int));
                        }
                    }
                    assert forall|k: int| 0 <= k < p.deps@.len() implies {
                        let d = #[trigger] p.deps@[k];
                        &&& self.live(d as int)
                        &&& self.at(p.pp as int).chpj@.contains(d)
                        &&& self.at(d as int).deps_rvs@.contains(i as usize)
                    } by {
                        assert(prev.live(q.deps@[k] as int));
                    }
                    assert forall|k: int| 0 <= k < p.deps_rvs@.len() implies {
                        let r = #[trigger] p.deps_rvs@[k];
                        self.live(r as int) && self.at(r as int).deps@.contains(i as usize)
                    } by {
                        assert(prev.live(q.deps_rvs@[k] as int));
                    }
                    if p.deadline is Some {
                        assert(prev.time.has(p.deadline->0, i as usize));
                    }
                    assert(prev.name.has(q.name@, i as usize));
                }
            }
            assert forall|t: i64, i: usize| #[trigger] self.time.has(t, i) implies self.live(
                i as int,
            ) && self.at(i as int).deadline == Some(t) by {
                if !(pj.deadline == Some(t) && i == id) {
                    assert(prev.time.has(t, i));
                }
            }
            assert forall|s: Seq<char>, i: usize| #[trigger] self.name.has(s, i) implies self.live(
                i as int,
            ) && self.at(i as int).name@ == s by {
                if !(s == pj.name@ && i == id) {
                    assert(prev.name.has(s, i));
                }
            }
            assert(self@ =~= prev@.update(
                pp as int,
                Some(
                    PjView { chpj: prev.at(pp as int)@.chpj.insert(id), ..prev.at(pp as int)@ },
                ),
            ).push(Some(PjView { id, ..given@ })));
        }
        Ok(PjLog::Create { id })
    }

    /// Takes `pj` into the store, under the parent that it names and at
    /// the next free place. A new project has no children, no events and no
    /// dependencies yet, a name of its own, and is still to do.
    pub fn create(&mut self, pj: Pj) -> (r: Result<PjLog, PjErr>)
        requires
            old(self).wf(),
        ensures
            final(self).wf(),
            r matches Ok(log) ==> final(self).undoable(log) && final(self).undone(log) == old(self)@,
            r is Ok <==> old(self).create_error(pj) is None,
            r matches Ok(log) ==> {
                let n = old(self)@.len();
                let pp = pj.pp as int;
                &&& log == (PjLog::Create { id: n as usize })
                &&& final(self)@ == old(self)@.update(
                    pp,
                    Some(
                        PjView {
                            chpj: old(self).at(pp)@.chpj.insert(n as usize),
                            ..old(self).at(pp)@
                        },
                    ),
                ).push(Some(PjView { id: n as usize, ..pj@ }))
            },
            r matches Err(e) ==> *final(self) == *old(self) && Some(e) == old(self).create_error(
                pj,
            ),
    {
        let ghost prev = *self;
        let n = self.vect.len();
        let r = self.create_inner(pj);
        proof {
            if r is Ok {
                prev.lemma_undo_create(self, pj);
            }
        }
        r
    }

    /// Why the project `id` cannot be deleted, where it cannot.
    pub open(crate) spec fn delete_error(&self, id: int) -> Option<PjErr> {
        if !self.live(id) {
            Some(PjErr::InvalidProjectId)
        } else if self.at(id).deps@.len() != 0 || self.at(id).deps_rvs@.len() != 0 {
            Some(PjErr::BannedByPeerDependency)
        } else if self.at(id).chev@.len() != 0 || self.at(id).chpj@.len() != 0 {
            Some(PjErr::BannedByChildren)
        } else if id == 0 {
            Some(PjErr::InvalidProjectId)
        } else {
            None
        }
    }

    /// The change itself; what `delete` adds is that it can be taken back.
    fn delete_inner(&mut self, id: usize) -> (r: Result<PjLog, PjErr>)
        requires
            old(self).wf(),
        ensures
            final(self).wf(),
            r is Ok <==> old(self).delete_error(id as int) is None,
            r matches Ok(log) ==> {
                let pp = old(self).at(id as int).pp as int;
                &&& log matches PjLog::Delete { pj }
                &&& pj == old(self).at(id as int)
                &&& final(self)@ == old(self)@.update(
                    pp,
                    Some(
                        PjView { chpj: old(self).at(pp)@.chpj.remove(id), ..old(self).at(pp)@ },
                    ),
                ).update(id as int, None)
            },
            r matches Err(e) ==> *final(self) == *old(self) && Some(e) == old(self).delete_error(
                id as int,
            ),
    {
        if !self.has(id) {
            return Err(PjErr::InvalidProjectId);
        }
        let p = self.rec(id);
        if p.deps.len() != 0 || p.deps_rvs.len() != 0 {
            return Err(PjErr::BannedByPeerDependency);
        }
        if p.chev.len() != 0 || p.chpj.len() != 0 {
            return Err(PjErr::BannedByChildren);
        }
        if id == 0 {
            return Err(PjErr::InvalidProjectId);
        }
        let ghost prev = *self;
        let pp = p.pp;
        proof {
            assert(prev.record_ok(id as int));
            assert(prev.record_ok(pp as int));
        }
        match &mut self.vect[pp] {
            Some(q) => {
                idset::remove(&mut q.chpj, id);
            },
            None => {},
        }
        let pj = self.vect[id].take().unwrap();
        self.name.remove(pj.name.as_str());
        if let Some(t) = pj.deadline {
            self.time.remove(t, id);
        }
        proof {
            idset::lemma_without(prev.at(pp as int).chpj@, id);
            assert forall|i: int| self.live(i) implies #[trigger] self.record_ok(i) by {
                assert(prev.live(i));
                assert(prev.record_ok(i));
                let p = self.at(i);
                let q = prev.at(i);
                assert(prev.record_ok(q.pp as int));
                if q.pp == id {
                    assert(prev.at(id as int).chpj@.contains(i as usize));
                }
                assert forall|k: int| 0 <= k < p.chpj@.len() implies {
                    let c = #[trigger] p.chpj@[k];
                    c != 0 && self.live(c as int) && self.at(c as int).pp == i
                } by {
                    let c = p.chpj@[k];
                    assert(p.chpj@.contains(c));
                    assert(q.chpj@.contains(c));
                    let m = choose|m: int| 0 <= m < q.chpj@.len() && q.chpj@[m] == c;
                    assert(prev.live(q.chpj@[m] as int));
                }
                assert forall|k: int| 0 <= k < p.deps@.len() implies {
                    let d = #[trigger] p.deps@[k];
                    &&& self.live(d as int)
                    &&& self.at(p.pp as int).chpj@.contains(d)
                    &&& self.at(d as int).deps_rvs@.contains(i as usize)
                } by {
                    let d = q.deps@[k];
                    assert(prev.live(d as int));
                    if d == id {
                        assert(prev.at(id as int).deps_rvs@.contains(i as usize));
                    }
                }
                assert forall|k: int| 0 <= k < p.deps_rvs@.len() implies {
                    let r = #[trigger] p.deps_rvs@[k];
                    self.live(r as int) && self.at(r as int).deps@.contains(i as usize)
                } by {
                    let r = q.deps_rvs@[k];
                    assert(prev.live(r as int));
                    if r == id {
                        assert(prev.at(id as int).deps@.contains(i as usize));
                    }
                }
                if p.deadline is Some {
                    assert(prev.time.has(p.deadline->0, i as usize));
                }
                assert(prev.name.has(q.name@, i as usize));
                if q.name@ == pj.name@ {
                    prev.name.lemma_unique(pj.name@, i as usize, id);
                }
            }
            assert forall|t: i64, i: usize| #[trigger] self.time.has(t, i) implies self.live(
                i as int,
            ) && self.at(i as int).deadline == Some(t) by {
                assert(prev.time.has(t, i));
            }
            assert forall|s: Seq<char>, i: usize| #[trigger] self.name.has(s, i) implies self.live(
                i as int,
            ) && self.at(i as int).name@ == s by {
                assert(prev.name.has(s, i));
            }
            assert(self@ =~= prev@.update(
                pp as int,
                Some(
                    PjView { chpj: prev.at(pp as int)@.chpj.remove(id), ..prev.at(pp as int)@ },
                ),
            ).update(id as int, None));
        }
        Ok(PjLog::Delete { pj })
    }

    /// Deletes the project `id`, which leaves its place empty. A project
    /// with children, events or dependencies at either end stays, and so does
    /// the root.
    pub fn delete(&mut self, id: usize) -> (r: Result<PjLog, PjErr>)
        requires
            old(self).wf(),
        ensures
            final(self).wf(),
            r matches Ok(log) ==> final(self).undoable(log) && final(self).undone(log) == old(self)@,
            r is Ok <==> old(self).delete_error(id as int) is None,
            r matches Ok(log) ==> {
                let pp = old(self).at(id as int).pp as int;
                &&& log matches PjLog::Delete { pj }
                &&& pj == old(self).at(id as int)
                &&& final(self)@ == old(self)@.update(
                    pp,
                    Some(
                        PjView { chpj: old(self).at(pp)@.chpj.remove(id), ..old(self).at(pp)@ },
                    ),
                ).update(id as int, None)
            },
            r matches Err(e) ==> *final(self) == *old(self) && Some(e) == old(self).delete_error(
                id as int,
            ),
    {
        let ghost prev = *self;
        let n = self.vect.len();
        let r = self.delete_inner(id);
        proof {
            if r is Ok {
                prev.lemma_undo_delete(self, id as int);
            }
        }
        r
    }

    /// A project is no nearer to the root than what stands above it.
    pub(crate) proof fn lemma_above_rank(&self, a: int, x: int)
        requires
            self.wf(),
            self.above(a, x),
        ensures
            self.rank(a) <= self.rank(x),
        decreases self.rank(x),
    {
        if x != a {
            self.lemma_above_rank(a, self.at(x).pp as int);
        }
    }

    /// What stands above a project stands above its parent or is the project.
    pub(crate) proof fn lemma_above_step(&self, a: int, x: int)
        requires
            self.wf(),
            self.live(x),
            x != 0,
            x != a,
        ensures
            self.above(a, x) == self.above(a, self.at(x).pp as int),
    {
        assert(self.record_ok(x));
    }

    /// Whether `a` is `x` or stands above it.
    pub fn is_above(&self, a: usize, x: usize) -> (r: bool)
        requires
            self.wf(),
            self.live(x as int),
        ensures
            r == self.above(a as int, x as int),
    {
        let mut cur = x;
        loop
            invariant
                self.wf(),
                self.live(cur as int),
                self.above(a as int, x as int) == self.above(a as int, cur as int),
            decreases self.rank(cur as int),
        {
            if cur == a {
                return true;
            }
            if cur == 0 {
                return false;
            }
            proof {
                assert(self.record_ok(cur as int));
                self.lemma_above_step(a as int, cur as int);
            }
            cur = self.rec(cur).pp;
        }
    }

    /// Why the project `id` cannot move under `pp`, where it cannot.
    pub open(crate) spec fn move_error(&self, id: int, pp: int) -> Option<PjErr> {
        if !self.live(id) || id == 0 {
            Some(PjErr::InvalidProjectId)
        } else if self.at(id).pp != pp && (self.at(id).deps@.len() != 0 || self.at(
            id,
        ).deps_rvs@.len() != 0) {
            Some(PjErr::BannedByPeerDependency)
        } else if !self.live(pp) || self.above(id, pp) {
            Some(PjErr::InvalidProjectId)
        } else {
            None
        }
    }

    /// Moves the project `id`, with all below it, under `pp`.
    pub(crate) fn move_to(&mut self, id: usize, pp: usize)
        requires
            old(self).wf(),
            old(self).live(id as int),
            id != 0,
            old(self).live(pp as int),
            !old(self).above(id as int, pp as int),
            old(self).at(id as int).deps@.len() == 0,
            old(self).at(id as int).deps_rvs@.len() == 0,
            old(self).at(id as int).pp != pp,
        ensures
            final(self).wf(),
            final(self)@ == old(self)@.update(
                old(self).at(id as int).pp as int,
                Some(
                    PjView {
                        chpj: old(self).at(old(self).at(id as int).pp as int)@.chpj.remove(id),
                        ..old(self).at(old(self).at(id as int).pp as int)@
                    },
                ),
            ).update(
                pp as int,
                Some(
                    PjView {
                        chpj: old(self).at(pp as int)@.chpj.insert(id),
                        ..old(self).at(pp as int)@
                    },
                ),
            ).update(id as int, Some(PjView { pp, ..old(self).at(id as int)@ })),
            final(self).time == old(self).time,
            final(self).name == old(self).name,
            !final(self).above(id as int, old(self).at(id as int).pp as int),
    {
        let ghost prev = *self;
        let from = self.rec(id).pp;
        proof {
            assert(prev.record_ok(id as int));
            assert(prev.record_ok(from as int));
            assert(prev.record_ok(pp as int));
            assert(prev.above(id as int, id as int));
            if from == id {
                prev.lemma_above_rank(from as int, id as int);
            }
        }
        match &mut self.vect[from] {
            Some(q) => {
                idset::remove(&mut q.chpj, id);
            },
            None => {},
        }
        match &mut self.vect[pp] {
            Some(q) => {
                idset::insert(&mut q.chpj, id);
            },
            None => {},
        }
        match &mut self.vect[id] {
            Some(q) => {
                q.pp = pp;
            },
            None => {},
        }
        proof {
            let shift = prev.rank(pp as int) + 1 - prev.rank(id as int);
            self.depth@ = Seq::new(
                prev.depth@.len(),
                |x: int|
                    if prev.above(id as int, x) {
                        (prev.depth@[x] + shift) as nat
                    } else {
                        prev.depth@[x]
                    },
            );
            idset::lemma_without(prev.at(from as int).chpj@, id);
            idset::lemma_with(prev.at(pp as int).chpj@, id);
            assert forall|i: int| self.live(i) implies #[trigger] self.record_ok(i) by {
                assert(prev.live(i));
                assert(prev.record_ok(i));
                let p = self.at(i);
                let q = prev.at(i);
                assert(prev.record_ok(q.pp as int));
                if prev.above(id as int, i) {
                    prev.lemma_above_rank(id as int, i);
                }
                if i != 0 && i != id {
                    prev.lemma_above_step(id as int, i);
                    if prev.above(id as int, q.pp as int) {
                        prev.lemma_above_rank(id as int, q.pp as int);
                    }
                }
                assert forall|k: int| 0 <= k < p.chpj@.len() implies {
                    let c = #[trigger] p.chpj@[k];
                    c != 0 && self.live(c as int) && self.at(c as int).pp == i
                } by {
                    let c = p.chpj@[k];
                    assert(p.chpj@.contains(c));
                    if i == pp && c == id {
                    } else {
                        assert(q.chpj@.contains(c));
                        let m = choose|m: int| 0 <= m < q.chpj@.len() && q.chpj@[m] == c;
                        assert(prev.live(q.chpj@[m] as int));
                    }
                }
                assert forall|k: int| 0 <= k < p.deps@.len() implies {
                    let d = #[trigger] p.deps@[k];
                    &&& self.live(d as int)
                    &&& self.at(p.pp as int).chpj@.contains(d)
                    &&& self.at(d as int).deps_rvs@.contains(i as usize)
                } by {
                    let d = q.deps@[k];
                    assert(prev.live(d as int));
                    if d == id {
                        assert(prev.at(id as int).deps_rvs@.contains(i as usize));
                    }
                }
                assert forall|k: int| 0 <= k < p.deps_rvs@.len() implies {
                    let r = #[trigger] p.deps_rvs@[k];
                    self.live(r as int) && self.at(r as int).deps@.contains(i as usize)
                } by {
                    let r = q.deps_rvs@[k];
                    assert(prev.live(r as int));
                }
                if p.deadline is Some {
                    assert(prev.time.has(p.deadline->0, i as usize));
                }
                assert(prev.name.has(q.name@, i as usize));
            }
            assert forall|t: i64, i: usize| #[trigger] self.time.has(t, i) implies self.live(
                i as int,
            ) && self.at(i as int).deadline == Some(t) by {
                assert(prev.time.has(t, i));
            }
            assert forall|s: Seq<char>, i: usize| #[trigger] self.name.has(s, i) implies self.live(
                i as int,
            ) && self.at(i as int).name@ == s by {
                assert(prev.name.has(s, i));
            }
            assert(self@ =~= prev@.update(
                from as int,
                Some(
                    PjView {
                        chpj: prev.at(from as int)@.chpj.remove(id),
                        ..prev.at(from as int)@
                    },
                ),
            ).update(
                pp as int,
                Some(PjView { chpj: prev.at(pp as int)@.chpj.insert(id), ..prev.at(pp as int)@ }),
            ).update(id as int, Some(PjView { pp, ..prev.at(id as int)@ })));
            if prev.above(id as int, from as int) {
                prev.lemma_above_rank(id as int, from as int);
            }
            prev.lemma_above_kept(self, id as int, from as int);
        }
    }

    /// What did not stand under the project `id` before it moved does not
    /// stand under it afterwards.
    pub(crate) proof fn lemma_above_kept(&self, new: &PjStore, id: int, x: int)
        requires
            self.wf(),
            self.live(x),
            id != 0,
            !self.above(id, x),
            new.vect@.len() == self.vect@.len(),
            new.depth@.len() == self.depth@.len(),
            forall|i: int| 0 <= i < self.vect@.len() ==> (#[trigger] new.live(i) <==> self.live(i)),
            forall|i: int| self.live(i) && i != id ==> (#[trigger] new.at(i)).pp == self.at(i).pp,
            forall|i: int|
                0 <= i < self.depth@.len() && !self.above(id, i) ==> #[trigger] new.depth@[i]
                    == self.depth@[i],
        ensures
            !new.above(id, x),
        decreases self.rank(x),
    {
        if x != 0 {
            assert(self.record_ok(x));
            self.lemma_above_step(id, x);
            let p = self.at(x).pp as int;
            self.lemma_above_kept(new, id, p);
            assert(new.at(x).pp == self.at(x).pp);
            assert(new.depth@[x] == self.depth@[x]);
            assert(new.depth@[p] == self.depth@[p]);
        }
    }

    /// The change itself; what `update_pp` adds is that it can be taken back.
    fn update_pp_inner(&mut self, id: usize, pp: usize) -> (r: Result<PjLog, PjErr>)
        requires
            old(self).wf(),
        ensures
            final(self).wf(),
            r is Ok && old(self).at(id as int).pp != pp ==> !final(self).above(
                id as int,
                old(self).at(id as int).pp as int,
            ),
            r is Ok <==> old(self).move_error(id as int, pp as int) is None,
            r matches Ok(log) ==> {
                let from = old(self).at(id as int).pp;
                &&& log == (PjLog::Parent { id, old: from })
                &&& from == pp ==> *final(self) == *old(self)
                &&& from != pp ==> final(self)@ == old(self)@.update(
                    from as int,
                    Some(
                        PjView {
                            chpj: old(self).at(from as int)@.chpj.remove(id),
                            ..old(self).at(from as int)@
                        },
                    ),
                ).update(
                    pp as int,
                    Some(
                        PjView {
                            chpj: old(self).at(pp as int)@.chpj.insert(id),
                            ..old(self).at(pp as int)@
                        },
                    ),
                ).update(id as int, Some(PjView { pp, ..old(self).at(id as int)@ }))
            },
            r matches Err(e) ==> *final(self) == *old(self) && Some(e) == old(self).move_error(
                id as int,
                pp as int,
            ),
    {
        if !self.has(id) || id == 0 {
            return Err(PjErr::InvalidProjectId);
        }
        let p = self.rec(id);
        let from = p.pp;
        if from != pp && (p.deps.len() != 0 || p.deps_rvs.len() != 0) {
            return Err(PjErr::BannedByPeerDependency);
        }
        if !self.has(pp) {
            return Err(PjErr::InvalidProjectId);
        }
        if self.is_above(id, pp) {
            return Err(PjErr::InvalidProjectId);
        }
        if from != pp {
            self.move_to(id, pp);
        }
        Ok(PjLog::Parent { id, old: from })
    }

    /// Moves the project `id`, with all below it, under the project `pp`.
    /// The root does not move, no project moves under itself or under one
    /// below it, and one with dependencies at either end stays among its
    /// siblings.
    pub fn update_pp(&mut self, id: usize, pp: usize) -> (r: Result<PjLog, PjErr>)
        requires
            old(self).wf(),
        ensures
            final(self).wf(),
            r matches Ok(log) ==> final(self).undoable(log) && final(self).undone(log) == old(self)@,
            r is Ok <==> old(self).move_error(id as int, pp as int) is None,
            r matches Ok(log) ==> {
                let from = old(self).at(id as int).pp;
                &&& log == (PjLog::Parent { id, old: from })
                &&& from == pp ==> *final(self) == *old(self)
                &&& from != pp ==> final(self)@ == old(self)@.update(
                    from as int,
                    Some(
                        PjView {
                            chpj: old(self).at(from as int)@.chpj.remove(id),
                            ..old(self).at(from as int)@
                        },
                    ),
                ).update(
                    pp as int,
                    Some(
                        PjView {
                            chpj: old(self).at(pp as int)@.chpj.insert(id),
                            ..old(self).at(pp as int)@
                        },
                    ),
                ).update(id as int, Some(PjView { pp, ..old(self).at(id as int)@ }))
            },
            r matches Err(e) ==> *final(self) == *old(self) && Some(e) == old(self).move_error(
                id as int,
                pp as int,
            ),
    {
        let ghost prev = *self;
        let n = self.vect.len();
        let r = self.update_pp_inner(id, pp);
        proof {
            if r is Ok {
                prev.lemma_undo_parent(self, id as int, pp);
            }
        }
        r
    }

    /// The project `i` is `id` or below it, and still to do.
    pub open(crate) spec fn marked(&self, id: int, i: int) -> bool {
        self.live(i) && self.above(id, i) && self.at(i).state == State::Todo
    }

    /// The store with the state `state` on the projects of `ids`.
    pub open(crate) spec fn with_states(&self, ids: Seq<usize>, state: State) -> Seq<
        Option<PjView>,
    > {
        Seq::new(
            self@.len(),
            |i: int|
                if self.live(i) && ids.contains(i as usize) {
                    Some(PjView { state, ..self.at(i)@ })
                } else {
                    self@[i]
                },
        )
    }

    /// Gives the state `state` to the projects of `ids`.
    pub(crate) fn set_states(&mut self, ids: &Vec<usize>, state: State)
        requires
            old(self).wf(),
            forall|k: int| 0 <= k < ids@.len() ==> old(self).live(#[trigger] ids@[k] as int),
        ensures
            final(self).wf(),
            final(self)@ == old(self).with_states(ids@, state),
            final(self).depth == old(self).depth,
    {
        let ghost prev = *self;
        let n = self.vect.len();
        let mut k: usize = 0;
        while k < ids.len()
            invariant
                k <= ids@.len(),
                prev.wf(),
                prev.vect@.len() == n,
                forall|m: int| 0 <= m < ids@.len() ==> prev.live(#[trigger] ids@[m] as int),
                self.vect@.len() == prev.vect@.len(),
                self.name == prev.name,
                self.time == prev.time,
                self.depth == prev.depth,
                forall|j: int|
                    0 <= j < prev.vect@.len() ==> (#[trigger] self.live(j) <==> prev.live(j)),
                forall|j: int|
                    prev.live(j) ==> #[trigger] self.at(j) == (Pj {
                        state: if ids@.subrange(0, k as int).contains(j as usize) {
                            state
                        } else {
                            prev.at(j).state
                        },
                        ..prev.at(j)
                    }),
            decreases ids@.len() - k,
        {
            let id = ids[k];
            let ghost mid = *self;
            match &mut self.vect[id] {
                Some(p) => {
                    p.state = state;
                },
                None => {},
            }
            proof {
                let before = ids@.subrange(0, k as int);
                let after = ids@.subrange(0, k + 1);
                assert(after =~= before.push(id));
                assert(after[k as int] == id);
                assert(prev.live(ids@[k as int] as int));
                assert(mid.live(id as int) <==> prev.live(id as int));
                assert forall|j: int| 0 <= j < prev.vect@.len() implies (#[trigger] self.live(j)
                    <==> prev.live(j)) by {
                    assert(mid.live(j) <==> prev.live(j));
                }
                assert forall|j: int| prev.live(j) implies #[trigger] self.at(j) == (Pj {
                    state: if after.contains(j as usize) {
                        state
                    } else {
                        prev.at(j).state
                    },
                    ..prev.at(j)
                }) by {
                    assert(mid.at(j) == (Pj {
                        state: if before.contains(j as usize) {
                            state
                        } else {
                            prev.at(j).state
                        },
                        ..prev.at(j)
                    }));
                    if before.contains(j as usize) {
                        let m = choose|m: int| 0 <= m < before.len() && before[m] == j as usize;
                        assert(after[m] == j as usize);
                    }
                    if j == id {
                        assert(after[k as int] == id);
                    }
                    if after.contains(j as usize) && j != id {
                        let m = choose|m: int| 0 <= m < after.len() && after[m] == j as usize;
                        assert(j as usize == j);
                        assert(m != k);
                        assert(before[m] == j as usize);
                    }
                }
            }
            k += 1;
        }
        proof {
            assert(ids@.subrange(0, k as int) =~= ids@);
            assert forall|j: int| prev.live(j) implies {
                &&& same_links(#[trigger] self.at(j), prev.at(j))
                &&& self.at(j).quota_done <= self.at(j).quota_esti
                &&& self.at(j).chev@.no_duplicates()
            } by {
                assert(prev.record_ok(j));
            }
            prev.lemma_own_changes(self);
            assert forall|i: int| 0 <= i < self@.len() implies self@[i] == prev.with_states(
                ids@,
                state,
            )[i] by {
                assert(self.live(i) <==> prev.live(i));
                if prev.live(i) {
                    assert(self.at(i) == (Pj {
                        state: if ids@.contains(i as usize) {
                            state
                        } else {
                            prev.at(i).state
                        },
                        ..prev.at(i)
                    }));
                }
            }
            assert(self@ =~= prev.with_states(ids@, state));
        }
    }

    /// The change itself; what `update_state` adds is that it can be taken back.
    pub(crate) fn update_state_inner(&mut self, id: usize, state: State) -> (r: Result<PjLog, PjErr>)
        requires
            old(self).wf(),
        ensures
            final(self).wf(),
            final(self).ranks() == old(self).ranks(),
            r is Ok <==> old(self).live(id as int) && (old(self).at(id as int).state
                == State::Todo || old(self).at(id as int).state == state),
            r matches Ok(log) ==> {
                &&& log matches PjLog::State { ids }
                &&& forall|i: usize|
                    ids@.contains(i) <==> state != old(self).at(id as int).state && #[trigger] old(
                        self,
                    ).marked(id as int, i as int)
                &&& forall|a: int, b: int| 0 <= a < b < ids@.len() ==> ids@[a] < ids@[b]
                &&& final(self)@ == old(self).with_states(ids@, state)
            },
            r matches Err(e) ==> {
                &&& *final(self) == *old(self)
                &&& e == if old(self).live(id as int) {
                    PjErr::InvalidStateChange
                } else {
                    PjErr::InvalidProjectId
                }
            },
    {
        if !self.has(id) {
            return Err(PjErr::InvalidProjectId);
        }
        let was = self.rec(id).state;
        if was != State::Todo && was != state {
            return Err(PjErr::InvalidStateChange);
        }
        let mut ids: Vec<usize> = Vec::new();
        if state != was {
            let mut i: usize = 0;
            while i < self.vect.len()
                invariant
                    self.wf(),
                    i <= self.vect@.len(),
                    forall|j: usize|
                        ids@.contains(j) <==> j < i && #[trigger] self.marked(id as int, j as int),
                    forall|a: int, b: int| 0 <= a < b < ids@.len() ==> ids@[a] < ids@[b],
                    forall|a: int| 0 <= a < ids@.len() ==> ids@[a] < i,
                decreases self.vect@.len() - i,
            {
                let ghost before = ids@;
                let mut hit = false;
                if self.has(i) {
                    if self.rec(i).state == State::Todo {
                        hit = self.is_above(id, i);
                    }
                }
                if hit {
                    ids.push(i);
                }
                proof {
                    assert forall|j: usize| ids@.contains(j) <==> j < i + 1 && #[trigger] self.marked(
                        id as int,
                        j as int,
                    ) by {
                        if ids@.contains(j) {
                            let m = choose|m: int| 0 <= m < ids@.len() && ids@[m] == j;
                            if m < before.len() {
                                assert(before[m] == j);
                                assert(before.contains(j));
                            }
                        }
                        if j < i && self.marked(id as int, j as int) {
                            assert(before.contains(j));
                            let m = choose|m: int| 0 <= m < before.len() && before[m] == j;
                            assert(ids@[m] == j);
                        }
                        if j == i && hit {
                            assert(ids@[ids@.len() - 1] == j);
                        }
                    }
                }
                i += 1;
            }
        }
        proof {
            assert forall|k: int| 0 <= k < ids@.len() implies self.live(#[trigger] ids@[k] as int) by {
                assert(ids@.contains(ids@[k]));
                assert(self.marked(id as int, ids@[k] as int));
            }
        }
        self.set_states(&ids, state);
        Ok(PjLog::State { ids })
    }

    /// Gives the project `id` the state `state`. A project that leaves
    /// `Todo` takes with it all the projects below it that are still to do;
    /// one that is done or given up keeps its state, and so do then the
    /// projects below it.
    pub fn update_state(&mut self, id: usize, state: State) -> (r: Result<PjLog, PjErr>)
        requires
            old(self).wf(),
        ensures
            final(self).wf(),
            r matches Ok(log) ==> final(self).undoable(log) && final(self).undone(log) == old(self)@,
            final(self).ranks() == old(self).ranks(),
            r is Ok <==> old(self).live(id as int) && (old(self).at(id as int).state
                == State::Todo || old(self).at(id as int).state == state),
            r matches Ok(log) ==> {
                &&& log matches PjLog::State { ids }
                &&& forall|i: usize|
                    ids@.contains(i) <==> state != old(self).at(id as int).state && #[trigger] old(
                        self,
                    ).marked(id as int, i as int)
                &&& forall|a: int, b: int| 0 <= a < b < ids@.len() ==> ids@[a] < ids@[b]
                &&& final(self)@ == old(self).with_states(ids@, state)
            },
            r matches Err(e) ==> {
                &&& *final(self) == *old(self)
                &&& e == if old(self).live(id as int) {
                    PjErr::InvalidStateChange
                } else {
                    PjErr::InvalidProjectId
                }
            },
    {
        let ghost prev = *self;
        let n = self.vect.len();
        match self.update_state_inner(id, state) {
            Ok(PjLog::State { ids }) => {
                proof {
                    assert forall|i: usize| #[trigger]
                        prev.marked(id as int, i as int) && state != prev.at(id as int).state
                        implies ids@.contains(i) by {}
                    assert forall|i: usize| #[trigger]
                        ids@.contains(i) implies prev.marked(id as int, i as int) by {}
                    prev.lemma_undo_state(self, id as int, state, ids@);
                }
                Ok(PjLog::State { ids })
            },
            other => other,
        }
    }

    /// The store in which the project `id` depends on the projects of
    /// `deps` and on no others.
    pub open(crate) spec fn with_deps(&self, id: int, deps: Set<usize>) -> Seq<Option<PjView>> {
        Seq::new(
            self@.len(),
            |i: int|
                if !self.live(i) {
                    None
                } else {
                    Some(
                        PjView {
                            deps: if i == id {
                                deps
                            } else {
                                self.at(i)@.deps
                            },
                            deps_rvs: if deps.contains(i as usize) {
                                self.at(i)@.deps_rvs.insert(id as usize)
                            } else {
                                self.at(i)@.deps_rvs.remove(id as usize)
                            },
                            ..self.at(i)@
                        },
                    )
                },
        )
    }

    /// Those of `wanted` that the project `id` can depend on: the children
    /// of its parent, itself among them only where `own` says so.
    pub open(crate) spec fn peers_among(&self, id: int, wanted: Seq<usize>, own: bool) -> Set<
        usize,
    > {
        Set::new(|d: usize| wanted.contains(d) && self.peer(id, d) && (own || d != id))
    }

    /// Makes the project `id` depend on those of `wanted` that are children
    /// of its parent, on itself only where `own` allows it, and on no other
    /// project.
    pub(crate) fn set_deps(&mut self, id: usize, wanted: &Vec<usize>, own: bool)
        requires
            old(self).wf(),
            old(self).live(id as int),
        ensures
            final(self).wf(),
            final(self)@ == old(self).with_deps(
                id as int,
                old(self).peers_among(id as int, wanted@, own),
            ),
            final(self).depth == old(self).depth,
            final(self).time == old(self).time,
            final(self).name == old(self).name,
            forall|i: int|
                old(self).live(i) ==> final(self).live(i) && (#[trigger] final(self).at(i)).pp
                    == old(self).at(i).pp && final(self).at(i).chpj == old(self).at(i).chpj,
    {
        let ghost prev = *self;
        proof {
            prev.lemma_view();
            assert forall|i: int| prev.live(i) implies (#[trigger] prev.at(i))@.deps_rvs
                == if prev.at(id as int)@.deps.contains(i as usize) {
                prev.at(i)@.deps_rvs
            } else {
                prev.at(i)@.deps_rvs.remove(id)
            } by {
                if !prev.at(id as int)@.deps.contains(i as usize) {
                    if prev.at(i).deps_rvs@.contains(id) {
                        assert(prev.record_ok(i));
                        let m = choose|m: int|
                            0 <= m < prev.at(i).deps_rvs@.len() && prev.at(i).deps_rvs@[m] == id;
                        assert(prev.at(prev.at(i).deps_rvs@[m] as int).deps@.contains(i as usize));
                    }
                    assert(prev.at(i)@.deps_rvs =~= prev.at(i)@.deps_rvs.remove(id));
                }
            }
        }
        // First the edges that are there leave, one by one.
        let n = self.vect.len();
        let mut count = self.rec(id).deps.len();
        while count > 0
            invariant
                prev.wf(),
                n == prev.vect@.len(),
                self.wf(),
                prev.live(id as int),
                self.live(id as int),
                count == self.at(id as int).deps@.len(),
                self.vect@.len() == prev.vect@.len(),
                self.depth == prev.depth,
                self.time == prev.time,
                self.name == prev.name,
                forall|i: int|
                    0 <= i < prev.vect@.len() ==> (#[trigger] self.live(i) <==> prev.live(i)),
                forall|i: int|
                    prev.live(i) ==> {
                        &&& #[trigger] self.at(i) == (Pj {
                            deps: self.at(i).deps,
                            deps_rvs: self.at(i).deps_rvs,
                            ..prev.at(i)
                        })
                        &&& i != id ==> self.at(i).deps == prev.at(i).deps
                        &&& self.at(i)@.deps_rvs == if self.at(id as int)@.deps.contains(
                            i as usize,
                        ) {
                            prev.at(i)@.deps_rvs
                        } else {
                            prev.at(i)@.deps_rvs.remove(id)
                        }
                    },
            decreases count,
        {
            let d = self.rec(id).deps[0];
            let ghost mid = *self;
            proof {
                assert(mid.record_ok(id as int));
                assert(mid.live(mid.at(id as int).deps@[0] as int));
                assert(mid.at(id as int).deps@.contains(d));
                crate::idset::lemma_without(mid.at(id as int).deps@, d);
                crate::idset::lemma_without(mid.at(d as int).deps_rvs@, id);
            }
            self.unlink(id, d);
            proof {
                assert forall|i: int| 0 <= i < prev.vect@.len() implies (#[trigger] self.live(i)
                    <==> prev.live(i)) by {
                    assert(mid.live(i) <==> prev.live(i));
                }
                assert forall|i: int| prev.live(i) implies {
                    &&& #[trigger] self.at(i) == (Pj {
                        deps: self.at(i).deps,
                        deps_rvs: self.at(i).deps_rvs,
                        ..prev.at(i)
                    })
                    &&& i != id ==> self.at(i).deps == prev.at(i).deps
                    &&& self.at(i)@.deps_rvs == if self.at(id as int)@.deps.contains(
                        i as usize,
                    ) {
                        prev.at(i)@.deps_rvs
                    } else {
                        prev.at(i)@.deps_rvs.remove(id)
                    }
                } by {
                    assert(mid.live(i));
                    assert(mid.at(i) == (Pj {
                        deps: mid.at(i).deps,
                        deps_rvs: mid.at(i).deps_rvs,
                        ..prev.at(i)
                    }));
                    if i == d {
                        assert(self.at(i)@.deps_rvs =~= prev.at(i)@.deps_rvs.remove(id));
                    } else if i != id {
                        assert(self.vect@[i] == mid.vect@[i]);
                    }
                }
            }
            count = self.rec(id).deps.len();
        }
        proof {
            assert(self.at(id as int)@.deps =~= Set::<usize>::empty());
            assert(prev.peers_among(id as int, wanted@.subrange(0, 0), own) =~= Set::<usize>::empty());
            assert forall|i: int| prev.live(i) implies (#[trigger] self.at(i))@.deps_rvs
                == prev.at(i)@.deps_rvs.remove(id) by {
                assert(self.at(i) == (Pj {
                    deps: self.at(i).deps,
                    deps_rvs: self.at(i).deps_rvs,
                    ..prev.at(i)
                }));
            }
        }
        // Then those of the wanted ones that are siblings come in.
        let pp = self.rec(id).pp;
        let mut j: usize = 0;
        while j < wanted.len()
            invariant
                j <= wanted@.len(),
                prev.wf(),
                n == prev.vect@.len(),
                self.wf(),
                prev.live(id as int),
                self.live(id as int),
                pp == prev.at(id as int).pp,
                self.vect@.len() == prev.vect@.len(),
                self.depth == prev.depth,
                self.time == prev.time,
                self.name == prev.name,
                forall|i: int|
                    0 <= i < prev.vect@.len() ==> (#[trigger] self.live(i) <==> prev.live(i)),
                forall|i: int|
                    prev.live(i) ==> {
                        &&& #[trigger] self.at(i) == (Pj {
                            deps: self.at(i).deps,
                            deps_rvs: self.at(i).deps_rvs,
                            ..prev.at(i)
                        })
                        &&& i != id ==> self.at(i).deps == prev.at(i).deps
                        &&& self.at(i)@.deps_rvs == if self.at(id as int)@.deps.contains(
                            i as usize,
                        ) {
                            prev.at(i)@.deps_rvs.insert(id)
                        } else {
                            prev.at(i)@.deps_rvs.remove(id)
                        }
                    },
                self.at(id as int)@.deps == prev.peers_among(
                    id as int,
                    wanted@.subrange(0, j as int),
                    own,
                ),
            decreases wanted@.len() - j,
        {
            let d = wanted[j];
            let ghost mid = *self;
            proof {
                assert(mid.record_ok(id as int));
                assert(prev.record_ok(id as int));
                assert(prev.live(pp as int));
                assert(mid.at(pp as int) == (Pj {
                    deps: mid.at(pp as int).deps,
                    deps_rvs: mid.at(pp as int).deps_rvs,
                    ..prev.at(pp as int)
                }));
                assert(mid.peer(id as int, d) == prev.peer(id as int, d));
                let before = prev.peers_among(id as int, wanted@.subrange(0, j as int), own);
                let after = prev.peers_among(id as int, wanted@.subrange(0, j + 1), own);
                assert forall|x: usize| after.contains(x) <==> before.contains(x) || (x == d
                    && prev.peer(id as int, d) && (own || d != id)) by {
                    let s0 = wanted@.subrange(0, j as int);
                    let s1 = wanted@.subrange(0, j + 1);
                    if s1.contains(x) {
                        let m = choose|m: int| 0 <= m < s1.len() && s1[m] == x;
                        if m < j {
                            assert(s0[m] == x);
                        }
                    }
                    if s0.contains(x) {
                        let m = choose|m: int| 0 <= m < s0.len() && s0[m] == x;
                        assert(s1[m] == x);
                    }
                    assert(s1[j as int] == d);
                }
                if !(prev.peer(id as int, d) && (own || d != id)) {
                    assert(after =~= before);
                }
            }
            if id != 0 && (own || d != id) && idset::contains(&self.rec(pp).chpj, d) {
                proof {
                    let m = choose|m: int|
                        0 <= m < mid.at(pp as int).chpj@.len() && mid.at(pp as int).chpj@[m] == d;
                    assert(mid.record_ok(pp as int));
                    assert(mid.live(mid.at(pp as int).chpj@[m] as int));
                    crate::idset::lemma_with(mid.at(id as int).deps@, d);
                    crate::idset::lemma_with(mid.at(d as int).deps_rvs@, id);
                }
                self.link(id, d);
                proof {
                    let after = prev.peers_among(id as int, wanted@.subrange(0, j + 1), own);
                    assert(self.at(id as int)@.deps =~= after);
                    assert forall|i: int| 0 <= i < prev.vect@.len() implies (#[trigger] self.live(
                        i,
                    ) <==> prev.live(i)) by {
                        assert(mid.live(i) <==> prev.live(i));
                    }
                    assert forall|i: int| prev.live(i) implies {
                        &&& #[trigger] self.at(i) == (Pj {
                            deps: self.at(i).deps,
                            deps_rvs: self.at(i).deps_rvs,
                            ..prev.at(i)
                        })
                        &&& i != id ==> self.at(i).deps == prev.at(i).deps
                        &&& self.at(i)@.deps_rvs == if self.at(
                            id as int,
                        )@.deps.contains(i as usize) {
                            prev.at(i)@.deps_rvs.insert(id)
                        } else {
                            prev.at(i)@.deps_rvs.remove(id)
                        }
                    } by {
                        assert(mid.live(i));
                        assert(mid.at(i) == (Pj {
                            deps: mid.at(i).deps,
                            deps_rvs: mid.at(i).deps_rvs,
                            ..prev.at(i)
                        }));
                        if i == d {
                            assert(self.at(i)@.deps_rvs =~= prev.at(i)@.deps_rvs.insert(id));
                        } else if i != id {
                            assert(self.vect@[i] == mid.vect@[i]);
                        }
                    }
                }
            }
            j += 1;
        }
        proof {
            assert(wanted@.subrange(0, j as int) =~= wanted@);
            let goal = prev.with_deps(id as int, prev.peers_among(id as int, wanted@, own));
            self.lemma_view();
            assert forall|i: int| 0 <= i < self@.len() implies self@[i] == goal[i] by {
                assert(self.live(i) <==> prev.live(i));
                if prev.live(i) {
                    assert(self.at(i) == (Pj {
                        deps: self.at(i).deps,
                        deps_rvs: self.at(i).deps_rvs,
                        ..prev.at(i)
                    }));
                    assert(self@[i] == Some(self.at(i)@));
                }
            }
            assert(self@ =~= goal);
            assert forall|i: int| prev.live(i) implies self.live(i) && (#[trigger] self.at(i)).pp
                == prev.at(i).pp && self.at(i).chpj == prev.at(i).chpj by {
                assert(self.at(i) == (Pj {
                    deps: self.at(i).deps,
                    deps_rvs: self.at(i).deps_rvs,
                    ..prev.at(i)
                }));
            }
        }
    }

    /// Sets what a project holds for itself alone.
    pub(crate) fn set_own(
        &mut self,
        id: usize,
        quota: (usize, usize),
        weight: usize,
        color: (u8, u8, u8),
        limit: usize,
    )
        requires
            old(self).wf(),
            old(self).live(id as int),
            quota.0 <= quota.1,
        ensures
            final(self).wf(),
            final(self).depth == old(self).depth,
            final(self)@ == old(self)@.update(
                id as int,
                Some(
                    PjView {
                        quota_done: quota.0,
                        quota_esti: quota.1,
                        weight,
                        color,
                        limit,
                        ..old(self).at(id as int)@
                    },
                ),
            ),
    {
        let ghost prev = *self;
        match &mut self.vect[id] {
            Some(p) => {
                p.quota_done = quota.0;
                p.quota_esti = quota.1;
                p.weight = weight;
                p.color = color;
                p.limit = limit;
            },
            None => {},
        }
        proof {
            assert(prev.record_ok(id as int));
            prev.lemma_own_change(self, id as int);
            assert(self@ =~= prev@.update(
                id as int,
                Some(
                    PjView {
                        quota_done: quota.0,
                        quota_esti: quota.1,
                        weight,
                        color,
                        limit,
                        ..prev.at(id as int)@
                    },
                ),
            ));
        }
    }

    /// Two stores with the same projects under the same parents at the same
    /// distances from the root have the same projects above each other.
    pub(crate) proof fn lemma_above_same(&self, other: &PjStore, a: int, x: int)
        requires
            self.ranks() == other.ranks(),
            self@.len() == other@.len(),
            forall|i: int| #![trigger self@[i]]
                0 <= i < self@.len() ==> (self@[i] is Some <==> other@[i] is Some) && (
                self@[i] is Some ==> self@[i]->0.pp == other@[i]->0.pp),
        ensures
            self.above(a, x) == other.above(a, x),
        decreases self.rank(x),
    {
        self.lemma_view();
        other.lemma_view();
        if x != a && self.live(x) && x != 0 {
            assert(self@[x] == Some(self.at(x)@));
            assert(other@[x] == Some(other.at(x)@));
            let p = self.at(x).pp as int;
            if self.rank(p) < self.rank(x) {
                self.lemma_above_same(other, a, p);
            }
        } else if x != a && x != 0 {
            if 0 <= x < self@.len() {
                assert(self@[x] is None);
                assert(other@[x] is None);
            }
        }
    }

    /// What stands under a child of a project stands under the project.
    pub(crate) proof fn lemma_above_child(&self, p: int, c: int, x: int)
        requires
            self.wf(),
            self.live(c),
            c != 0,
            self.at(c).pp == p,
            self.above(c, x),
        ensures
            self.above(p, x),
        decreases self.rank(x),
    {
        assert(self.record_ok(c));
        if x == c {
            assert(self.above(p, p));
        } else {
            self.lemma_above_child(p, c, self.at(x).pp as int);
        }
    }

    /// Two projects as far from the root as each other that stand above
    /// the same project are one project.
    pub(crate) proof fn lemma_above_one(&self, a: int, b: int, x: int)
        requires
            self.wf(),
            self.above(a, x),
            self.above(b, x),
            self.rank(a) == self.rank(b),
        ensures
            a == b,
        decreases self.rank(x),
    {
        if x == a {
            if b != a {
                self.lemma_above_rank(b, self.at(x).pp as int);
            }
        } else if x == b {
            self.lemma_above_rank(a, self.at(x).pp as int);
        } else {
            self.lemma_above_one(a, b, self.at(x).pp as int);
        }
    }
}

} // verus!
