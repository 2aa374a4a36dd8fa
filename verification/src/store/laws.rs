//! What holds of every store that is in order, and so of every store that
//! the operations can reach: they begin with a store in order and keep it so.

use vstd::prelude::*;
use crate::store::ev::EvStore;
use crate::store::pj::PjStore;

verus! {

impl PjStore {
    /// No two projects bear the same name.
    pub proof fn lemma_names_distinct(&self, i: int, j: int)
        requires
            self.wf(),
            self.live(i),
            self.live(j),
            i != j,
        ensures
            self.at(i).name@ != self.at(j).name@,
    {
        assert(self.record_ok(i));
        assert(self.record_ok(j));
        if self.at(i).name@ == self.at(j).name@ {
            self.name.lemma_unique(self.at(i).name@, i as usize, j as usize);
        }
    }

    /// Every project but the root is among the children of its parent, and
    /// what is among the children of a project has that project for parent.
    pub proof fn lemma_children_agree(&self, p: int, x: int)
        requires
            self.wf(),
            self.live(x),
            x != 0,
        ensures
            self.live(self.at(x).pp as int),
            self.at(self.at(x).pp as int).chpj@.contains(x as usize),
            self.live(p) && self.at(p).chpj@.contains(x as usize) ==> self.at(x).pp == p,
    {
        assert(self.record_ok(x));
        if self.live(p) && self.at(p).chpj@.contains(x as usize) {
            assert(self.record_ok(p));
            let k = choose|k: int| 0 <= k < self.at(p).chpj@.len() && self.at(p).chpj@[k] == x;
            assert(self.at(self.at(p).chpj@[k] as int).pp == p);
        }
    }

    /// `path` leads from a project down to one below it, each step from a
    /// project to one of its children.
    pub open(crate) spec fn descends(&self, path: Seq<usize>) -> bool {
        &&& path.len() >= 1
        &&& self.live(path[0] as int)
        &&& forall|k: int|
            0 <= k < path.len() - 1 ==> self.live(#[trigger] path[k] as int) && self.at(
                path[k] as int,
            ).chpj@.contains(path[k + 1])
    }

    /// Each step down leads one further from the root.
    proof fn lemma_descent(&self, path: Seq<usize>)
        requires
            self.wf(),
            self.descends(path),
        ensures
            self.live(path.last() as int),
            self.rank(path.last() as int) == self.rank(path[0] as int) + path.len() - 1,
        decreases path.len(),
    {
        if path.len() > 1 {
            let shorter = path.drop_last();
            assert(self.descends(shorter)) by {
                assert forall|k: int| 0 <= k < shorter.len() - 1 implies self.live(
                    #[trigger] shorter[k] as int,
                ) && self.at(shorter[k] as int).chpj@.contains(shorter[k + 1]) by {
                    assert(shorter[k] == path[k]);
                    assert(self.live(path[k] as int));
                }
            }
            self.lemma_descent(shorter);
            let p = path[path.len() - 2] as int;
            let c = path.last();
            assert(shorter.last() == path[path.len() - 2]);
            assert(self.live(path[path.len() - 2] as int));
            assert(self.at(p).chpj@.contains(c));
            assert(self.record_ok(p));
            let k = choose|k: int| 0 <= k < self.at(p).chpj@.len() && self.at(p).chpj@[k] == c;
            assert(self.live(self.at(p).chpj@[k] as int));
            assert(self.record_ok(c as int));
        }
    }

    /// No project is reached from itself by steps from a project to one of
    /// its children.
    pub proof fn lemma_no_cycle(&self, path: Seq<usize>)
        requires
            self.wf(),
            self.descends(path),
            path.len() >= 2,
        ensures
            path.last() != path[0],
    {
        self.lemma_descent(path);
    }

    /// `x` depends on `y` exactly where `y` knows that `x` depends on it,
    /// and then the two are children of one parent.
    pub proof fn lemma_dependency_symmetry(&self, x: int, y: int)
        requires
            self.wf(),
            0 <= x <= usize::MAX,
            0 <= y <= usize::MAX,
        ensures
            (self.live(x) && self.at(x).deps@.contains(y as usize)) <==> (self.live(y) && self.at(
                y,
            ).deps_rvs@.contains(x as usize)),
            self.live(x) && self.at(x).deps@.contains(y as usize) ==> self.at(x).pp == self.at(
                y,
            ).pp,
    {
        if self.live(x) && self.at(x).deps@.contains(y as usize) {
            assert(self.record_ok(x));
            let k = choose|k: int| 0 <= k < self.at(x).deps@.len() && self.at(x).deps@[k] == y;
            assert(self.live(self.at(x).deps@[k] as int));
            let pp = self.at(x).pp as int;
            assert(self.record_ok(pp));
            let m = choose|m: int| 0 <= m < self.at(pp).chpj@.len() && self.at(pp).chpj@[m] == y;
            assert(self.at(self.at(pp).chpj@[m] as int).pp == pp);
        }
        if self.live(y) && self.at(y).deps_rvs@.contains(x as usize) {
            assert(self.record_ok(y));
            let k = choose|k: int|
                0 <= k < self.at(y).deps_rvs@.len() && self.at(y).deps_rvs@[k] == x;
            assert(self.live(self.at(y).deps_rvs@[k] as int));
        }
    }

    /// No project has done more than is estimated for it.
    pub proof fn lemma_done_within_estimate(&self, i: int)
        requires
            self.wf(),
            self.live(i),
        ensures
            self.at(i).quota_done <= self.at(i).quota_esti,
    {
        assert(self.record_ok(i));
    }
}

impl EvStore {
    /// No two events bear the same name or fall on the same time.
    pub proof fn lemma_events_distinct(&self, i: int, j: int)
        requires
            self.wf(),
            self.live(i),
            self.live(j),
            i != j,
        ensures
            self.at(i).name@ != self.at(j).name@,
            self.at(i).time != self.at(j).time,
    {
        assert(self.at(i).id == i);
        assert(self.at(j).id == j);
        if self.at(i).name@ == self.at(j).name@ {
            self.name.lemma_unique(self.at(i).name@, i as usize, j as usize);
        }
    }
}

} // verus!
