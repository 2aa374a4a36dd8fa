//! Walks over the projects: down the tree and along the dependencies.

use vstd::prelude::*;
use crate::data::{Data, State};
use crate::idset;

verus! {

impl Data {
    /// The projects below the first `k` children of the project `id`, each
    /// child behind all that is below it.
    pub open(crate) spec fn below_upto(&self, id: int, k: int) -> Seq<usize>
        decreases self.projects().room(id), k,
    {
        if k <= 0 || k > self.pj.at(id).chpj@.len() {
            Seq::empty()
        } else {
            let c = self.pj.at(id).chpj@[k - 1] as int;
            self.below_upto(id, k - 1) + if self.pj.room(c) < self.pj.room(id) {
                self.below(c)
            } else {
                Seq::empty()
            }
        }
    }

    /// The project `id` behind all the projects below it, those of one
    /// child after those of the child before it.
    pub open(crate) spec fn below(&self, id: int) -> Seq<usize>
        decreases self.projects().room(id), self.projects().at(id).chpj@.len() + 1,
    {
        self.below_upto(id, self.pj.at(id).chpj@.len() as int).push(id as usize)
    }

    /// The project `id` behind all the projects below it.
    pub fn recursive_children(&self, id: usize) -> (out: Vec<usize>)
        requires
            self.wf(),
            self.projects().live(id as int),
        ensures
            out@ == self.below(id as int),
        decreases self.projects().room(id as int),
    {
        let p = self.pj.rec(id);
        let mut out: Vec<usize> = Vec::new();
        let mut k: usize = 0;
        proof {
            assert(out@ =~= self.below_upto(id as int, 0));
        }
        while k < p.chpj.len()
            invariant
                k <= p.chpj@.len(),
                self.wf(),
                self.pj.live(id as int),
                *p == self.pj.at(id as int),
                out@ == self.below_upto(id as int, k as int),
            decreases p.chpj@.len() - k,
        {
            let c = p.chpj[k];
            proof {
                self.pj.lemma_room(id as int, k as int);
            }
            let mut part = self.recursive_children(c);
            out.append(&mut part);
            k += 1;
        }
        out.push(id);
        out
    }

    /// The projects among the first `m` that the project `id` is tied to
    /// by dependencies, directly or through other projects, in the order of
    /// their ids: those it depends on, or, looking `back`, those that depend
    /// on it.
    pub open(crate) spec fn tied_upto(&self, id: int, back: bool, m: int) -> Seq<usize>
        decreases m,
    {
        if m <= 0 {
            Seq::empty()
        } else if m - 1 != id && self.pj.leads(id, m - 1, back) {
            self.tied_upto(id, back, m - 1).push((m - 1) as usize)
        } else {
            self.tied_upto(id, back, m - 1)
        }
    }

    /// The projects that the project `id` is tied to by dependencies, in
    /// the order of their ids.
    pub open(crate) spec fn tied(&self, id: int, back: bool) -> Seq<usize> {
        self.tied_upto(id, back, self.pj@.len() as int)
    }

    /// The projects that the project `id` is tied to by dependencies.
    fn tied_of(&self, id: usize, back: bool) -> (out: Vec<usize>)
        requires
            self.wf(),
            self.pj.live(id as int),
        ensures
            out@ == self.tied(id as int, back),
    {
        let marks = self.pj.closure(id, back);
        let n = marks.len();
        let mut out: Vec<usize> = Vec::new();
        let mut d: usize = 0;
        while d < n
            invariant
                d <= n,
                n == self.pj@.len(),
                marks@.len() == n,
                forall|x: int|
                    0 <= x < n ==> #[trigger] marks@[x] == self.pj.leads(id as int, x, back),
                out@ == self.tied_upto(id as int, back, d as int),
            decreases n - d,
        {
            if d != id && marks[d] {
                out.push(d);
            }
            d += 1;
        }
        out
    }

    /// The projects that the project `id` depends on, directly or through
    /// other projects, in the order of their ids, and `id` itself at the end.
    /// Dependencies that run in a circle are no hindrance, and no project is
    /// named twice.
    pub fn recursive_dependencies(&self, id: usize) -> (out: Vec<usize>)
        requires
            self.wf(),
            self.projects().live(id as int),
        ensures
            out@ == self.tied(id as int, false).push(id),
    {
        let mut out = self.tied_of(id, false);
        out.push(id);
        out
    }

    /// The projects that depend on the project `id`, directly or through
    /// other projects, in the order of their ids, and `id` itself at the end.
    pub fn recursive_reverse_dependencies(&self, id: usize) -> (out: Vec<usize>)
        requires
            self.wf(),
            self.projects().live(id as int),
        ensures
            out@ == self.tied(id as int, true).push(id),
    {
        let mut out = self.tied_of(id, true);
        out.push(id);
        out
    }

    /// The projects that the project `id` or one of the projects above it
    /// has to wait for: those of the projects above first.
    pub open(crate) spec fn waited_for(&self, id: int) -> Seq<usize>
        decreases self.projects().rank(id),
    {
        let p = self.pj.at(id).pp as int;
        if id == 0 || !(self.pj.rank(p) < self.pj.rank(id)) {
            Seq::empty()
        } else {
            self.waited_for(p) + self.tied(id, false)
        }
    }

    /// The projects that the project `id` or one of the projects above it
    /// depends on, directly or through other projects: those of the projects
    /// above first. The root waits for nothing.
    pub fn recursive_reverse_dependencies_exclusive_and_same_for_parent(&self, id: usize) -> (out:
        Vec<usize>)
        requires
            self.wf(),
            self.projects().live(id as int),
        ensures
            out@ == self.waited_for(id as int),
        decreases self.projects().rank(id as int),
    {
        if id == 0 {
            return Vec::new();
        }
        proof {
            assert(self.pj.record_ok(id as int));
        }
        let mut out = self.recursive_reverse_dependencies_exclusive_and_same_for_parent(
            self.pj.rec(id).pp,
        );
        let mut own = self.tied_of(id, false);
        out.append(&mut own);
        out
    }

    /// The project `i` can be worked on: it is still to do, none of the
    /// projects it depends on and none of its children is still to do, and it
    /// is not among `ban`.
    pub open(crate) spec fn active(&self, i: int, ban: Seq<usize>) -> bool {
        let p = self.pj.at(i);
        &&& p.state == State::Todo
        &&& forall|k: int|
            0 <= k < p.deps@.len() ==> self.pj.at(#[trigger] p.deps@[k] as int).state
                != State::Todo
        &&& forall|k: int|
            0 <= k < p.chpj@.len() ==> self.pj.at(#[trigger] p.chpj@[k] as int).state
                != State::Todo
        &&& !ban.contains(i as usize)
    }

    /// The projects among the first `m` that can be worked on, in the order
    /// of their ids.
    pub open(crate) spec fn actives_upto(&self, ban: Seq<usize>, m: int) -> Seq<usize>
        decreases m,
    {
        if m <= 0 {
            Seq::empty()
        } else if self.active(m - 1, ban) {
            self.actives_upto(ban, m - 1).push((m - 1) as usize)
        } else {
            self.actives_upto(ban, m - 1)
        }
    }

    /// None of the projects of `list` is still to do.
    fn none_todo(&self, list: &Vec<usize>) -> (r: bool)
        requires
            self.wf(),
            forall|k: int| 0 <= k < list@.len() ==> self.pj.live(#[trigger] list@[k] as int),
        ensures
            r == forall|k: int|
                0 <= k < list@.len() ==> self.pj.at(#[trigger] list@[k] as int).state
                    != State::Todo,
    {
        let mut k: usize = 0;
        while k < list.len()
            invariant
                k <= list@.len(),
                forall|j: int| 0 <= j < list@.len() ==> self.pj.live(#[trigger] list@[j] as int),
                forall|j: int|
                    0 <= j < k ==> self.pj.at(#[trigger] list@[j] as int).state != State::Todo,
            decreases list@.len() - k,
        {
            match self.pj.rec(list[k]).state {
                State::Todo => {
                    return false;
                },
                _ => {},
            }
            k += 1;
        }
        true
    }

    /// The projects that can be worked on, in the order of their ids: those
    /// still to do of which no dependency and no child is still to do, but
    /// for the projects of `ban`.
    pub fn active_projects(&self, ban: &Vec<usize>) -> (out: Vec<usize>)
        requires
            self.wf(),
        ensures
            out@ == self.actives_upto(ban@, self.projects()@.len() as int),
    {
        let n = self.pj.vect.len();
        let mut out: Vec<usize> = Vec::new();
        let mut i: usize = 0;
        while i < n
            invariant
                i <= n,
                n == self.pj.vect@.len(),
                self.wf(),
                out@ == self.actives_upto(ban@, i as int),
            decreases n - i,
        {
            proof {
                assert(self.pj.live(i as int));
                assert(self.pj.record_ok(i as int));
            }
            let p = self.pj.rec(i);
            let mut active = false;
            match p.state {
                State::Todo => {
                    proof {
                        assert forall|k: int| 0 <= k < p.deps@.len() implies self.pj.live(
                            #[trigger] p.deps@[k] as int,
                        ) by {}
                        assert forall|k: int| 0 <= k < p.chpj@.len() implies self.pj.live(
                            #[trigger] p.chpj@[k] as int,
                        ) by {}
                    }
                    if self.none_todo(&p.deps) && self.none_todo(&p.chpj) && !idset::contains(
                        ban,
                        i,
                    ) {
                        active = true;
                    }
                },
                _ => {},
            }
            if active {
                out.push(i);
            }
            i += 1;
        }
        out
    }
}

} // verus!
