//! How much work each project still stands for: its own, that of the
//! projects below it, and that of the projects it has to wait for.

use vstd::prelude::*;
use crate::data::Data;
use crate::util::DAY;

verus! {

/// `x` where a machine word holds it, else the largest machine word.
pub open spec fn capped(x: int) -> usize {
    if x >= usize::MAX {
        usize::MAX
    } else if x < 0 {
        0
    } else {
        x as usize
    }
}

/// The sum of `a` and `b` where a machine word holds it, else the largest
/// machine word.
pub fn capped_add(a: usize, b: usize) -> (sum: usize)
    ensures
        sum == capped(a + b),
{
    if a > usize::MAX - b {
        usize::MAX
    } else {
        a + b
    }
}

/// Capping the parts of a sum before adding them changes nothing.
pub proof fn lemma_capped_add(x: int, y: int)
    requires
        x >= 0,
        y >= 0,
    ensures
        capped(capped(x) + capped(y)) == capped(x + y),
{
}

impl Data {
    /// The work open on the project `i` and on all below it.
    pub open(crate) spec fn subtree_need(&self, i: int) -> int {
        self.open_below(self.initial_rest(), i)
    }

    /// The project `i` has to wait for the project `d`: it depends on it,
    /// directly or through other projects.
    pub open(crate) spec fn waits_for(&self, i: int, d: int) -> bool {
        d != i && self.pj.leads(i, d, false)
    }

    /// The work of the projects among the first `m` that the project `i`
    /// has to wait for, each with all below it.
    pub open(crate) spec fn own_wait_upto(&self, i: int, m: int) -> int
        decreases m,
    {
        if m <= 0 {
            0
        } else {
            self.own_wait_upto(i, m - 1) + if self.waits_for(i, m - 1) {
                self.subtree_need(m - 1)
            } else {
                0
            }
        }
    }

    /// The work of all projects that the project `i` has to wait for.
    pub open(crate) spec fn own_wait(&self, i: int) -> int {
        self.own_wait_upto(i, self.pj@.len() as int)
    }

    /// The work that the project `i` has to wait for, itself or with one
    /// of the projects above it: what stands before a project stands before
    /// all below it.
    pub open(crate) spec fn total_wait(&self, i: int) -> int
        decreases self.projects().rank(i),
    {
        let p = self.pj.at(i).pp as int;
        self.own_wait(i) + if i != 0 && self.pj.rank(p) < self.pj.rank(i) {
            self.total_wait(p)
        } else {
            0
        }
    }

    /// The work that the project `i` stands for: that on itself and below
    /// it, and that which it has to wait for.
    pub open(crate) spec fn aggregated_need(&self, i: int) -> int {
        self.total_wait(i) + self.subtree_need(i)
    }

    proof fn lemma_own_wait(&self, i: int, m: int)
        ensures
            self.own_wait_upto(i, m) >= 0,
        decreases m,
    {
        if m > 0 {
            self.lemma_own_wait(i, m - 1);
            self.lemma_open_below(self.initial_rest(), m - 1);
        }
    }

    proof fn lemma_total_wait(&self, i: int)
        ensures
            self.total_wait(i) >= 0,
        decreases self.projects().rank(i),
    {
        self.lemma_own_wait(i, self.pj@.len() as int);
        let p = self.pj.at(i).pp as int;
        if i != 0 && self.pj.rank(p) < self.pj.rank(i) {
            self.lemma_total_wait(p);
        }
    }

    /// The work open on the project `id` and on all below it, capped.
    pub(crate) fn subtree_need_of(&self, rest: &Vec<usize>, id: usize) -> (need: usize)
        requires
            self.pj.wf(),
            self.pj.live(id as int),
            rest@.len() == self.pj.vect@.len(),
        ensures
            need == capped(self.open_below(rest@, id as int)),
        decreases self.projects().room(id as int),
    {
        let p = self.pj.rec(id);
        let mut need: usize = rest[id];
        let mut k: usize = 0;
        proof {
            self.lemma_open_upto_only(rest@, id as int, 0);
        }
        while k < p.chpj.len()
            invariant
                k <= p.chpj@.len(),
                self.pj.wf(),
                self.pj.live(id as int),
                *p == self.pj.at(id as int),
                rest@.len() == self.pj.vect@.len(),
                self.open_upto(rest@, id as int, k as int) >= 0,
                need == capped(rest@[id as int] + self.open_upto(rest@, id as int, k as int)),
            decreases p.chpj@.len() - k,
        {
            let c = p.chpj[k];
            proof {
                self.pj.lemma_room(id as int, k as int);
                self.lemma_open_below(rest@, c as int);
                self.lemma_open_upto_only(rest@, id as int, k + 1);
                lemma_capped_add(
                    rest@[id as int] + self.open_upto(rest@, id as int, k as int),
                    self.open_below(rest@, c as int),
                );
            }
            let below = self.subtree_need_of(rest, c);
            need = capped_add(need, below);
            k += 1;
        }
        need
    }

    /// The work that the project `i` has to wait for on its own account,
    /// capped; `below` holds the capped work of each project with all below
    /// it.
    fn own_wait_of(&self, i: usize, below: &Vec<usize>) -> (wait: usize)
        requires
            self.wf(),
            self.pj.live(i as int),
            below@.len() == self.pj.vect@.len(),
            forall|d: int|
                0 <= d < below@.len() ==> #[trigger] below@[d] == capped(self.subtree_need(d)),
        ensures
            wait == capped(self.own_wait(i as int)),
    {
        let marks = self.pj.closure(i, false);
        let n = below.len();
        let mut wait: usize = 0;
        let mut d: usize = 0;
        while d < n
            invariant
                d <= n,
                n == self.pj@.len(),
                n == below@.len(),
                marks@.len() == n,
                forall|x: int|
                    0 <= x < n ==> #[trigger] marks@[x] == self.pj.leads(i as int, x, false),
                forall|x: int|
                    0 <= x < n ==> #[trigger] below@[x] == capped(self.subtree_need(x)),
                wait == capped(self.own_wait_upto(i as int, d as int)),
            decreases n - d,
        {
            proof {
                self.lemma_own_wait(i as int, d as int);
                self.lemma_open_below(self.initial_rest(), d as int);
                lemma_capped_add(self.own_wait_upto(i as int, d as int), self.subtree_need(d as int));
            }
            if d != i && marks[d] {
                wait = capped_add(wait, below[d]);
            }
            d += 1;
        }
        wait
    }

    /// The work that the project `i` has to wait for, itself or with one
    /// of the projects above it, capped; `own` holds the capped work that
    /// each project has to wait for on its own account.
    fn total_wait_of(&self, i: usize, own: &Vec<usize>) -> (wait: usize)
        requires
            self.wf(),
            self.pj.live(i as int),
            own@.len() == self.pj.vect@.len(),
            forall|d: int| 0 <= d < own@.len() ==> #[trigger] own@[d] == capped(self.own_wait(d)),
        ensures
            wait == capped(self.total_wait(i as int)),
    {
        let mut wait: usize = 0;
        let mut cur: usize = i;
        let ghost mut sum: int = 0;
        loop
            invariant
                self.wf(),
                self.pj.live(cur as int),
                own@.len() == self.pj.vect@.len(),
                forall|d: int|
                    0 <= d < own@.len() ==> #[trigger] own@[d] == capped(self.own_wait(d)),
                sum >= 0,
                wait == capped(sum),
                sum + self.total_wait(cur as int) == self.total_wait(i as int),
            decreases self.pj.rank(cur as int),
        {
            proof {
                self.lemma_own_wait(cur as int, self.pj@.len() as int);
                assert(self.pj.record_ok(cur as int));
                lemma_capped_add(sum, self.own_wait(cur as int));
            }
            wait = capped_add(wait, own[cur]);
            proof {
                sum = sum + self.own_wait(cur as int);
            }
            if cur == 0 {
                return wait;
            }
            cur = self.pj.rec(cur).pp;
        }
    }

    /// For each project the work that it stands for: the work on itself
    /// and on the projects below it, with the work of the projects that it or
    /// one of the projects above it has to wait for, each with all below it.
    /// A sum that a machine word does not hold is given as the largest
    /// machine word.
    pub fn aggregate_quota(&self) -> (out: Vec<usize>)
        requires
            self.wf(),
        ensures
            out@.len() == self.projects()@.len(),
            forall|i: int|
                0 <= i < out@.len() ==> #[trigger] out@[i] == capped(self.aggregated_need(i)),
    {
        let n = self.pj.vect.len();
        let rest = self.rest_now();
        let mut below: Vec<usize> = Vec::new();
        let mut i: usize = 0;
        while i < n
            invariant
                i <= n,
                n == self.pj.vect@.len(),
                self.wf(),
                rest@ == self.initial_rest(),
                below@.len() == i,
                forall|d: int| 0 <= d < i ==> #[trigger] below@[d] == capped(self.subtree_need(d)),
            decreases n - i,
        {
            assert(self.pj.live(i as int));
            below.push(self.subtree_need_of(&rest, i));
            i += 1;
        }
        let mut own: Vec<usize> = Vec::new();
        let mut i: usize = 0;
        while i < n
            invariant
                i <= n,
                n == self.pj.vect@.len(),
                self.wf(),
                below@.len() == n,
                forall|d: int| 0 <= d < n ==> #[trigger] below@[d] == capped(self.subtree_need(d)),
                own@.len() == i,
                forall|d: int| 0 <= d < i ==> #[trigger] own@[d] == capped(self.own_wait(d)),
            decreases n - i,
        {
            assert(self.pj.live(i as int));
            own.push(self.own_wait_of(i, &below));
            i += 1;
        }
        let mut out: Vec<usize> = Vec::new();
        let mut i: usize = 0;
        while i < n
            invariant
                i <= n,
                n == self.pj.vect@.len(),
                self.wf(),
                below@.len() == n,
                forall|d: int| 0 <= d < n ==> #[trigger] below@[d] == capped(self.subtree_need(d)),
                own@.len() == n,
                forall|d: int| 0 <= d < n ==> #[trigger] own@[d] == capped(self.own_wait(d)),
                out@.len() == i,
                forall|d: int| 0 <= d < i ==> #[trigger] out@[d] == capped(self.aggregated_need(d)),
            decreases n - i,
        {
            assert(self.pj.live(i as int));
            let wait = self.total_wait_of(i, &own);
            proof {
                self.lemma_total_wait(i as int);
                self.lemma_open_below(self.initial_rest(), i as int);
                lemma_capped_add(self.total_wait(i as int), self.subtree_need(i as int));
            }
            out.push(capped_add(wait, below[i]));
            i += 1;
        }
        out
    }

    /// How pressing the project `id` is on the day that begins at `day`, as
    /// a fraction: the work that the project stands for, over the days left
    /// until its deadline, counted as one where less than two are left.
    /// Nothing where the project has no deadline.
    pub fn urgency(&self, id: usize, day: i64) -> (r: Option<(usize, i64)>)
        requires
            self.wf(),
            self.projects().live(id as int),
        ensures
            r is Some <==> self.projects().at(id as int).deadline is Some,
            r matches Some(u) ==> {
                let left = (self.projects().at(id as int).deadline->0 - day) / (DAY as int);
                &&& u.0 == capped(self.aggregated_need(id as int))
                &&& u.1 == if left < 1 {
                    1
                } else {
                    left
                }
            },
    {
        match self.pj.rec(id).deadline {
            None => None,
            Some(due) => {
                let need = self.aggregate_quota();
                let span: i128 = due as i128 - day as i128;
                let left: i128 = if span < 86400 {
                    1
                } else {
                    span / 86400
                };
                Some((need[id], left as i64))
            },
        }
    }
}

} // verus!
