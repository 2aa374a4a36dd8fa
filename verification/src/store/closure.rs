//! Which projects a project depends on, directly or through others.

use vstd::prelude::*;
use crate::store::pj::PjStore;

verus! {

/// How many of `marks` are set.
pub open spec fn count_set(marks: Seq<bool>) -> nat
    decreases marks.len(),
{
    if marks.len() == 0 {
        0
    } else {
        count_set(marks.drop_last()) + if marks.last() {
            1nat
        } else {
            0nat
        }
    }
}

proof fn lemma_count_bound(marks: Seq<bool>)
    ensures
        count_set(marks) <= marks.len(),
    decreases marks.len(),
{
    if marks.len() > 0 {
        lemma_count_bound(marks.drop_last());
    }
}

proof fn lemma_count_set(marks: Seq<bool>, i: int)
    requires
        0 <= i < marks.len(),
        !marks[i],
    ensures
        count_set(marks.update(i, true)) == count_set(marks) + 1,
    decreases marks.len(),
{
    let after = marks.update(i, true);
    if i == marks.len() - 1 {
        assert(after.drop_last() =~= marks.drop_last());
    } else {
        lemma_count_set(marks.drop_last(), i);
        assert(after.drop_last() =~= marks.drop_last().update(i, true));
    }
}

impl PjStore {
    /// The projects that the project `a` is tied to by one edge: those it
    /// depends on, or, looking `back`, those that depend on it.
    pub open(crate) spec fn next(&self, a: int, back: bool) -> Seq<usize> {
        if back {
            self.at(a).deps_rvs@
        } else {
            self.at(a).deps@
        }
    }

    /// `b` is reached from `a` over at most `k` edges.
    pub open(crate) spec fn reach(&self, a: int, b: int, back: bool, k: nat) -> bool
        decreases k,
    {
        a == b || (k > 0 && exists|j: int|
            0 <= j < self.next(a, back).len() && self.reach(
                #[trigger] self.next(a, back)[j] as int,
                b,
                back,
                (k - 1) as nat,
            ))
    }

    /// `b` is `a`, or `a` depends on `b` directly or through other projects
    /// (looking `back`: `b` depends on `a`).
    pub open(crate) spec fn leads(&self, a: int, b: int, back: bool) -> bool {
        exists|k: nat| self.reach(a, b, back, k)
    }

    /// A way that is continued by one edge is a way.
    proof fn lemma_reach_step(&self, a: int, b: int, c: usize, back: bool, k: nat)
        requires
            self.reach(a, b, back, k),
            self.next(b, back).contains(c),
        ensures
            self.reach(a, c as int, back, k + 1),
        decreases k,
    {
        if a == b {
            let j = choose|j: int| 0 <= j < self.next(b, back).len() && self.next(b, back)[j] == c;
            assert(self.reach(self.next(a, back)[j] as int, c as int, back, 0));
            assert(self.reach(self.next(a, back)[j] as int, c as int, back, k));
            self.lemma_reach_more(self.next(a, back)[j] as int, c as int, back, 0, k);
        } else {
            let j = choose|j: int|
                0 <= j < self.next(a, back).len() && self.reach(
                    #[trigger] self.next(a, back)[j] as int,
                    b,
                    back,
                    (k - 1) as nat,
                );
            self.lemma_reach_step(self.next(a, back)[j] as int, b, c, back, (k - 1) as nat);
        }
    }

    /// What is reached over few edges is reached over more.
    proof fn lemma_reach_more(&self, a: int, b: int, back: bool, k: nat, m: nat)
        requires
            self.reach(a, b, back, k),
            k <= m,
        ensures
            self.reach(a, b, back, m),
        decreases k,
    {
        if a != b {
            let j = choose|j: int|
                0 <= j < self.next(a, back).len() && self.reach(
                    #[trigger] self.next(a, back)[j] as int,
                    b,
                    back,
                    (k - 1) as nat,
                );
            self.lemma_reach_more(
                self.next(a, back)[j] as int,
                b,
                back,
                (k - 1) as nat,
                (m - 1) as nat,
            );
        }
    }

    /// A set of marks that holds, with each project, the projects next to
    /// it holds all that is reached from any of its projects.
    proof fn lemma_closed(&self, marks: Seq<bool>, a: int, b: int, back: bool, k: nat)
        requires
            self.wf(),
            marks.len() == self.vect@.len(),
            forall|d: int, j: int|
                0 <= d < marks.len() && marks[d] && self.live(d) && 0 <= j < self.next(
                    d,
                    back,
                ).len() ==> marks[#[trigger] self.next(d, back)[j] as int],
            0 <= a < marks.len(),
            marks[a],
            self.live(a),
            self.reach(a, b, back, k),
        ensures
            0 <= b < marks.len(),
            marks[b],
        decreases k,
    {
        if a != b {
            let j = choose|j: int|
                0 <= j < self.next(a, back).len() && self.reach(
                    #[trigger] self.next(a, back)[j] as int,
                    b,
                    back,
                    (k - 1) as nat,
                );
            let e = self.next(a, back)[j] as int;
            assert(self.record_ok(a));
            assert(self.live(e)) by {
                if back {
                    assert(self.live(self.at(a).deps_rvs@[j] as int));
                } else {
                    assert(self.live(self.at(a).deps@[j] as int));
                }
            }
            self.lemma_closed(marks, e, b, back, (k - 1) as nat);
        }
    }

    /// For each place, whether its project is `id` or one that `id` depends
    /// on, directly or through others; looking `back`, one that depends on
    /// `id`. Dependencies that run in a circle are no hindrance.
    pub fn closure(&self, id: usize, back: bool) -> (marks: Vec<bool>)
        requires
            self.wf(),
            self.live(id as int),
        ensures
            marks@.len() == self@.len(),
            forall|x: int|
                0 <= x < marks@.len() ==> #[trigger] marks@[x] == self.leads(id as int, x, back),
            forall|x: int| self.leads(id as int, x, back) ==> 0 <= x < marks@.len(),
    {
        let n = self.vect.len();
        let mut marks: Vec<bool> = Vec::new();
        let mut i: usize = 0;
        while i < n
            invariant
                i <= n,
                marks@.len() == i,
                forall|d: int| 0 <= d < i ==> marks@[d] == (d == id),
            decreases n - i,
        {
            marks.push(i == id);
            i += 1;
        }
        let mut count: usize = 1;
        proof {
            assert(self.reach(id as int, id as int, back, 0));
            lemma_count_bound(marks@);
            Self::lemma_count_one(marks@, id as int);
        }
        let mut grown = true;
        while grown
            invariant
                n == self.vect@.len(),
                self.wf(),
                self.live(id as int),
                marks@.len() == n,
                marks@[id as int],
                count == count_set(marks@),
                count <= n,
                forall|x: int|
                    0 <= x < n && #[trigger] marks@[x] ==> self.live(x) && self.leads(
                        id as int,
                        x,
                        back,
                    ),
                !grown ==> forall|x: int, y: int|
                    0 <= x < n && marks@[x] && self.live(x) && 0 <= y < self.next(x, back).len()
                        ==> marks@[#[trigger] self.next(x, back)[y] as int],
            decreases n - count, grown as int,
        {
            grown = false;
            let ghost before = count;
            let mut d: usize = 0;
            while d < n
                invariant
                    d <= n,
                    count >= before,
                    grown ==> count > before,
                    n == self.vect@.len(),
                    self.wf(),
                    self.live(id as int),
                    marks@.len() == n,
                    marks@[id as int],
                    count == count_set(marks@),
                    count <= n,
                    forall|x: int|
                        0 <= x < n && #[trigger] marks@[x] ==> self.live(x) && self.leads(
                            id as int,
                            x,
                            back,
                        ),
                    !grown ==> forall|x: int, y: int|
                        0 <= x < d && marks@[x] && self.live(x) && 0 <= y < self.next(
                            x,
                            back,
                        ).len() ==> marks@[#[trigger] self.next(x, back)[y] as int],
                decreases n - d,
            {
                if marks[d] {
                    let p = self.rec(d);
                    let list = if back {
                        &p.deps_rvs
                    } else {
                        &p.deps
                    };
                    let mut j: usize = 0;
                    while j < list.len()
                        invariant
                            j <= list@.len(),
                            d < n,
                            count >= before,
                            grown ==> count > before,
                            n == self.vect@.len(),
                            self.wf(),
                            self.live(id as int),
                            self.live(d as int),
                            list@ == self.next(d as int, back),
                            marks@.len() == n,
                            marks@[id as int],
                            marks@[d as int],
                            count == count_set(marks@),
                            count <= n,
                            forall|x: int|
                                0 <= x < n && #[trigger] marks@[x] ==> self.live(x) && self.leads(
                                    id as int,
                                    x,
                                    back,
                                ),
                            !grown ==> forall|x: int, y: int|
                                0 <= x < d && marks@[x] && self.live(x) && 0 <= y < self.next(
                                    x,
                                    back,
                                ).len() ==> marks@[#[trigger] self.next(x, back)[y] as int],
                            !grown ==> forall|y: int|
                                0 <= y < j ==> marks@[#[trigger] list@[y] as int],
                        decreases list@.len() - j,
                    {
                        let e = list[j];
                        proof {
                            assert(self.record_ok(d as int));
                            if back {
                                assert(self.live(self.at(d as int).deps_rvs@[j as int] as int));
                            } else {
                                assert(self.live(self.at(d as int).deps@[j as int] as int));
                            }
                        }
                        if !marks[e] {
                            proof {
                                lemma_count_set(marks@, e as int);
                                lemma_count_bound(marks@.update(e as int, true));
                                let k = choose|k: nat| self.reach(id as int, d as int, back, k);
                                assert(list@.contains(e));
                                self.lemma_reach_step(id as int, d as int, e, back, k);
                                assert(self.reach(id as int, e as int, back, k + 1));
                                assert(self.leads(id as int, e as int, back));
                            }
                            marks[e] = true;
                            count += 1;
                            grown = true;
                        }
                        j += 1;
                    }
                }
                d += 1;
            }
        }
        proof {
            assert forall|x: int| 0 <= x < marks@.len() implies marks@[x] == self.leads(
                id as int,
                x,
                back,
            ) by {
                if self.leads(id as int, x, back) {
                    let k = choose|k: nat| self.reach(id as int, x, back, k);
                    self.lemma_closed(marks@, id as int, x, back, k);
                }
            }
            assert forall|x: int| self.leads(id as int, x, back) implies 0 <= x < marks@.len() by {
                let k = choose|k: nat| self.reach(id as int, x, back, k);
                self.lemma_closed(marks@, id as int, x, back, k);
            }
        }
        marks
    }

    proof fn lemma_count_one(marks: Seq<bool>, id: int)
        requires
            0 <= id < marks.len(),
            forall|d: int| 0 <= d < marks.len() ==> marks[d] == (d == id),
        ensures
            count_set(marks) == 1,
        decreases marks.len(),
    {
        let shorter = marks.drop_last();
        if id == marks.len() - 1 {
            Self::lemma_count_none(shorter);
        } else {
            Self::lemma_count_one(shorter, id);
        }
    }

    proof fn lemma_count_none(marks: Seq<bool>)
        requires
            forall|d: int| 0 <= d < marks.len() ==> !marks[d],
        ensures
            count_set(marks) == 0,
        decreases marks.len(),
    {
        if marks.len() > 0 {
            Self::lemma_count_none(marks.drop_last());
        }
    }
}

} // verus!
