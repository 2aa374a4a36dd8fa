//! What an allocation gives to the nodes of a subtree of the tree it is
//! made on.

use crate::data::auto_schedule::{
    amount_sum, lemma_share_bounds, lemma_sorted_suffix, lemma_sums_nonnegative, rest_from, share,
    weight_from, Tree,
};
use vstd::prelude::*;

verus! {

/// The work that `out` gives to the nodes of the tree `n`.
pub open spec fn given_below(out: Seq<(usize, usize)>, n: Tree) -> int
    decreases out.len(),
{
    if out.len() == 0 {
        0
    } else {
        given_below(out.drop_last(), n) + if n.holds(out.last().0) {
            out.last().1 as int
        } else {
            0
        }
    }
}

proof fn lemma_given_below_concat(a: Seq<(usize, usize)>, b: Seq<(usize, usize)>, n: Tree)
    ensures
        given_below(a + b, n) == given_below(a, n) + given_below(b, n),
    decreases b.len(),
{
    if b.len() == 0 {
        assert(a + b =~= a);
    } else {
        assert((a + b).drop_last() =~= a + b.drop_last());
        lemma_given_below_concat(a, b.drop_last(), n);
    }
}

proof fn lemma_given_below_bounds(out: Seq<(usize, usize)>, n: Tree)
    ensures
        0 <= given_below(out, n) <= amount_sum(out),
    decreases out.len(),
{
    if out.len() > 0 {
        lemma_given_below_bounds(out.drop_last(), n);
    }
}

proof fn lemma_given_below_none(out: Seq<(usize, usize)>, n: Tree)
    requires
        forall|k: int| 0 <= k < out.len() ==> !n.holds((#[trigger] out[k]).0),
    ensures
        given_below(out, n) == 0,
    decreases out.len(),
{
    if out.len() > 0 {
        let head = out.drop_last();
        assert forall|k: int| 0 <= k < head.len() implies !n.holds((#[trigger] head[k]).0) by {
            assert(head[k] == out[k]);
        }
        lemma_given_below_none(head, n);
        assert(!n.holds(out[out.len() - 1].0));
    }
}

impl Tree {
    /// `n` is this tree or one of the trees below its nodes.
    pub open spec fn part(&self, n: Tree) -> bool
        decreases self,
    {
        *self == n || exists|i: int| 0 <= i < self.ch.len() && (#[trigger] self.ch[i]).part(n)
    }

    proof fn lemma_part_holds(&self, n: Tree, id: usize)
        requires
            self.part(n),
            n.holds(id),
        ensures
            self.holds(id),
        decreases self,
    {
        if *self != n {
            let i = choose|i: int| 0 <= i < self.ch.len() && (#[trigger] self.ch[i]).part(n);
            self.ch[i].lemma_part_holds(n, id);
        }
    }

    proof fn lemma_part_open(&self, n: Tree)
        requires
            self.wf(),
            self.rest_quota >= 0,
            self.part(n),
        ensures
            n.rest_quota >= 0,
        decreases self,
    {
        if *self != n {
            let i = choose|i: int| 0 <= i < self.ch.len() && (#[trigger] self.ch[i]).part(n);
            self.ch[i].lemma_part_open(n);
        }
    }

    /// On a tree without repeated ids, an allocation gives the nodes of
    /// each subtree together no more than the work open in that subtree.
    pub proof fn lemma_subtree_share(&self, quota: int, n: Tree)
        requires
            self.wf(),
            self.apart(),
            0 <= quota <= self.rest_quota,
            quota <= usize::MAX,
            self.part(n),
        ensures
            0 <= given_below(self.allocation(quota), n) <= n.rest_quota,
        decreases self, self.ch.len() + 1,
    {
        let out = self.allocation(quota);
        lemma_given_below_bounds(out, n);
        if *self == n {
            self.lemma_allocation(quota);
        } else {
            let j = choose|j: int| 0 <= j < self.ch.len() && (#[trigger] self.ch[j]).part(n);
            let total = rest_from(self.ch, 0);
            let inner = if quota <= total {
                quota
            } else {
                total
            };
            let w = weight_from(self.ch, 0);
            lemma_sums_nonnegative(self.ch, 0);
            self.lemma_subtree_share_from(0, inner, w, n, j);
            let below = self.allocation_from(0, inner, w);
            if inner < quota {
                assert(out.drop_last() =~= below);
                if n.holds(self.id) {
                    self.ch[j].lemma_part_holds(n, self.id);
                    assert(false);
                }
            }
        }
    }

    /// The same for the allocation among the children `ch[i..]`, where `n`
    /// is a part of the child `ch[j]`.
    proof fn lemma_subtree_share_from(&self, i: int, quota: int, weight_sum: int, n: Tree, j: int)
        requires
            self.wf(),
            self.apart(),
            0 <= i <= self.ch.len(),
            0 <= quota <= rest_from(self.ch, i),
            quota <= usize::MAX,
            weight_sum == weight_from(self.ch, i),
            0 <= j < self.ch.len(),
            self.ch[j].part(n),
        ensures
            0 <= given_below(self.allocation_from(i, quota, weight_sum), n) <= n.rest_quota,
        decreases self, self.ch.len() - i,
    {
        self.ch[j].lemma_part_open(n);
        if i < self.ch.len() {
            let c = self.ch[i];
            let v = weight_from(self.ch, i + 1);
            let s = rest_from(self.ch, i + 1);
            lemma_sums_nonnegative(self.ch, i + 1);
            lemma_sorted_suffix(self.ch, i, i + 1);
            lemma_share_bounds(c.rest_quota, c.weight, quota, weight_sum, v, s);
            let a = share(c.rest_quota, c.weight, quota, weight_sum);
            let first = c.allocation(a);
            let rest = self.allocation_from(i + 1, quota - a, weight_sum - c.weight);
            assert(first + rest == self.allocation_from(i, quota, weight_sum));
            lemma_given_below_concat(first, rest, n);
            if i == j {
                c.lemma_subtree_share(a, n);
                self.lemma_allocation_from_apart(i + 1, quota - a, weight_sum - c.weight);
                assert forall|k: int| 0 <= k < rest.len() implies !n.holds((#[trigger] rest[k]).0) by {
                    if n.holds(rest[k].0) {
                        self.ch[j].lemma_part_holds(n, rest[k].0);
                        let m = choose|m: int|
                            i + 1 <= m < self.ch.len() && (#[trigger] self.ch[m]).holds(rest[k].0);
                        assert(!(self.ch[j].holds(rest[k].0) && self.ch[m].holds(rest[k].0)));
                    }
                }
                lemma_given_below_none(rest, n);
            } else {
                c.lemma_allocation_apart(a);
                assert forall|k: int| 0 <= k < first.len() implies !n.holds(
                    (#[trigger] first[k]).0,
                ) by {
                    if n.holds(first[k].0) {
                        self.ch[j].lemma_part_holds(n, first[k].0);
                        assert(self.ch[i].holds(first[k].0));
                        if i < j {
                            assert(!(self.ch[i].holds(first[k].0) && self.ch[j].holds(first[k].0)));
                        } else {
                            assert(!(self.ch[j].holds(first[k].0) && self.ch[i].holds(first[k].0)));
                        }
                    }
                }
                lemma_given_below_none(first, n);
                self.lemma_subtree_share_from(i + 1, quota - a, weight_sum - c.weight, n, j);
            }
        }
    }
}

} // verus!
