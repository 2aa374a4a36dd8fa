use vstd::prelude::*;
use std::collections::VecDeque;
use crate::data::{Data, Event, EventView, State};
use crate::index::ids_between;
use crate::store::ev::Ev;
use crate::util::DAY;

verus! {

/// A node of the activity tree: a project that can take work today, with the
/// work still open below it and its claim on the budget among its siblings.
#[derive(Debug)]
pub struct TreeNode {
    pub id: usize,
    pub ch: Vec<TreeNode>,
    pub rest_quota: usize,
    pub weight: usize,
}

/// The activity tree as a mathematical value: what a `TreeNode` stands for.
pub ghost struct Tree {
    pub id: usize,
    pub ch: Seq<Tree>,
    pub rest_quota: int,
    pub weight: int,
}

impl TreeNode {
    /// The tree that the node and the nodes below it stand for.
    pub open spec fn tree(&self) -> Tree
        decreases self,
    {
        Tree {
            id: self.id,
            ch: Seq::new(
                self.ch@.len(),
                |i: int|
                    if 0 <= i < self.ch@.len() {
                        self.ch@[i].tree()
                    } else {
                        arbitrary()
                    },
            ),
            rest_quota: self.rest_quota as int,
            weight: self.weight as int,
        }
    }
}

impl View for TreeNode {
    type V = Tree;

    open spec fn view(&self) -> Tree {
        self.tree()
    }
}

/// Sum of `rest_quota` over `ch[i..]`.
pub open spec fn rest_from(ch: Seq<Tree>, i: int) -> int
    decreases ch.len() - i,
{
    if i < 0 || i >= ch.len() {
        0
    } else {
        ch[i].rest_quota + rest_from(ch, i + 1)
    }
}

/// Sum of `weight` over `ch[i..]`.
pub open spec fn weight_from(ch: Seq<Tree>, i: int) -> int
    decreases ch.len() - i,
{
    if i < 0 || i >= ch.len() {
        0
    } else {
        ch[i].weight + weight_from(ch, i + 1)
    }
}

/// `a` is at least as constrained as `b`: its open work per unit of weight
/// is no larger.
pub open spec fn ratio_le(a: Tree, b: Tree) -> bool {
    a.rest_quota * b.weight <= b.rest_quota * a.weight
}

/// What a child with open work `rest` and weight `weight` receives out of
/// `quota`, when the children still waiting weigh `weight_sum` together: its
/// proportional part, rounded down, but never more than `rest`.
pub open spec fn share(rest: int, weight: int, quota: int, weight_sum: int) -> int {
    if rest * weight_sum <= weight * quota {
        rest
    } else {
        weight * quota / weight_sum
    }
}

/// Sum of the amounts of a list of `(project, amount)` pairs.
pub open spec fn amount_sum(s: Seq<(usize, usize)>) -> int
    decreases s.len(),
{
    if s.len() == 0 {
        0
    } else {
        amount_sum(s.drop_last()) + s.last().1
    }
}

pub proof fn lemma_amount_sum_concat(a: Seq<(usize, usize)>, b: Seq<(usize, usize)>)
    ensures
        amount_sum(a + b) == amount_sum(a) + amount_sum(b),
    decreases b.len(),
{
    if b.len() == 0 {
        assert(a + b =~= a);
    } else {
        assert((a + b).drop_last() =~= a + b.drop_last());
        lemma_amount_sum_concat(a, b.drop_last());
    }
}


pub(crate) proof fn lemma_sums_nonnegative(ch: Seq<Tree>, i: int)
    requires
        forall|k: int| 0 <= k < ch.len() ==> (#[trigger] ch[k]).rest_quota >= 0 && ch[k].weight >= 0,
    ensures
        rest_from(ch, i) >= 0,
        weight_from(ch, i) >= 0,
    decreases ch.len() - i,
{
    if 0 <= i < ch.len() {
        lemma_sums_nonnegative(ch, i + 1);
    }
}

proof fn lemma_sums_monotone(ch: Seq<Tree>, i: int, j: int)
    requires
        forall|k: int| 0 <= k < ch.len() ==> (#[trigger] ch[k]).rest_quota >= 0 && ch[k].weight >= 0,
        0 <= i <= j,
    ensures
        rest_from(ch, j) <= rest_from(ch, i),
        weight_from(ch, j) <= weight_from(ch, i),
    decreases j - i,
{
    if i < j {
        lemma_sums_monotone(ch, i + 1, j);
        lemma_sums_nonnegative(ch, i + 1);
    }
}

/// In a list ordered by work per weight, a child is at least as constrained
/// as all that follow it taken together.
pub(crate) proof fn lemma_sorted_suffix(ch: Seq<Tree>, i: int, k: int)
    requires
        0 <= i < k <= ch.len(),
        forall|a: int, b: int| 0 <= a < b < ch.len() ==> #[trigger] ratio_le(ch[a], ch[b]),
    ensures
        ch[i].rest_quota * weight_from(ch, k) <= ch[i].weight * rest_from(ch, k),
    decreases ch.len() - k,
{
    if k < ch.len() {
        lemma_sorted_suffix(ch, i, k + 1);
        assert(ratio_le(ch[i], ch[k]));
        let r = ch[i].rest_quota;
        let w = ch[i].weight;
        let rk = ch[k].rest_quota;
        let wk = ch[k].weight;
        let ws = weight_from(ch, k + 1);
        let rs = rest_from(ch, k + 1);
        assert(r * (wk + ws) <= w * (rk + rs)) by (nonlinear_arith)
            requires
                r * wk <= rk * w,
                r * ws <= w * rs,
        ;
    } else {
        assert(ch[i].rest_quota * 0 == 0);
        assert(ch[i].weight * 0 == 0);
    }
}

/// The share of a child is within its open work and within the quota, and
/// what it leaves can still be placed on the children after it.
pub(crate) proof fn lemma_share_bounds(r: int, w: int, q: int, ws: int, v: int, s: int)
    requires
        r > 0,
        w > 0,
        v >= 0,
        s >= 0,
        ws == w + v,
        0 <= q <= r + s,
        r * v <= w * s,
    ensures
        0 <= share(r, w, q, ws) <= r,
        share(r, w, q, ws) <= q,
        q - share(r, w, q, ws) <= s,
        share(r, w, q, ws) * ws <= w * q,
        share(r, w, q, ws) == r || (share(r, w, q, ws) + 1) * ws > w * q,
{
    if r * ws <= w * q {
        assert(r <= q) by (nonlinear_arith)
            requires
                r * ws <= w * q,
                0 < w <= ws,
                q >= 0,
                r > 0,
        ;
    } else {
        let a = (w * q) / ws;
        let x = w * q;
        assert(x >= 0) by (nonlinear_arith)
            requires
                x == w * q,
                w > 0,
                q >= 0,
        ;
        vstd::arithmetic::div_mod::lemma_fundamental_div_mod(x, ws);
        vstd::arithmetic::div_mod::lemma_mod_bound(x, ws);
        vstd::arithmetic::div_mod::lemma_div_pos_is_pos(x, ws);
        assert(ws * a <= x < ws * a + ws);
        assert(a * ws == ws * a) by (nonlinear_arith);
        assert((a + 1) * ws == ws * a + ws) by (nonlinear_arith);
        assert(a < r) by (nonlinear_arith)
            requires
                ws * a <= x,
                x < r * ws,
                ws > 0,
        ;
        assert(a <= q) by (nonlinear_arith)
            requires
                ws * a <= x,
                x == w * q,
                0 < w <= ws,
                q >= 0,
                a >= 0,
        ;
        if v == 0 {
            assert(ws == w);
            assert(a >= q) by (nonlinear_arith)
                requires
                    x < w * a + w,
                    x == w * q,
                    w > 0,
            ;
        } else {
            if q - a > s {
                assert(w * q >= w * s + w * a + w) by (nonlinear_arith)
                    requires
                        q >= s + a + 1,
                        w > 0,
                ;
                assert(ws * a + ws == a * w + w + (a + 1) * v) by (nonlinear_arith)
                    requires
                        ws == w + v,
                ;
                assert(r * v < (a + 1) * v);
                assert(r < a + 1) by (nonlinear_arith)
                    requires
                        r * v < (a + 1) * v,
                        v > 0,
                ;
                assert(false);
            }
        }
    }
}

impl Tree {
    /// The children are themselves well formed, have work and weight, and
    /// stand in order of increasing work per weight; the node's open work
    /// covers that of its children.
    pub open spec fn wf(&self) -> bool
        decreases self,
    {
        &&& forall|i: int|
            0 <= i < self.ch.len() ==> {
                &&& (#[trigger] self.ch[i]).wf()
                &&& self.ch[i].rest_quota > 0
                &&& self.ch[i].weight > 0
            }
        &&& forall|i: int, j: int|
            0 <= i < j < self.ch.len() ==> #[trigger] ratio_le(self.ch[i], self.ch[j])
        &&& rest_from(self.ch, 0) <= self.rest_quota
    }

    /// The work open on the node itself, not counting its children.
    pub open spec fn own(&self) -> int {
        self.rest_quota - rest_from(self.ch, 0)
    }

    /// Some node of the tree has the id `id` and at least `amount` work
    /// open on itself.
    pub open spec fn grants(&self, id: usize, amount: int) -> bool
        decreases self,
    {
        ||| (self.id == id && amount <= self.own())
        ||| exists|i: int| 0 <= i < self.ch.len() && (#[trigger] self.ch[i]).grants(id, amount)
    }

    /// The allocation of `quota` on this node. A node without children takes
    /// all of it, be it nothing. Otherwise the children share as much of it as
    /// they have work for, each child in its turn, also where its share is
    /// nothing; and what is left goes to the node itself.
    pub open spec fn allocation(&self, quota: int) -> Seq<(usize, usize)>
        decreases self, self.ch.len() + 1,
    {
        if self.ch.len() == 0 {
            seq![(self.id, quota as usize)]
        } else {
            let total = rest_from(self.ch, 0);
            let inner = if quota <= total { quota } else { total };
            let below = self.allocation_from(0, inner, weight_from(self.ch, 0));
            if inner < quota {
                below.push((self.id, (quota - inner) as usize))
            } else {
                below
            }
        }
    }

    /// The allocation of `quota` among the children `ch[i..]`, which weigh
    /// `weight_sum` together. Each child in turn takes its share; the quota
    /// and the weight it leaves are shared by those that follow.
    pub open spec fn allocation_from(&self, i: int, quota: int, weight_sum: int) -> Seq<(usize, usize)>
        decreases self, self.ch.len() - i,
    {
        if i < 0 || i >= self.ch.len() {
            Seq::empty()
        } else {
            let c = self.ch[i];
            let a = share(c.rest_quota, c.weight, quota, weight_sum);
            c.allocation(a) + self.allocation_from(i + 1, quota - a, weight_sum - c.weight)
        }
    }
}

impl Tree {
    /// An allocation hands out exactly the quota asked for, each amount
    /// within the work open on the node that receives it.
    pub proof fn lemma_allocation(&self, quota: int)
        requires
            self.wf(),
            0 <= quota <= self.rest_quota,
            quota <= usize::MAX,
        ensures
            amount_sum(self.allocation(quota)) == quota,
            forall|k: int|
                0 <= k < self.allocation(quota).len() ==> {
                    let e = #[trigger] self.allocation(quota)[k];
                    self.grants(e.0, e.1 as int)
                },
        decreases self, self.ch.len() + 1,
    {
        if self.ch.len() == 0 {
            let out = seq![(self.id, quota as usize)];
            assert(out.drop_last() =~= Seq::<(usize, usize)>::empty());
            assert(amount_sum(out.drop_last()) == 0);
        } else {
            let total = rest_from(self.ch, 0);
            let inner = if quota <= total { quota } else { total };
            lemma_sums_nonnegative(self.ch, 0);
            let below = self.allocation_from(0, inner, weight_from(self.ch, 0));
            self.lemma_allocation_from(0, inner, weight_from(self.ch, 0));
            if inner < quota {
                let e = (self.id, (quota - inner) as usize);
                let out = below.push(e);
                assert(out.drop_last() =~= below);
                assert forall|k: int| 0 <= k < out.len() implies {
                    let e = #[trigger] out[k];
                    self.grants(e.0, e.1 as int)
                } by {
                    if k < below.len() {
                        assert(out[k] == below[k]);
                    }
                }
            }
        }
    }

    /// The allocation among the children gives the `k`-th child its share
    /// and goes on with what this leaves.
    pub proof fn lemma_shares_used(&self, k: int, q: int)
        requires
            0 <= k < self.ch.len(),
        ensures
            ({
                let w = weight_from(self.ch, 0);
                let here = left_at(self.ch, k, q, w);
                let next = left_at(self.ch, k + 1, q, w);
                self.allocation_from(k, here.0, here.1) == self.ch[k].allocation(
                    share_at(self.ch, k, q, w),
                ) + self.allocation_from(k + 1, next.0, next.1)
            }),
    {
    }

    /// The same for the allocation among the children `ch[i..]`.
    pub proof fn lemma_allocation_from(&self, i: int, quota: int, weight_sum: int)
        requires
            self.wf(),
            0 <= i <= self.ch.len(),
            0 <= quota <= rest_from(self.ch, i),
            quota <= usize::MAX,
            weight_sum == weight_from(self.ch, i),
        ensures
            amount_sum(self.allocation_from(i, quota, weight_sum)) == quota,
            forall|k: int|
                0 <= k < self.allocation_from(i, quota, weight_sum).len() ==> {
                    let e = #[trigger] self.allocation_from(i, quota, weight_sum)[k];
                    self.grants(e.0, e.1 as int)
                },
        decreases self, self.ch.len() - i,
    {
        if i < self.ch.len() {
            let c = self.ch[i];
            let v = weight_from(self.ch, i + 1);
            let s = rest_from(self.ch, i + 1);
            lemma_sums_nonnegative(self.ch, i + 1);
            lemma_sorted_suffix(self.ch, i, i + 1);
            lemma_share_bounds(c.rest_quota, c.weight, quota, weight_sum, v, s);
            let a = share(c.rest_quota, c.weight, quota, weight_sum);
            c.lemma_allocation(a);
            self.lemma_allocation_from(i + 1, quota - a, weight_sum - c.weight);
            let first = c.allocation(a);
            let rest = self.allocation_from(i + 1, quota - a, weight_sum - c.weight);
            lemma_amount_sum_concat(first, rest);
            let out = first + rest;
            assert(out == self.allocation_from(i, quota, weight_sum));
            assert forall|k: int| 0 <= k < out.len() implies {
                let e = #[trigger] out[k];
                self.grants(e.0, e.1 as int)
            } by {
                if k < first.len() {
                    assert(out[k] == first[k]);
                    assert(c.grants(out[k].0, out[k].1 as int));
                } else {
                    assert(out[k] == rest[k - first.len()]);
                }
            }
        }
    }
}

proof fn lemma_weight_bound(ch: Seq<Tree>, i: int)
    requires
        0 <= i <= ch.len(),
        forall|k: int| 0 <= k < ch.len() ==> 0 <= (#[trigger] ch[k]).weight <= usize::MAX,
    ensures
        0 <= weight_from(ch, i) <= (ch.len() - i) * usize::MAX,
    decreases ch.len() - i,
{
    if i < ch.len() {
        lemma_weight_bound(ch, i + 1);
        assert((ch.len() - i) * usize::MAX == (ch.len() - (i + 1)) * usize::MAX + usize::MAX)
            by (nonlinear_arith);
    }
}

impl TreeNode {
    /// The tree that the node stands for is well formed.
    pub open spec fn wf(&self) -> bool {
        self@.wf()
    }

    proof fn lemma_view_children(&self)
        ensures
            self@.ch.len() == self.ch@.len(),
            forall|k: int| 0 <= k < self.ch@.len() ==> #[trigger] self@.ch[k] == self.ch@[k]@,
            forall|k: int|
                0 <= k < self.ch@.len() ==> 0 <= (#[trigger] self@.ch[k]).weight <= usize::MAX
                    && 0 <= self@.ch[k].rest_quota <= usize::MAX,
    {
        assert(self.tree().ch.len() == self.ch@.len());
        assert forall|k: int| 0 <= k < self.ch@.len() implies #[trigger] self@.ch[k]
            == self.ch@[k]@ by {}
        assert forall|k: int| 0 <= k < self.ch@.len() implies 0 <= (#[trigger] self@.ch[k]).weight
            <= usize::MAX && 0 <= self@.ch[k].rest_quota <= usize::MAX by {
            assert(self@.ch[k] == self.ch@[k]@);
        }
    }

    /// Sum of the weights of the children.
    fn children_weight(&self) -> (total: u128)
        ensures
            total == weight_from(self@.ch, 0),
    {
        let mut total: u128 = 0;
        let mut i: usize = self.ch.len();
        proof {
            self.lemma_view_children();
        }
        while i > 0
            invariant
                i <= self.ch@.len() <= usize::MAX,
                self@.ch.len() == self.ch@.len(),
                forall|k: int| 0 <= k < self.ch@.len() ==> #[trigger] self@.ch[k] == self.ch@[k]@,
                forall|k: int|
                    0 <= k < self.ch@.len() ==> 0 <= (#[trigger] self@.ch[k]).weight <= usize::MAX,
                total == weight_from(self@.ch, i as int),
            decreases i,
        {
            i -= 1;
            proof {
                lemma_weight_bound(self@.ch, i as int);
                assert((self.ch@.len() - i) * usize::MAX <= usize::MAX * usize::MAX)
                    by (nonlinear_arith)
                    requires
                        0 <= self.ch@.len() - i <= usize::MAX,
                        0 <= usize::MAX,
                ;
                assert(usize::MAX * usize::MAX <= 0xffff_ffff_ffff_ffff * 0xffff_ffff_ffff_ffff)
                    by (nonlinear_arith)
                    requires
                        0 <= usize::MAX <= 0xffff_ffff_ffff_ffff,
                ;
            }
            total += self.ch[i].weight as u128;
        }
        total
    }

    /// Sum of the open work of the children.
    fn children_rest(&self) -> (total: usize)
        requires
            self.wf(),
        ensures
            total == rest_from(self@.ch, 0),
    {
        let mut total: usize = 0;
        let mut i: usize = self.ch.len();
        proof {
            self.lemma_view_children();
        }
        while i > 0
            invariant
                i <= self.ch@.len(),
                self@.ch.len() == self.ch@.len(),
                forall|k: int| 0 <= k < self.ch@.len() ==> #[trigger] self@.ch[k] == self.ch@[k]@,
                forall|k: int|
                    0 <= k < self@.ch.len() ==> (#[trigger] self@.ch[k]).rest_quota >= 0
                        && self@.ch[k].weight >= 0,
                total == rest_from(self@.ch, i as int),
                rest_from(self@.ch, 0) <= usize::MAX,
            decreases i,
        {
            i -= 1;
            proof {
                lemma_sums_monotone(self@.ch, 0, i as int);
            }
            total += self.ch[i].rest_quota;
        }
        total
    }

    /// Distributes `today_quota` over the tree by weighted water-filling.
    ///
    /// A node without children takes the whole quota. Otherwise each child in
    /// turn, the most constrained first, takes its proportional share rounded
    /// down, or all its open work where that is less; the rest is shared anew
    /// among the children that follow, so that what a rounding or a cap leaves
    /// reaches the later children, and the last one takes all that is left.
    /// Quota beyond the children's open work goes to the node itself.
    pub fn allocate(&self, today_quota: usize) -> (out: Vec<(usize, usize)>)
        requires
            self.wf(),
            today_quota <= self.rest_quota,
        ensures
            out@ == self@.allocation(today_quota as int),
            amount_sum(out@) == today_quota,
            forall|k: int|
                0 <= k < out@.len() ==> self@.grants((#[trigger] out@[k]).0, out@[k].1 as int),
        decreases self,
    {
        proof {
            self@.lemma_allocation(today_quota as int);
            self.lemma_view_children();
        }
        let mut out: Vec<(usize, usize)> = Vec::new();
        if self.ch.len() == 0 {
            out.push((self.id, today_quota));
            assert(out@ =~= seq![(self.id, today_quota)]);
            return out;
        }
        let weight_total = self.children_weight();
        let rest_total = self.children_rest();
        let inner = if today_quota <= rest_total {
            today_quota
        } else {
            rest_total
        };
        let mut quota: usize = inner;
        let mut weight_sum: u128 = weight_total;
        let mut i: usize = 0;
        while i < self.ch.len()
            invariant
                self.wf(),
                i <= self.ch@.len(),
                self@.ch.len() == self.ch@.len(),
                forall|k: int| 0 <= k < self.ch@.len() ==> #[trigger] self@.ch[k] == self.ch@[k]@,
                weight_sum == weight_from(self@.ch, i as int),
                quota <= rest_from(self@.ch, i as int),
                out@ + self@.allocation_from(i as int, quota as int, weight_sum as int)
                    =~= self@.allocation_from(0, inner as int, weight_total as int),
            decreases self.ch@.len() - i,
        {
            let c = &self.ch[i];
            proof {
                assert(self@.ch[i as int] == c@);
                lemma_sums_nonnegative(self@.ch, i + 1);
                lemma_sorted_suffix(self@.ch, i as int, i + 1);
                lemma_share_bounds(
                    c.rest_quota as int,
                    c.weight as int,
                    quota as int,
                    weight_sum as int,
                    weight_from(self@.ch, i + 1),
                    rest_from(self@.ch, i + 1),
                );
            }
            let a = share_of(c.rest_quota, c.weight, quota, weight_sum);
            let mut part = c.allocate(a);
            let ghost before = out@;
            out.append(&mut part);
            proof {
                let rest = self@.allocation_from(i + 1, quota - a, weight_sum - c.weight);
                assert((before + c@.allocation(a as int)) + rest =~= before + (c@.allocation(
                    a as int,
                ) + rest));
            }
            quota -= a;
            weight_sum -= c.weight as u128;
            i += 1;
        }
        if inner < today_quota {
            out.push((self.id, today_quota - inner));
        }
        out
    }
}

/// Computes `share` without overflow.
fn share_of(rest: usize, weight: usize, quota: usize, weight_sum: u128) -> (a: usize)
    requires
        0 < rest,
        0 < weight <= weight_sum,
    ensures
        a == share(rest as int, weight as int, quota as int, weight_sum as int),
{
    assert(weight * quota <= 0xffff_ffff_ffff_ffff * 0xffff_ffff_ffff_ffff) by (nonlinear_arith)
        requires
            0 <= weight <= 0xffff_ffff_ffff_ffff,
            0 <= quota <= 0xffff_ffff_ffff_ffff,
    ;
    let x: u128 = (weight as u128) * (quota as u128);
    let cap: u128 = x / (rest as u128);
    proof {
        let r = rest as int;
        let ws = weight_sum as int;
        let xi = x as int;
        vstd::arithmetic::div_mod::lemma_fundamental_div_mod(xi, r);
        vstd::arithmetic::div_mod::lemma_mod_bound(xi, r);
        assert((ws <= xi / r) <==> (r * ws <= xi)) by (nonlinear_arith)
            requires
                r * (xi / r) <= xi,
                xi < r * (xi / r) + r,
                r > 0,
        ;
    }
    if weight_sum <= cap {
        rest
    } else {
        let d: u128 = x / weight_sum;
        proof {
            let ws = weight_sum as int;
            let xi = x as int;
            vstd::arithmetic::div_mod::lemma_fundamental_div_mod(xi, ws);
            vstd::arithmetic::div_mod::lemma_mod_bound(xi, ws);
            assert(xi / ws <= quota) by (nonlinear_arith)
                requires
                    ws * (xi / ws) <= xi,
                    xi == weight * quota,
                    0 < weight <= ws,
                    quota >= 0,
            ;
        }
        d as usize
    }
}

/// The trees that the nodes of `s` stand for.
pub open spec fn trees_of(s: Seq<TreeNode>) -> Seq<Tree> {
    Seq::new(s.len(), |i: int| s[i]@)
}

/// Where `t` goes in `s`: behind the last tree that is at least as
/// constrained as `t`. Trees that are equally constrained thus stay in the
/// order in which they came.
pub open spec fn place(s: Seq<Tree>, t: Tree) -> int
    decreases s.len(),
{
    if s.len() == 0 {
        0
    } else if ratio_le(s.last(), t) {
        s.len() as int
    } else {
        place(s.drop_last(), t)
    }
}

/// `s` with `t` at its place.
pub open spec fn insert_sorted(s: Seq<Tree>, t: Tree) -> Seq<Tree> {
    s.insert(place(s, t), t)
}

/// The trees of `s` are well formed, with work and weight, and in order of
/// increasing work per weight: what a node asks of its children.
pub open spec fn ordered(s: Seq<Tree>) -> bool {
    &&& forall|i: int|
        0 <= i < s.len() ==> (#[trigger] s[i]).wf() && s[i].rest_quota > 0 && s[i].weight > 0
    &&& forall|i: int, j: int| 0 <= i < j < s.len() ==> #[trigger] ratio_le(s[i], s[j])
}

proof fn lemma_place(s: Seq<Tree>, t: Tree)
    ensures
        0 <= place(s, t) <= s.len(),
        place(s, t) > 0 ==> ratio_le(s[place(s, t) - 1], t),
        forall|k: int| place(s, t) <= k < s.len() ==> !ratio_le(#[trigger] s[k], t),
    decreases s.len(),
{
    if s.len() > 0 && !ratio_le(s.last(), t) {
        let d = s.drop_last();
        lemma_place(d, t);
        assert forall|k: int| place(s, t) <= k < s.len() implies !ratio_le(#[trigger] s[k], t) by {
            if k < d.len() {
                assert(s[k] == d[k]);
            }
        }
        if place(s, t) > 0 {
            assert(s[place(s, t) - 1] == d[place(d, t) - 1]);
        }
    }
}

proof fn lemma_ratio_transitive(a: Tree, b: Tree, c: Tree)
    requires
        a.rest_quota > 0,
        a.weight > 0,
        b.rest_quota > 0,
        b.weight > 0,
        c.rest_quota > 0,
        c.weight > 0,
        ratio_le(a, b),
        ratio_le(b, c),
    ensures
        ratio_le(a, c),
{
    let (ar, aw, br, bw, cr, cw) = (
        a.rest_quota,
        a.weight,
        b.rest_quota,
        b.weight,
        c.rest_quota,
        c.weight,
    );
    assert(ar * cw <= cr * aw) by (nonlinear_arith)
        requires
            ar * bw <= br * aw,
            br * cw <= cr * bw,
            ar > 0,
            aw > 0,
            br > 0,
            bw > 0,
            cr > 0,
            cw > 0,
    {
        assert(ar * bw * cw <= br * aw * cw);
        assert(br * cw * aw <= cr * bw * aw);
        assert(ar * cw * bw <= cr * aw * bw);
    }
}

proof fn lemma_rest_from_insert(s: Seq<Tree>, p: int, t: Tree, i: int)
    requires
        0 <= p <= s.len(),
        0 <= i <= s.len() + 1,
    ensures
        rest_from(s.insert(p, t), i) == if i <= p {
            rest_from(s, i) + t.rest_quota
        } else {
            rest_from(s, i - 1)
        },
    decreases s.len() + 1 - i,
{
    let u = s.insert(p, t);
    if i < u.len() {
        lemma_rest_from_insert(s, p, t, i + 1);
    }
}

/// Putting a tree at its place keeps the order and adds its open work.
proof fn lemma_insert_sorted(s: Seq<Tree>, t: Tree)
    requires
        ordered(s),
        t.wf(),
        t.rest_quota > 0,
        t.weight > 0,
    ensures
        ordered(insert_sorted(s, t)),
        rest_from(insert_sorted(s, t), 0) == rest_from(s, 0) + t.rest_quota,
{
    let p = place(s, t);
    let u = insert_sorted(s, t);
    lemma_place(s, t);
    lemma_rest_from_insert(s, p, t, 0);
    assert forall|i: int, j: int| 0 <= i < j < u.len() implies #[trigger] ratio_le(u[i], u[j]) by {
        if j < p {
            assert(ratio_le(s[i], s[j]));
        } else if j == p {
            if i < p - 1 {
                assert(ratio_le(s[i], s[p - 1]));
                lemma_ratio_transitive(s[i], s[p - 1], t);
            }
        } else if i == p {
            assert(!ratio_le(s[j - 1], t));
        } else if i < p {
            assert(ratio_le(s[i], s[j - 1]));
        } else {
            assert(ratio_le(s[i - 1], s[j - 1]));
        }
    }
    assert forall|i: int| 0 <= i < u.len() implies (#[trigger] u[i]).wf() && u[i].rest_quota > 0
        && u[i].weight > 0 by {
        if i < p {
            assert(u[i] == s[i]);
        } else if i > p {
            assert(u[i] == s[i - 1]);
        }
    }
}

/// The quota and the weight that are left when the children before the
/// `k`-th have taken their shares of `q`, the children weighing `w` together.
pub open spec fn left_at(ch: Seq<Tree>, k: int, q: int, w: int) -> (int, int)
    decreases k,
{
    if k <= 0 {
        (q, w)
    } else {
        let before = left_at(ch, k - 1, q, w);
        let c = ch[k - 1];
        (before.0 - share(c.rest_quota, c.weight, before.0, before.1), before.1 - c.weight)
    }
}

/// The share that the `k`-th child takes of `q`.
pub open spec fn share_at(ch: Seq<Tree>, k: int, q: int, w: int) -> int {
    share(ch[k].rest_quota, ch[k].weight, left_at(ch, k, q, w).0, left_at(ch, k, q, w).1)
}

/// What is left for the later children is no less, for each unit of their
/// weight, than what there was for all at the beginning.
proof fn lemma_left_at(ch: Seq<Tree>, k: int, q: int)
    requires
        ordered(ch),
        0 <= k <= ch.len(),
        0 <= q <= rest_from(ch, 0),
    ensures
        left_at(ch, k, q, weight_from(ch, 0)).1 == weight_from(ch, k),
        0 <= left_at(ch, k, q, weight_from(ch, 0)).0 <= rest_from(ch, k),
        left_at(ch, k, q, weight_from(ch, 0)).0 * weight_from(ch, 0) >= q * weight_from(ch, k),
    decreases k,
{
    let w = weight_from(ch, 0);
    if k > 0 {
        lemma_left_at(ch, k - 1, q);
        let (qk, wk) = left_at(ch, k - 1, q, w);
        let c = ch[k - 1];
        let v = weight_from(ch, k);
        let s = rest_from(ch, k);
        lemma_sums_nonnegative(ch, k);
        lemma_sums_nonnegative(ch, 0);
        lemma_sorted_suffix(ch, k - 1, k);
        lemma_share_bounds(c.rest_quota, c.weight, qk, wk, v, s);
        let a = share(c.rest_quota, c.weight, qk, wk);
        let wc = c.weight;
        assert((qk - a) * w >= q * (wk - wc)) by (nonlinear_arith)
            requires
                qk * w >= q * wk,
                a * wk <= wc * qk,
                wk > 0,
                0 < wc <= wk,
                w >= 0,
                q >= 0,
                qk >= 0,
                a >= 0,
        {
            assert(a * wk * w <= wc * qk * w);
            assert((qk - a) * w * wk >= qk * w * (wk - wc));
            assert(qk * w * (wk - wc) >= q * wk * (wk - wc));
            assert((qk - a) * w * wk >= q * (wk - wc) * wk);
        }
    } else {
        assert(q * w >= q * w);
    }
}

/// Each child takes of the quota at least its part by weight, rounded down,
/// unless all its open work is less: no child is given less for the sake of
/// another.
pub proof fn lemma_fair_share(ch: Seq<Tree>, k: int, q: int)
    requires
        ordered(ch),
        0 <= k < ch.len(),
        0 <= q <= rest_from(ch, 0),
    ensures
        0 <= share_at(ch, k, q, weight_from(ch, 0)) <= ch[k].rest_quota,
        share_at(ch, k, q, weight_from(ch, 0)) == ch[k].rest_quota || (share_at(
            ch,
            k,
            q,
            weight_from(ch, 0),
        ) + 1) * weight_from(ch, 0) > ch[k].weight * q,
{
    let w = weight_from(ch, 0);
    lemma_left_at(ch, k, q);
    let (qk, wk) = left_at(ch, k, q, w);
    let c = ch[k];
    lemma_sums_nonnegative(ch, k + 1);
    lemma_sums_nonnegative(ch, 0);
    lemma_sorted_suffix(ch, k, k + 1);
    lemma_share_bounds(c.rest_quota, c.weight, qk, wk, weight_from(ch, k + 1), rest_from(ch, k + 1));
    let a = share(c.rest_quota, c.weight, qk, wk);
    let wc = c.weight;
    if a != c.rest_quota {
        lemma_sums_monotone(ch, 0, k);
        assert((a + 1) * w > wc * q) by (nonlinear_arith)
            requires
                (a + 1) * wk > wc * qk,
                qk * w >= q * wk,
                wk > 0,
                wc > 0,
                w >= wk,
                a >= 0,
        {
            assert((a + 1) * wk * w > wc * qk * w);
            assert(wc * qk * w >= wc * q * wk);
            assert((a + 1) * w * wk > wc * q * wk);
        }
    }
}

/// Whether `a` is at least as constrained as `b`.
fn ratio_le_of(a: &TreeNode, b: &TreeNode) -> (le: bool)
    ensures
        le == ratio_le(a@, b@),
{
    assert(a.rest_quota * b.weight <= 0xffff_ffff_ffff_ffff * 0xffff_ffff_ffff_ffff)
        by (nonlinear_arith)
        requires
            0 <= a.rest_quota <= 0xffff_ffff_ffff_ffff,
            0 <= b.weight <= 0xffff_ffff_ffff_ffff,
    ;
    assert(b.rest_quota * a.weight <= 0xffff_ffff_ffff_ffff * 0xffff_ffff_ffff_ffff)
        by (nonlinear_arith)
        requires
            0 <= b.rest_quota <= 0xffff_ffff_ffff_ffff,
            0 <= a.weight <= 0xffff_ffff_ffff_ffff,
    ;
    (a.rest_quota as u128) * (b.weight as u128) <= (b.rest_quota as u128) * (a.weight as u128)
}

/// Puts `t` at its place among `ch`.
fn insert_node(ch: &mut Vec<TreeNode>, t: TreeNode)
    ensures
        trees_of(final(ch)@) == insert_sorted(trees_of(old(ch)@), t@),
{
    let ghost before = trees_of(ch@);
    let mut i: usize = ch.len();
    proof {
        assert(before.subrange(0, i as int) =~= before);
    }
    while i > 0 && !ratio_le_of(&ch[i - 1], &t)
        invariant
            i <= ch@.len(),
            before == trees_of(ch@),
            place(before, t@) == place(before.subrange(0, i as int), t@),
        decreases i,
    {
        proof {
            let s = before.subrange(0, i as int);
            assert(s.last() == ch@[i - 1]@);
            assert(s.drop_last() =~= before.subrange(0, i - 1));
        }
        i -= 1;
    }
    proof {
        if i > 0 {
            let s = before.subrange(0, i as int);
            assert(s.last() == ch@[i - 1]@);
        }
    }
    ch.insert(i, t);
    assert(trees_of(ch@) =~= before.insert(i as int, t@));
}

impl Tree {
    /// Some node of the tree has the id `id`.
    pub open spec fn holds(&self, id: usize) -> bool
        decreases self,
    {
        self.id == id || exists|i: int| 0 <= i < self.ch.len() && (#[trigger] self.ch[i]).holds(id)
    }

    /// No two nodes of the tree have the same id.
    pub open spec fn apart(&self) -> bool
        decreases self,
    {
        &&& forall|i: int| 0 <= i < self.ch.len() ==> !(#[trigger] self.ch[i]).holds(self.id)
        &&& forall|i: int, j: int, id: usize|
            0 <= i < j < self.ch.len() ==> !(#[trigger] self.ch[i].holds(id)
                && #[trigger] self.ch[j].holds(id))
        &&& forall|i: int| 0 <= i < self.ch.len() ==> (#[trigger] self.ch[i]).apart()
    }

    /// An allocation on a tree without repeated ids names no project twice,
    /// and names only ids of the tree.
    pub proof fn lemma_allocation_apart(&self, quota: int)
        requires
            self.apart(),
        ensures
            forall|a: int, b: int|
                0 <= a < b < self.allocation(quota).len() ==> (#[trigger] self.allocation(
                    quota,
                )[a]).0 != (#[trigger] self.allocation(quota)[b]).0,
            forall|a: int|
                0 <= a < self.allocation(quota).len() ==> self.holds(
                    (#[trigger] self.allocation(quota)[a]).0,
                ),
        decreases self, self.ch.len() + 1,
    {
        if self.ch.len() == 0 {
        } else {
            let total = rest_from(self.ch, 0);
            let inner = if quota <= total { quota } else { total };
            let w = weight_from(self.ch, 0);
            self.lemma_allocation_from_apart(0, inner, w);
            let below = self.allocation_from(0, inner, w);
            let out = self.allocation(quota);
            assert forall|a: int| 0 <= a < out.len() implies self.holds((#[trigger] out[a]).0) by {
                if a < below.len() {
                    assert(out[a] == below[a]);
                    let j = choose|j: int|
                        0 <= j < self.ch.len() && (#[trigger] self.ch[j]).holds(below[a].0);
                }
            }
            assert forall|a: int, b: int| 0 <= a < b < out.len() implies (#[trigger] out[a]).0 != (
            #[trigger] out[b]).0 by {
                assert(out[a] == below[a]);
                if b < below.len() {
                    assert(out[b] == below[b]);
                } else {
                    let j = choose|j: int|
                        0 <= j < self.ch.len() && (#[trigger] self.ch[j]).holds(below[a].0);
                    assert(!self.ch[j].holds(self.id));
                }
            }
        }
    }

    /// The same for the allocation among the children `ch[i..]`.
    pub proof fn lemma_allocation_from_apart(&self, i: int, quota: int, weight_sum: int)
        requires
            self.apart(),
            0 <= i <= self.ch.len(),
        ensures
            forall|a: int, b: int|
                0 <= a < b < self.allocation_from(i, quota, weight_sum).len() ==> (
                #[trigger] self.allocation_from(i, quota, weight_sum)[a]).0 != (
                #[trigger] self.allocation_from(i, quota, weight_sum)[b]).0,
            forall|a: int|
                0 <= a < self.allocation_from(i, quota, weight_sum).len() ==> exists|j: int|
                    i <= j < self.ch.len() && (#[trigger] self.ch[j]).holds(
                        (#[trigger] self.allocation_from(i, quota, weight_sum)[a]).0,
                    ),
        decreases self, self.ch.len() - i,
    {
        if i < self.ch.len() {
            let c = self.ch[i];
            let s = share(c.rest_quota, c.weight, quota, weight_sum);
            c.lemma_allocation_apart(s);
            self.lemma_allocation_from_apart(i + 1, quota - s, weight_sum - c.weight);
            let first = c.allocation(s);
            let rest = self.allocation_from(i + 1, quota - s, weight_sum - c.weight);
            let out = first + rest;
            assert(out == self.allocation_from(i, quota, weight_sum));
            assert forall|a: int| 0 <= a < out.len() implies exists|j: int|
                i <= j < self.ch.len() && (#[trigger] self.ch[j]).holds((#[trigger] out[a]).0) by {
                if a < first.len() {
                    assert(out[a] == first[a]);
                    assert(self.ch[i].holds(out[a].0));
                } else {
                    assert(out[a] == rest[a - first.len()]);
                    let j = choose|j: int|
                        i + 1 <= j < self.ch.len() && (#[trigger] self.ch[j]).holds(
                            rest[a - first.len()].0,
                        );
                    assert(self.ch[j].holds(out[a].0));
                }
            }
            assert forall|a: int, b: int| 0 <= a < b < out.len() implies (#[trigger] out[a]).0 != (
            #[trigger] out[b]).0 by {
                if b < first.len() {
                    assert(out[a] == first[a] && out[b] == first[b]);
                } else if a >= first.len() {
                    assert(out[a] == rest[a - first.len()] && out[b] == rest[b - first.len()]);
                } else {
                    assert(out[a] == first[a]);
                    assert(out[b] == rest[b - first.len()]);
                    let j = choose|j: int|
                        i + 1 <= j < self.ch.len() && (#[trigger] self.ch[j]).holds(
                            rest[b - first.len()].0,
                        );
                    assert(self.ch[i].holds(first[a].0));
                    assert(!(self.ch[i].holds(first[a].0) && self.ch[j].holds(first[a].0)));
                }
            }
        }
    }

    /// All ids of the tree are below `n`.
    pub open spec fn within(&self, n: int) -> bool
        decreases self,
    {
        &&& self.id < n
        &&& forall|i: int| 0 <= i < self.ch.len() ==> (#[trigger] self.ch[i]).within(n)
    }

    /// What a tree grants, it grants to one of its ids.
    pub proof fn lemma_grants_within(&self, n: int, id: usize, amount: int)
        requires
            self.within(n),
            self.grants(id, amount),
        ensures
            id < n,
        decreases self,
    {
        if !(self.id == id && amount <= self.own()) {
            let i = choose|i: int| 0 <= i < self.ch.len() && (#[trigger] self.ch[i]).grants(
                id,
                amount,
            );
            self.ch[i].lemma_grants_within(n, id, amount);
        }
    }
}

impl Data {
    /// The project `c` can take work on the day that begins at `now`, when
    /// `rest` is the work still open on each project itself.
    ///
    /// The days are planned from the last one back to the first. What must
    /// come later in time is therefore placed first: a project waits until
    /// the work of those that depend on it is placed, and until its parent's
    /// own work is placed, which comes after that of its children. The
    /// children of the root do not wait for the root. A project past its
    /// deadline on that day takes no work, nor one that is not to do.
    pub open(crate) spec fn eligible(&self, rest: Seq<usize>, now: int, c: int) -> bool {
        let p = self.pj.at(c);
        &&& p.state == State::Todo
        &&& (p.deadline is Some ==> p.deadline->0 >= now)
        &&& forall|k: int|
            0 <= k < p.deps_rvs@.len() ==> rest[#[trigger] p.deps_rvs@[k] as int] == 0
        &&& (p.pp == 0 || rest[p.pp as int] == 0)
    }

    /// The trees of the first `k` children of the project `id` that can take
    /// work and have work and weight, in order of increasing work per weight.
    pub open(crate) spec fn kids_upto(&self, rest: Seq<usize>, now: int, id: int, k: int) -> Seq<
        Tree,
    >
        decreases self.projects().room(id), k,
    {
        if k <= 0 || k > self.pj.at(id).chpj@.len() {
            Seq::empty()
        } else {
            let before = self.kids_upto(rest, now, id, k - 1);
            let c = self.pj.at(id).chpj@[k - 1] as int;
            if self.pj.room(c) < self.pj.room(id) && self.eligible(rest, now, c) {
                let t = self.activity_tree(rest, now, c);
                if t.rest_quota > 0 && t.weight > 0 {
                    insert_sorted(before, t)
                } else {
                    before
                }
            } else {
                before
            }
        }
    }

    /// The activity tree below the project `id`: the project with the work
    /// open on itself and on the children that can take work, and with its
    /// own weight.
    pub open(crate) spec fn activity_tree(&self, rest: Seq<usize>, now: int, id: int) -> Tree
        decreases self.projects().room(id), self.projects().at(id).chpj@.len() + 1,
    {
        let ch = self.kids_upto(rest, now, id, self.pj.at(id).chpj@.len() as int);
        Tree {
            id: id as usize,
            ch,
            rest_quota: rest[id] + rest_from(ch, 0),
            weight: self.pj.at(id).weight as int,
        }
    }

    /// The work open on the first `k` children of the project `id` and on
    /// all below them.
    pub open(crate) spec fn open_upto(&self, rest: Seq<usize>, id: int, k: int) -> int
        decreases self.projects().room(id), k,
    {
        if k <= 0 || k > self.pj.at(id).chpj@.len() {
            0
        } else {
            let c = self.pj.at(id).chpj@[k - 1] as int;
            self.open_upto(rest, id, k - 1) + if self.pj.room(c) < self.pj.room(id) {
                self.open_below(rest, c)
            } else {
                0
            }
        }
    }

    /// The work open on the project `id` and on all below it.
    pub open(crate) spec fn open_below(&self, rest: Seq<usize>, id: int) -> int
        decreases self.projects().room(id), self.projects().at(id).chpj@.len() + 1,
    {
        rest[id] + self.open_upto(rest, id, self.pj.at(id).chpj@.len() as int)
    }

    /// Open work is never negative.
    pub(crate) proof fn lemma_open_upto_only(&self, rest: Seq<usize>, id: int, k: int)
        ensures
            self.open_upto(rest, id, k) >= 0,
            self.open_below(rest, id) >= self.open_upto(
                rest,
                id,
                self.pj.at(id).chpj@.len() as int,
            ),
        decreases self.projects().room(id), k,
    {
        if 0 < k <= self.pj.at(id).chpj@.len() {
            self.lemma_open_upto_only(rest, id, k - 1);
            let c = self.pj.at(id).chpj@[k - 1] as int;
            if self.pj.room(c) < self.pj.room(id) {
                let m = self.pj.at(c).chpj@.len() as int;
                self.lemma_open_upto_only(rest, c, m);
                assert(self.open_below(rest, c) == rest[c] + self.open_upto(rest, c, m));
            }
        }
        assert(self.open_below(rest, id) == rest[id] + self.open_upto(
            rest,
            id,
            self.pj.at(id).chpj@.len() as int,
        ));
    }

    /// The work open below a project is never negative.
    pub(crate) proof fn lemma_open_below(&self, rest: Seq<usize>, id: int)
        ensures
            self.open_below(rest, id) >= 0,
    {
        self.lemma_open_upto_only(rest, id, self.pj.at(id).chpj@.len() as int);
    }

    /// The work open on the first children is part of that open on all.
    pub(crate) proof fn lemma_open_upto_monotone(&self, rest: Seq<usize>, id: int, j: int, k: int)
        requires
            0 <= j <= k <= self.pj.at(id).chpj@.len(),
        ensures
            self.open_upto(rest, id, j) <= self.open_upto(rest, id, k),
        decreases k - j,
    {
        if j < k {
            self.lemma_open_upto_monotone(rest, id, j, k - 1);
            let c = self.pj.at(id).chpj@[k - 1] as int;
            self.lemma_open_upto_only(rest, c, self.pj.at(c).chpj@.len() as int);
        }
    }

    /// The activity tree is well formed, names projects of the store only,
    /// and holds no more open work than the projects below its root do.
    pub(crate) proof fn lemma_tree(&self, rest: Seq<usize>, now: int, id: int)
        requires
            self.pj.wf(),
            self.pj.live(id),
            id <= usize::MAX,
            rest.len() == self.pj.vect@.len(),
        ensures
            self.activity_tree(rest, now, id).wf(),
            self.activity_tree(rest, now, id).within(self.pj.vect@.len() as int),
            self.activity_tree(rest, now, id).id == id,
            self.activity_tree(rest, now, id).own() == rest[id],
            0 <= self.activity_tree(rest, now, id).weight <= usize::MAX,
            rest[id] <= self.activity_tree(rest, now, id).rest_quota <= self.open_below(rest, id),
        decreases self.projects().room(id), self.projects().at(id).chpj@.len() + 1,
    {
        let n = self.pj.at(id).chpj@.len() as int;
        self.lemma_kids(rest, now, id, n);
        let ch = self.kids_upto(rest, now, id, n);
        lemma_sums_nonnegative(ch, 0);
    }

    /// The same for the trees of the first `k` children.
    pub(crate) proof fn lemma_kids(&self, rest: Seq<usize>, now: int, id: int, k: int)
        requires
            self.pj.wf(),
            self.pj.live(id),
            id <= usize::MAX,
            rest.len() == self.pj.vect@.len(),
            0 <= k <= self.pj.at(id).chpj@.len(),
        ensures
            ordered(self.kids_upto(rest, now, id, k)),
            forall|i: int|
                0 <= i < self.kids_upto(rest, now, id, k).len() ==> (#[trigger] self.kids_upto(
                    rest,
                    now,
                    id,
                    k,
                )[i]).within(self.pj.vect@.len() as int),
            rest_from(self.kids_upto(rest, now, id, k), 0) <= self.open_upto(rest, id, k),
        decreases self.projects().room(id), k,
    {
        if k > 0 {
            self.lemma_kids(rest, now, id, k - 1);
            let before = self.kids_upto(rest, now, id, k - 1);
            let c = self.pj.at(id).chpj@[k - 1] as int;
            self.pj.lemma_room(id, k - 1);
            self.lemma_open_upto_only(rest, c, self.pj.at(c).chpj@.len() as int);
            if self.eligible(rest, now, c) {
                self.lemma_tree(rest, now, c);
                let t = self.activity_tree(rest, now, c);
                if t.rest_quota > 0 && t.weight > 0 {
                    lemma_insert_sorted(before, t);
                    let after = insert_sorted(before, t);
                    let p = place(before, t);
                    lemma_place(before, t);
                    assert forall|i: int| 0 <= i < after.len() implies (#[trigger] after[i]).within(
                        self.pj.vect@.len() as int,
                    ) by {
                        if i < p {
                            assert(after[i] == before[i]);
                        } else if i > p {
                            assert(after[i] == before[i - 1]);
                        }
                    }
                }
            }
        } else {
            assert(self.kids_upto(rest, now, id, k).len() == 0);
        }
    }

    /// Every project of the tree `t` but the one at its root can take work
    /// on the day that begins at `now`.
    pub open(crate) spec fn gated(&self, rest: Seq<usize>, now: int, t: Tree) -> bool
        decreases t,
    {
        forall|i: int|
            0 <= i < t.ch.len() ==> self.eligible(rest, now, (#[trigger] t.ch[i]).id as int)
                && self.gated(rest, now, t.ch[i])
    }

    /// The activity tree holds no project that cannot take work.
    pub(crate) proof fn lemma_gated(&self, rest: Seq<usize>, now: int, id: int)
        requires
            self.pj.wf(),
            self.pj.live(id),
            id <= usize::MAX,
            rest.len() == self.pj.vect@.len(),
        ensures
            self.gated(rest, now, self.activity_tree(rest, now, id)),
        decreases self.projects().room(id), self.projects().at(id).chpj@.len() + 1,
    {
        let n = self.pj.at(id).chpj@.len() as int;
        self.lemma_gated_kids(rest, now, id, n);
        let t = self.activity_tree(rest, now, id);
        assert(t.ch == self.kids_upto(rest, now, id, n));
        assert forall|i: int| 0 <= i < t.ch.len() implies self.eligible(
            rest,
            now,
            (#[trigger] t.ch[i]).id as int,
        ) && self.gated(rest, now, t.ch[i]) by {}
    }

    /// The same for the trees of the first `k` children.
    pub(crate) proof fn lemma_gated_kids(&self, rest: Seq<usize>, now: int, id: int, k: int)
        requires
            self.pj.wf(),
            self.pj.live(id),
            id <= usize::MAX,
            rest.len() == self.pj.vect@.len(),
            0 <= k <= self.pj.at(id).chpj@.len(),
        ensures
            forall|i: int|
                0 <= i < self.kids_upto(rest, now, id, k).len() ==> self.eligible(
                    rest,
                    now,
                    (#[trigger] self.kids_upto(rest, now, id, k)[i]).id as int,
                ) && self.gated(rest, now, self.kids_upto(rest, now, id, k)[i]),
        decreases self.projects().room(id), k,
    {
        if k > 0 {
            self.lemma_gated_kids(rest, now, id, k - 1);
            let before = self.kids_upto(rest, now, id, k - 1);
            let c = self.pj.at(id).chpj@[k - 1] as int;
            self.pj.lemma_room(id, k - 1);
            if self.eligible(rest, now, c) {
                self.lemma_tree(rest, now, c);
                self.lemma_gated(rest, now, c);
                let t = self.activity_tree(rest, now, c);
                if t.rest_quota > 0 && t.weight > 0 {
                    let after = insert_sorted(before, t);
                    let p = place(before, t);
                    lemma_place(before, t);
                    assert forall|i: int| 0 <= i < after.len() implies self.eligible(
                        rest,
                        now,
                        (#[trigger] after[i]).id as int,
                    ) && self.gated(rest, now, after[i]) by {
                        if i < p {
                            assert(after[i] == before[i]);
                        } else if i > p {
                            assert(after[i] == before[i - 1]);
                        }
                    }
                }
            }
        }
    }

    /// What a tree grants, it grants to its root or to a project that can
    /// take work.
    pub(crate) proof fn lemma_grants_gated(
        &self,
        rest: Seq<usize>,
        now: int,
        t: Tree,
        id: usize,
        amount: int,
    )
        requires
            self.gated(rest, now, t),
            t.grants(id, amount),
        ensures
            id == t.id || self.eligible(rest, now, id as int),
        decreases t,
    {
        if !(t.id == id && amount <= t.own()) {
            let i = choose|i: int| 0 <= i < t.ch.len() && (#[trigger] t.ch[i]).grants(id, amount);
            self.lemma_grants_gated(rest, now, t.ch[i], id, amount);
        }
    }

    /// Each node of the tree `t` has on itself the work that `rest` holds
    /// for its project.
    pub open(crate) spec fn faithful(&self, rest: Seq<usize>, t: Tree) -> bool
        decreases t,
    {
        &&& t.own() == rest[t.id as int]
        &&& forall|i: int| 0 <= i < t.ch.len() ==> self.faithful(rest, #[trigger] t.ch[i])
    }

    /// The activity tree holds for each project the work open on it.
    pub(crate) proof fn lemma_faithful(&self, rest: Seq<usize>, now: int, id: int)
        requires
            self.pj.wf(),
            self.pj.live(id),
            id <= usize::MAX,
            rest.len() == self.pj.vect@.len(),
        ensures
            self.faithful(rest, self.activity_tree(rest, now, id)),
        decreases self.projects().room(id), self.projects().at(id).chpj@.len() + 1,
    {
        let n = self.pj.at(id).chpj@.len() as int;
        self.lemma_faithful_kids(rest, now, id, n);
        self.lemma_tree(rest, now, id);
        let t = self.activity_tree(rest, now, id);
        assert(t.ch == self.kids_upto(rest, now, id, n));
        assert forall|i: int| 0 <= i < t.ch.len() implies self.faithful(
            rest,
            #[trigger] t.ch[i],
        ) by {}
    }

    /// The same for the trees of the first `k` children.
    pub(crate) proof fn lemma_faithful_kids(&self, rest: Seq<usize>, now: int, id: int, k: int)
        requires
            self.pj.wf(),
            self.pj.live(id),
            id <= usize::MAX,
            rest.len() == self.pj.vect@.len(),
            0 <= k <= self.pj.at(id).chpj@.len(),
        ensures
            forall|i: int|
                0 <= i < self.kids_upto(rest, now, id, k).len() ==> self.faithful(
                    rest,
                    #[trigger] self.kids_upto(rest, now, id, k)[i],
                ),
        decreases self.projects().room(id), k,
    {
        if k > 0 {
            self.lemma_faithful_kids(rest, now, id, k - 1);
            let before = self.kids_upto(rest, now, id, k - 1);
            let c = self.pj.at(id).chpj@[k - 1] as int;
            self.pj.lemma_room(id, k - 1);
            if self.eligible(rest, now, c) {
                self.lemma_faithful(rest, now, c);
                let t = self.activity_tree(rest, now, c);
                if t.rest_quota > 0 && t.weight > 0 {
                    let after = insert_sorted(before, t);
                    let p = place(before, t);
                    lemma_place(before, t);
                    assert forall|i: int| 0 <= i < after.len() implies self.faithful(
                        rest,
                        #[trigger] after[i],
                    ) by {
                        if i < p {
                            assert(after[i] == before[i]);
                        } else if i > p {
                            assert(after[i] == before[i - 1]);
                        }
                    }
                }
            }
        }
    }

    /// What a tree grants to a project is within the work open on it.
    pub(crate) proof fn lemma_grants_faithful(
        &self,
        rest: Seq<usize>,
        t: Tree,
        id: usize,
        amount: int,
    )
        requires
            self.faithful(rest, t),
            t.grants(id, amount),
        ensures
            amount <= rest[id as int],
        decreases t,
    {
        if !(t.id == id && amount <= t.own()) {
            let i = choose|i: int| 0 <= i < t.ch.len() && (#[trigger] t.ch[i]).grants(id, amount);
            self.lemma_grants_faithful(rest, t.ch[i], id, amount);
        }
    }

    /// The tree `t` is the activity tree of the `m`-th child of the
    /// project `id`.
    pub open(crate) spec fn kid_of(&self, rest: Seq<usize>, now: int, id: int, t: Tree, m: int) -> bool {
        0 <= m < self.pj.at(id).chpj@.len() && t == self.activity_tree(
            rest,
            now,
            self.pj.at(id).chpj@[m] as int,
        )
    }

    /// The tree `t` is the activity tree of one of the first `k` children
    /// of the project `id`.
    pub open(crate) spec fn kid_among(&self, rest: Seq<usize>, now: int, id: int, t: Tree, k: int) -> bool {
        exists|m: int| m < k && #[trigger] self.kid_of(rest, now, id, t, m)
    }

    /// The trees of the first `k` children are the activity trees of
    /// children among these, each of another child.
    pub(crate) proof fn lemma_kids_are(&self, rest: Seq<usize>, now: int, id: int, k: int)
        requires
            self.pj.wf(),
            self.pj.live(id),
            id <= usize::MAX,
            rest.len() == self.pj.vect@.len(),
            0 <= k <= self.pj.at(id).chpj@.len(),
        ensures
            forall|i: int|
                0 <= i < self.kids_upto(rest, now, id, k).len() ==> self.kid_among(
                    rest,
                    now,
                    id,
                    #[trigger] self.kids_upto(rest, now, id, k)[i],
                    k,
                ),
            forall|i: int, j: int|
                0 <= i < j < self.kids_upto(rest, now, id, k).len() ==> (#[trigger] self.kids_upto(
                    rest,
                    now,
                    id,
                    k,
                )[i]).id != (#[trigger] self.kids_upto(rest, now, id, k)[j]).id,
        decreases k,
    {
        if k > 0 {
            self.lemma_kids_are(rest, now, id, k - 1);
            let before = self.kids_upto(rest, now, id, k - 1);
            let list = self.pj.at(id).chpj@;
            let c = list[k - 1] as int;
            self.pj.lemma_room(id, k - 1);
            assert(self.pj.record_ok(id));
            if self.eligible(rest, now, c) {
                self.lemma_tree(rest, now, c);
                let t = self.activity_tree(rest, now, c);
                if t.rest_quota > 0 && t.weight > 0 {
                    let after = insert_sorted(before, t);
                    let p = place(before, t);
                    lemma_place(before, t);
                    assert(self.kid_of(rest, now, id, t, k - 1));
                    assert forall|i: int| 0 <= i < after.len() implies self.kid_among(
                        rest,
                        now,
                        id,
                        #[trigger] after[i],
                        k,
                    ) by {
                        if i < p {
                            assert(after[i] == before[i]);
                            assert(self.kid_among(rest, now, id, before[i], k - 1));
                            let m = choose|m: int|
                                m < k - 1 && #[trigger] self.kid_of(rest, now, id, before[i], m);
                            assert(self.kid_of(rest, now, id, after[i], m));
                        } else if i > p {
                            assert(after[i] == before[i - 1]);
                            assert(self.kid_among(rest, now, id, before[i - 1], k - 1));
                            let m = choose|m: int|
                                m < k - 1 && #[trigger] self.kid_of(rest, now, id, before[i - 1], m);
                            assert(self.kid_of(rest, now, id, after[i], m));
                        } else {
                            assert(self.kid_of(rest, now, id, after[i], k - 1));
                        }
                    }
                    assert forall|x: int| 0 <= x < before.len() implies (#[trigger] before[x]).id
                        != t.id by {
                        assert(self.kid_among(rest, now, id, before[x], k - 1));
                        let m = choose|m: int|
                            m < k - 1 && #[trigger] self.kid_of(rest, now, id, before[x], m);
                        self.pj.lemma_room(id, m);
                        self.lemma_tree(rest, now, list[m] as int);
                        assert(list[m] != list[k - 1]);
                    }
                    assert forall|i: int, j: int| 0 <= i < j < after.len() implies (
                    #[trigger] after[i]).id != (#[trigger] after[j]).id by {
                        let a = if i < p { i } else { i - 1 };
                        let b = if j < p { j } else { j - 1 };
                        if i != p && j != p {
                            assert(after[i] == before[a] && after[j] == before[b]);
                        } else if i == p {
                            assert(after[j] == before[b]);
                        } else {
                            assert(after[i] == before[a]);
                        }
                    }
                }
            }
        }
    }

    /// What the activity tree of a project holds is the project or stands
    /// below it.
    pub(crate) proof fn lemma_holds_above(&self, rest: Seq<usize>, now: int, id: int, x: usize)
        requires
            self.pj.wf(),
            self.pj.live(id),
            id <= usize::MAX,
            rest.len() == self.pj.vect@.len(),
            self.activity_tree(rest, now, id).holds(x),
        ensures
            self.pj.above(id, x as int),
        decreases self.projects().room(id),
    {
        let t = self.activity_tree(rest, now, id);
        let n = self.pj.at(id).chpj@.len() as int;
        self.lemma_tree(rest, now, id);
        if t.id != x {
            assert(t.ch == self.kids_upto(rest, now, id, n));
            let i = choose|i: int| 0 <= i < t.ch.len() && (#[trigger] t.ch[i]).holds(x);
            self.lemma_kids_are(rest, now, id, n);
            assert(self.kid_among(rest, now, id, t.ch[i], n));
            let m = choose|m: int| m < n && #[trigger] self.kid_of(rest, now, id, t.ch[i], m);
            let c = self.pj.at(id).chpj@[m] as int;
            self.pj.lemma_room(id, m);
            assert(self.pj.record_ok(id));
            self.lemma_holds_above(rest, now, c, x);
            self.pj.lemma_above_child(id, c, x as int);
        }
    }

    /// No two nodes of the activity tree stand for the same project.
    pub(crate) proof fn lemma_apart(&self, rest: Seq<usize>, now: int, id: int)
        requires
            self.pj.wf(),
            self.pj.live(id),
            id <= usize::MAX,
            rest.len() == self.pj.vect@.len(),
        ensures
            self.activity_tree(rest, now, id).apart(),
        decreases self.projects().room(id),
    {
        let t = self.activity_tree(rest, now, id);
        let n = self.pj.at(id).chpj@.len() as int;
        let list = self.pj.at(id).chpj@;
        self.lemma_tree(rest, now, id);
        self.lemma_kids_are(rest, now, id, n);
        assert(t.ch == self.kids_upto(rest, now, id, n));
        assert(self.pj.record_ok(id));
        assert forall|i: int| 0 <= i < t.ch.len() implies !(#[trigger] t.ch[i]).holds(t.id)
            && t.ch[i].apart() by {
            assert(self.kid_among(rest, now, id, t.ch[i], n));
            let m = choose|m: int| m < n && #[trigger] self.kid_of(rest, now, id, t.ch[i], m);
            let c = list[m] as int;
            self.pj.lemma_room(id, m);
            self.lemma_apart(rest, now, c);
            if t.ch[i].holds(t.id) {
                self.lemma_holds_above(rest, now, c, t.id);
                self.pj.lemma_above_rank(c, id);
                assert(self.pj.record_ok(c));
            }
        }
        assert forall|i: int, j: int, x: usize| 0 <= i < j < t.ch.len() implies !(
        #[trigger] t.ch[i].holds(x) && #[trigger] t.ch[j].holds(x)) by {
            if t.ch[i].holds(x) && t.ch[j].holds(x) {
                assert(self.kid_among(rest, now, id, t.ch[i], n));
                assert(self.kid_among(rest, now, id, t.ch[j], n));
                let a = choose|m: int| m < n && #[trigger] self.kid_of(rest, now, id, t.ch[i], m);
                let b = choose|m: int| m < n && #[trigger] self.kid_of(rest, now, id, t.ch[j], m);
                let ca = list[a] as int;
                let cb = list[b] as int;
                self.pj.lemma_room(id, a);
                self.pj.lemma_room(id, b);
                self.lemma_tree(rest, now, ca);
                self.lemma_tree(rest, now, cb);
                self.lemma_holds_above(rest, now, ca, x);
                self.lemma_holds_above(rest, now, cb, x);
                assert(self.pj.record_ok(ca));
                assert(self.pj.record_ok(cb));
                self.pj.lemma_above_one(ca, cb, x as int);
                assert(t.ch[i].id != t.ch[j].id);
            }
        }
    }

    /// What an allocation on the activity tree gives fits the open work:
    /// it names projects of the store, none twice, and gives none more than
    /// is open on it.
    pub proof fn lemma_allocation_fits(&self, rest: Seq<usize>, now: int, quota: int)
        requires
            self.projects().wf(),
            rest.len() == self.projects()@.len(),
            0 <= quota <= self.activity_tree(rest, now, 0).rest_quota,
            quota <= usize::MAX,
        ensures
            fits(rest, self.activity_tree(rest, now, 0).allocation(quota)),
    {
        let tree = self.activity_tree(rest, now, 0);
        let out = tree.allocation(quota);
        self.lemma_tree(rest, now, 0);
        self.lemma_apart(rest, now, 0);
        self.lemma_faithful(rest, now, 0);
        tree.lemma_allocation(quota);
        tree.lemma_allocation_apart(quota);
        assert forall|k: int| 0 <= k < out.len() implies (#[trigger] out[k]).0 < rest.len()
            && out[k].1 <= rest[out[k].0 as int] by {
            tree.lemma_grants_within(rest.len() as int, out[k].0, out[k].1 as int);
            self.lemma_grants_faithful(rest, tree, out[k].0, out[k].1 as int);
        }
    }

    /// The project `id` is still to do, and not past its deadline on the
    /// day that begins at `now`.
    pub open(crate) spec fn open_on(&self, id: int, now: int) -> bool {
        let p = self.pj.at(id);
        p.state == State::Todo && (p.deadline is Some ==> p.deadline->0 >= now)
    }

    /// Each entry of `allocations` gives work to a project of the store, and,
    /// where that is not the root, to one that is still to do and not past its
    /// deadline on the day that begins at `day`.
    pub open(crate) spec fn well_placed(&self, allocations: Seq<(usize, usize)>, day: int) -> bool {
        forall|j: int|
            0 <= j < allocations.len() ==> {
                let e = #[trigger] allocations[j];
                &&& e.0 < self.pj@.len()
                &&& e.0 == 0 || self.open_on(e.0 as int, day)
            }
    }

    /// An allocation on the activity tree gives work to no project but the
    /// root that cannot take work: each is still to do and not past its
    /// deadline, no project that depends on it has work open on itself, and
    /// its parent has none either, unless that is the root. And it gives a
    /// project no more than the work open on it.
    pub proof fn lemma_allocation_gated(&self, rest: Seq<usize>, now: int, quota: int, k: int)
        requires
            self.projects().wf(),
            rest.len() == self.projects()@.len(),
            0 <= quota <= self.activity_tree(rest, now, 0).rest_quota,
            quota <= usize::MAX,
            0 <= k < self.activity_tree(rest, now, 0).allocation(quota).len(),
        ensures
            ({
                let e = self.activity_tree(rest, now, 0).allocation(quota)[k];
                &&& e.0 == 0 || self.eligible(rest, now, e.0 as int)
                &&& e.1 <= rest[e.0 as int]
            }),
    {
        let tree = self.activity_tree(rest, now, 0);
        self.lemma_tree(rest, now, 0);
        self.lemma_gated(rest, now, 0);
        self.lemma_faithful(rest, now, 0);
        tree.lemma_allocation(quota);
        let e = tree.allocation(quota)[k];
        self.lemma_grants_gated(rest, now, tree, e.0, e.1 as int);
        self.lemma_grants_faithful(rest, tree, e.0, e.1 as int);
    }

    /// A day gives work to no project but the root that is not to do or is
    /// past its deadline on that day.
    pub proof fn lemma_day_fill_open(&self, rest: Seq<usize>, now: int, budget: int, k: int)
        requires
            self.projects().wf(),
            rest.len() == self.projects()@.len(),
            budget <= usize::MAX,
            0 <= k < self.day_fill(rest, now, budget).0.len(),
        ensures
            ({
                let e = self.day_fill(rest, now, budget).0[k];
                e.0 == 0 || self.open_on(e.0 as int, now)
            }),
        decreases budget,
    {
        let tree = self.activity_tree(rest, now, 0);
        if budget <= 0 || tree.rest_quota <= 0 {
        } else {
            let quota = if budget <= tree.rest_quota {
                budget
            } else {
                tree.rest_quota
            };
            let out = tree.allocation(quota);
            let next = applied(rest, out);
            self.lemma_tree(rest, now, 0);
            self.lemma_allocation_fits(rest, now, quota);
            lemma_applied(rest, out);
            let more = self.day_fill(next, now, budget - quota);
            if k < out.len() {
                assert((out + more.0)[k] == out[k]);
                self.lemma_allocation_gated(rest, now, quota, k);
            } else {
                assert((out + more.0)[k] == more.0[k - out.len()]);
                self.lemma_day_fill_open(next, now, budget - quota, k - out.len());
            }
        }
    }

    /// Whether the project `c` can take work on the day that begins at `now`.
    fn is_eligible(&self, c: usize, rest: &Vec<usize>, now: i64) -> (r: bool)
        requires
            self.pj.wf(),
            self.pj.live(c as int),
            rest@.len() == self.pj.vect@.len(),
        ensures
            r == self.eligible(rest@, now as int, c as int),
    {
        let p = self.pj.rec(c);
        proof {
            assert(self.pj.record_ok(c as int));
        }
        match p.state {
            State::Todo => {},
            _ => {
                return false;
            },
        }
        if let Some(d) = p.deadline {
            if d < now {
                return false;
            }
        }
        if p.pp != 0 && rest[p.pp] != 0 {
            return false;
        }
        let mut k: usize = 0;
        while k < p.deps_rvs.len()
            invariant
                k <= p.deps_rvs@.len(),
                self.pj.wf(),
                self.pj.live(c as int),
                self.pj.record_ok(c as int),
                *p == self.pj.at(c as int),
                rest@.len() == self.pj.vect@.len(),
                forall|j: int| 0 <= j < k ==> rest@[#[trigger] p.deps_rvs@[j] as int] == 0,
            decreases p.deps_rvs@.len() - k,
        {
            let r = p.deps_rvs[k];
            assert(self.pj.live(p.deps_rvs@[k as int] as int));
            if rest[r] != 0 {
                return false;
            }
            k += 1;
        }
        true
    }

    /// Builds the activity tree below the project `id` for the day that
    /// begins at `now`, from the work `rest` still open on each project.
    pub fn create_activity_tree(&self, id: usize, rest: &Vec<usize>, now: i64) -> (node: TreeNode)
        requires
            self.projects().wf(),
            self.projects().live(id as int),
            rest@.len() == self.projects()@.len(),
            self.open_below(rest@, id as int) <= usize::MAX,
        ensures
            node@ == self.activity_tree(rest@, now as int, id as int),
            node.wf(),
        decreases self.projects().room(id as int),
    {
        let p = self.pj.rec(id);
        let mut ch: Vec<TreeNode> = Vec::new();
        let mut sum: usize = 0;
        let mut k: usize = 0;
        proof {
            self.lemma_tree(rest@, now as int, id as int);
            self.lemma_open_upto_only(rest@, id as int, 0);
            assert(trees_of(ch@) =~= self.kids_upto(rest@, now as int, id as int, 0));
        }
        while k < p.chpj.len()
            invariant
                k <= p.chpj@.len(),
                self.pj.wf(),
                self.pj.live(id as int),
                *p == self.pj.at(id as int),
                rest@.len() == self.pj.vect@.len(),
                self.open_below(rest@, id as int) <= usize::MAX,
                trees_of(ch@) == self.kids_upto(rest@, now as int, id as int, k as int),
                sum == rest_from(trees_of(ch@), 0),
            decreases p.chpj@.len() - k,
        {
            let c = p.chpj[k];
            proof {
                self.pj.lemma_room(id as int, k as int);
                self.lemma_kids(rest@, now as int, id as int, k as int);
                self.lemma_kids(rest@, now as int, id as int, k + 1);
                self.lemma_open_upto_monotone(
                    rest@,
                    id as int,
                    k + 1,
                    p.chpj@.len() as int,
                );
                self.lemma_open_upto_only(rest@, id as int, k as int);
                self.lemma_open_upto_only(rest@, c as int, self.pj.at(c as int).chpj@.len() as int);
            }
            if self.is_eligible(c, rest, now) {
                let t = self.create_activity_tree(c, rest, now);
                if t.rest_quota != 0 && t.weight != 0 {
                    proof {
                        self.lemma_tree(rest@, now as int, c as int);
                        lemma_insert_sorted(trees_of(ch@), t@);
                    }
                    sum += t.rest_quota;
                    insert_node(&mut ch, t);
                }
            }
            k += 1;
        }
        let node = TreeNode { id, ch, rest_quota: rest[id] + sum, weight: p.weight };
        proof {
            assert(node@.ch =~= trees_of(ch@));
        }
        node
    }
}

/// What one day of the plan holds: the events that fall on it and the work
/// that it gives to each project.
#[derive(Clone, Debug)]
pub struct DayPlan {
    /// The time at which the day begins.
    pub day: i64,
    pub events: Vec<Event>,
    /// Pairs of a project and the amount of work placed on it.
    pub allocations: Vec<(usize, usize)>,
}

/// A day of the plan as a mathematical value.
pub ghost struct DayPlanView {
    pub day: i64,
    pub events: Seq<EventView>,
    pub allocations: Seq<(usize, usize)>,
}

impl View for DayPlan {
    type V = DayPlanView;

    open spec fn view(&self) -> DayPlanView {
        DayPlanView {
            day: self.day,
            events: Seq::new(self.events@.len(), |j: int| self.events@[j]@),
            allocations: self.allocations@,
        }
    }
}

/// The days that the plans of `s` stand for.
pub open spec fn plans_of(s: Seq<DayPlan>) -> Seq<DayPlanView> {
    Seq::new(s.len(), |i: int| s[i]@)
}

/// The event `ev` as it is handed out.
pub open spec fn event_view(ev: Ev) -> EventView {
    EventView { id: ev.id, name: ev.name@, time: ev.time, state: ev.state, quota: ev.quota_esti }
}

/// `rest` after the amounts of `out` were taken from the open work of
/// their projects.
pub open spec fn applied(rest: Seq<usize>, out: Seq<(usize, usize)>) -> Seq<usize>
    decreases out.len(),
{
    if out.len() == 0 {
        rest
    } else {
        let r = applied(rest, out.drop_last());
        let e = out.last();
        r.update(e.0 as int, (r[e.0 as int] - e.1) as usize)
    }
}

/// The entries of `out` name projects of `rest`, none twice, and give none
/// more than the work open on it.
pub open spec fn fits(rest: Seq<usize>, out: Seq<(usize, usize)>) -> bool {
    &&& forall|k: int|
        0 <= k < out.len() ==> (#[trigger] out[k]).0 < rest.len() && out[k].1 <= rest[out[k].0 as int]
    &&& forall|a: int, b: int|
        0 <= a < b < out.len() ==> (#[trigger] out[a]).0 != (#[trigger] out[b]).0
}

/// Taking amounts that fit leaves each project named with its open work
/// less the amount, and the others as they were.
pub proof fn lemma_applied(rest: Seq<usize>, out: Seq<(usize, usize)>)
    requires
        fits(rest, out),
    ensures
        applied(rest, out).len() == rest.len(),
        forall|i: int| 0 <= i < rest.len() ==> #[trigger] applied(rest, out)[i] <= rest[i],
        forall|k: int|
            0 <= k < out.len() ==> applied(rest, out)[(#[trigger] out[k]).0 as int] == rest[out[k].0 as int]
                - out[k].1,
        forall|i: int|
            0 <= i < rest.len() && (forall|k: int| 0 <= k < out.len() ==> (#[trigger] out[k]).0
                != i) ==> #[trigger] applied(rest, out)[i] == rest[i],
    decreases out.len(),
{
    if out.len() > 0 {
        let shorter = out.drop_last();
        assert(fits(rest, shorter)) by {
            assert forall|k: int| 0 <= k < shorter.len() implies (#[trigger] shorter[k]).0
                < rest.len() && shorter[k].1 <= rest[shorter[k].0 as int] by {
                assert(shorter[k] == out[k]);
            }
            assert forall|a: int, b: int| 0 <= a < b < shorter.len() implies (
            #[trigger] shorter[a]).0 != (#[trigger] shorter[b]).0 by {
                assert(shorter[a] == out[a] && shorter[b] == out[b]);
            }
        }
        lemma_applied(rest, shorter);
        let r = applied(rest, shorter);
        let e = out.last();
        assert(out[out.len() - 1] == e);
        assert(r[e.0 as int] == rest[e.0 as int]) by {
            assert forall|k: int| 0 <= k < shorter.len() implies (#[trigger] shorter[k]).0
                != e.0 as int by {
                assert(shorter[k] == out[k]);
            }
        }
        let after = applied(rest, out);
        assert forall|k: int| 0 <= k < out.len() implies after[(#[trigger] out[k]).0 as int]
            == rest[out[k].0 as int] - out[k].1 by {
            if k < shorter.len() {
                assert(shorter[k] == out[k]);
                assert(out[k].0 != e.0);
            }
        }
        assert forall|i: int|
            0 <= i < rest.len() && (forall|k: int| 0 <= k < out.len() ==> (#[trigger] out[k]).0
                != i) implies #[trigger] after[i] == rest[i] by {
            assert(out[out.len() - 1].0 != i);
            assert forall|k: int| 0 <= k < shorter.len() implies (#[trigger] shorter[k]).0
                != i by {
                assert(shorter[k] == out[k]);
            }
        }
    }
}

/// The work that `out` gives to the project `id`.
pub open spec fn given(out: Seq<(usize, usize)>, id: int) -> int
    decreases out.len(),
{
    if out.len() == 0 {
        0
    } else {
        given(out.drop_last(), id) + if out.last().0 == id {
            out.last().1 as int
        } else {
            0
        }
    }
}

pub proof fn lemma_given_concat(a: Seq<(usize, usize)>, b: Seq<(usize, usize)>, id: int)
    ensures
        given(a + b, id) == given(a, id) + given(b, id),
    decreases b.len(),
{
    if b.len() == 0 {
        assert(a + b =~= a);
    } else {
        assert((a + b).drop_last() =~= a + b.drop_last());
        lemma_given_concat(a, b.drop_last(), id);
    }
}

/// What is taken from the open work of a project is what was given to it.
pub proof fn lemma_applied_given(rest: Seq<usize>, out: Seq<(usize, usize)>, id: int)
    requires
        fits(rest, out),
        0 <= id < rest.len(),
    ensures
        applied(rest, out)[id] + given(out, id) == rest[id],
        given(out, id) >= 0,
    decreases out.len(),
{
    if out.len() > 0 {
        let shorter = out.drop_last();
        assert(fits(rest, shorter)) by {
            assert forall|k: int| 0 <= k < shorter.len() implies (#[trigger] shorter[k]).0
                < rest.len() && shorter[k].1 <= rest[shorter[k].0 as int] by {
                assert(shorter[k] == out[k]);
            }
            assert forall|a: int, b: int| 0 <= a < b < shorter.len() implies (
            #[trigger] shorter[a]).0 != (#[trigger] shorter[b]).0 by {
                assert(shorter[a] == out[a] && shorter[b] == out[b]);
            }
        }
        lemma_applied_given(rest, shorter, id);
        lemma_applied(rest, shorter);
        let e = out.last();
        assert(out[out.len() - 1] == e);
        if e.0 == id {
            assert forall|k: int| 0 <= k < shorter.len() implies (#[trigger] shorter[k]).0
                != id by {
                assert(shorter[k] == out[k]);
            }
        }
    }
}

/// Takes the amounts of `out` from the open work of their projects.
fn apply(rest: &mut Vec<usize>, out: &Vec<(usize, usize)>)
    requires
        fits(old(rest)@, out@),
    ensures
        final(rest)@ == applied(old(rest)@, out@),
{
    let ghost start = rest@;
    let mut k: usize = 0;
    while k < out.len()
        invariant
            k <= out@.len(),
            rest@.len() == start.len(),
            fits(start, out@),
            rest@ == applied(start, out@.subrange(0, k as int)),
        decreases out@.len() - k,
    {
        let (id, amount) = out[k];
        proof {
            let done = out@.subrange(0, k as int);
            let s = out@.subrange(0, k + 1);
            assert(s.drop_last() =~= done);
            assert(s.last() == out@[k as int]);
            assert(fits(start, done)) by {
                assert forall|j: int| 0 <= j < done.len() implies (#[trigger] done[j]).0
                    < start.len() && done[j].1 <= start[done[j].0 as int] by {
                    assert(done[j] == out@[j]);
                }
                assert forall|a: int, b: int| 0 <= a < b < done.len() implies (
                #[trigger] done[a]).0 != (#[trigger] done[b]).0 by {
                    assert(done[a] == out@[a] && done[b] == out@[b]);
                }
            }
            lemma_applied(start, done);
            assert forall|j: int| 0 <= j < done.len() implies (#[trigger] done[j]).0
                != id as int by {
                assert(done[j] == out@[j]);
            }
            assert(rest@[id as int] == start[id as int]);
        }
        rest[id] = rest[id] - amount;
        k += 1;
    }
    proof {
        assert(out@.subrange(0, k as int) =~= out@);
    }
}

impl Data {
    /// The work that a day can take: the weight of the root project.
    pub open(crate) spec fn capacity(&self) -> int {
        self.pj.at(0).weight as int
    }

    /// The work open on each project itself before any is placed: what is
    /// estimated and not done, for a project that is still to do.
    pub open(crate) spec fn initial_rest(&self) -> Seq<usize> {
        Seq::new(
            self.pj.vect@.len(),
            |i: int|
                if self.pj.live(i) && self.pj.at(i).state == State::Todo && self.pj.at(i).quota_done
                    <= self.pj.at(i).quota_esti {
                    (self.pj.at(i).quota_esti - self.pj.at(i).quota_done) as usize
                } else {
                    0
                },
        )
    }

    /// The ids of the events of the day that begins at `now`, in order of
    /// their times.
    pub open(crate) spec fn day_events(&self, now: int) -> Seq<usize> {
        ids_between(self.ev.time@, now, now + DAY)
    }

    /// The cost of the events `ids` together.
    pub open(crate) spec fn events_quota(&self, ids: Seq<usize>) -> int
        decreases ids.len(),
    {
        if ids.len() == 0 {
            0
        } else {
            self.events_quota(ids.drop_last()) + self.ev.at(ids.last() as int).quota_esti
        }
    }

    /// What the day that begins at `now` can give to projects: the capacity
    /// of a day less the cost of its events, and nothing where the events
    /// alone take a day's capacity or more.
    pub open(crate) spec fn day_budget(&self, now: int) -> int {
        let used = self.events_quota(self.day_events(now));
        if used >= self.capacity() {
            0
        } else {
            self.capacity() - used
        }
    }

    /// The work placed on the day that begins at `now` out of `budget`, and
    /// the work open after it. As long as budget is left and the activity tree
    /// holds work, the tree is built from the work open now and as much of
    /// the budget as it can take is allocated on it.
    pub open(crate) spec fn day_fill(&self, rest: Seq<usize>, now: int, budget: int) -> (
        Seq<(usize, usize)>,
        Seq<usize>,
    )
        decreases budget,
    {
        let tree = self.activity_tree(rest, now, 0);
        if budget <= 0 || tree.rest_quota <= 0 {
            (Seq::empty(), rest)
        } else {
            let quota = if budget <= tree.rest_quota {
                budget
            } else {
                tree.rest_quota
            };
            let out = tree.allocation(quota);
            let more = self.day_fill(applied(rest, out), now, budget - quota);
            (out + more.0, more.1)
        }
    }

    /// The events of the day that begins at `now`, as they are handed out.
    pub open(crate) spec fn day_event_views(&self, now: int) -> Seq<EventView> {
        Seq::new(
            self.day_events(now).len(),
            |j: int| event_view(self.ev.at(self.day_events(now)[j] as int)),
        )
    }

    /// The plan of the days `sta`, `sta + DAY`, ... up to the day number
    /// `k`, made from the last day back to the first, beginning with the open
    /// work `rest`.
    pub open(crate) spec fn walk(&self, rest: Seq<usize>, sta: int, k: int) -> Seq<DayPlanView>
        decreases k + 1,
    {
        if k < 0 {
            Seq::empty()
        } else {
            let now = sta + k * DAY;
            let filled = self.day_fill(rest, now, self.day_budget(now));
            self.walk(filled.1, sta, k - 1).push(
                DayPlanView {
                    day: now as i64,
                    events: self.day_event_views(now),
                    allocations: filled.0,
                },
            )
        }
    }

    /// The work that the days `days` give to the project `id` together.
    pub open(crate) spec fn given_on(&self, days: Seq<DayPlanView>, id: int) -> int
        decreases days.len(),
    {
        if days.len() == 0 {
            0
        } else {
            self.given_on(days.drop_last(), id) + given(days.last().allocations, id)
        }
    }

    /// The work open on each project after the walk over the days `sta`,
    /// `sta + DAY`, ... up to the day number `k`.
    pub open(crate) spec fn walk_left(&self, rest: Seq<usize>, sta: int, k: int) -> Seq<usize>
        decreases k + 1,
    {
        if k < 0 {
            rest
        } else {
            let now = sta + k * DAY;
            self.walk_left(self.day_fill(rest, now, self.day_budget(now)).1, sta, k - 1)
        }
    }

    /// The latest deadline of a project, if any project has one.
    pub open(crate) spec fn last_deadline(&self) -> Option<i64> {
        if self.pj.time@.len() == 0 {
            None
        } else {
            Some(self.pj.time@.last().0)
        }
    }

    /// The plan from the day that begins at `day_sta` to the day that holds
    /// the latest deadline: empty where no project has a deadline, or the
    /// latest lies before `day_sta`.
    pub open(crate) spec fn plan(&self, day_sta: int) -> Seq<DayPlanView> {
        match self.last_deadline() {
            None => Seq::empty(),
            Some(due) => if due < day_sta {
                Seq::empty()
            } else {
                self.walk(self.initial_rest(), day_sta, (due - day_sta) / (DAY as int))
            },
        }
    }

    /// The work open on all projects together is less than the largest
    /// machine word.
    pub open(crate) spec fn schedulable(&self) -> bool {
        self.open_below(self.initial_rest(), 0) < usize::MAX
    }
}

impl Data {
    /// Where less work is open on each project, less is open below a project.
    pub(crate) proof fn lemma_open_monotone(&self, a: Seq<usize>, b: Seq<usize>, id: int, k: int)
        requires
            self.pj.wf(),
            self.pj.live(id),
            a.len() == self.pj.vect@.len(),
            b.len() == a.len(),
            forall|i: int| 0 <= i < a.len() ==> #[trigger] b[i] <= a[i],
            0 <= k <= self.pj.at(id).chpj@.len(),
        ensures
            self.open_upto(b, id, k) <= self.open_upto(a, id, k),
            k == self.pj.at(id).chpj@.len() ==> self.open_below(b, id) <= self.open_below(a, id),
        decreases self.projects().room(id), k,
    {
        if k > 0 {
            self.lemma_open_monotone(a, b, id, k - 1);
            let c = self.pj.at(id).chpj@[k - 1] as int;
            self.pj.lemma_room(id, k - 1);
            self.lemma_open_monotone(a, b, c, self.pj.at(c).chpj@.len() as int);
        }
    }

    /// A day places no more work than its budget.
    pub(crate) proof fn lemma_day_fill(&self, rest: Seq<usize>, now: int, budget: int)
        requires
            self.pj.wf(),
            rest.len() == self.pj.vect@.len(),
            budget <= usize::MAX,
        ensures
            self.day_fill(rest, now, budget).1.len() == rest.len(),
            forall|i: int|
                0 <= i < rest.len() ==> #[trigger] self.day_fill(rest, now, budget).1[i] <= rest[i],
            amount_sum(self.day_fill(rest, now, budget).0) <= if budget >= 0 {
                budget
            } else {
                0
            },
            forall|k: int|
                0 <= k < self.day_fill(rest, now, budget).0.len() ==> (#[trigger] self.day_fill(
                    rest,
                    now,
                    budget,
                ).0[k]).0 < rest.len(),
        decreases budget,
    {
        let tree = self.activity_tree(rest, now, 0);
        if budget <= 0 || tree.rest_quota <= 0 {
        } else {
            let quota = if budget <= tree.rest_quota {
                budget
            } else {
                tree.rest_quota
            };
            self.lemma_tree(rest, now, 0);
            tree.lemma_allocation(quota);
            let out = tree.allocation(quota);
            let next = applied(rest, out);
            self.lemma_allocation_fits(rest, now, quota);
            lemma_applied(rest, out);
            self.lemma_day_fill(next, now, budget - quota);
            let more = self.day_fill(next, now, budget - quota);
            lemma_amount_sum_concat(out, more.0);
            let all = out + more.0;
            assert forall|k: int| 0 <= k < all.len() implies (#[trigger] all[k]).0 < rest.len() by {
                if k < out.len() {
                    assert(all[k] == out[k]);
                    tree.lemma_grants_within(rest.len() as int, out[k].0, out[k].1 as int);
                } else {
                    assert(all[k] == more.0[k - out.len()]);
                }
            }
        }
    }

    /// The work open on each project itself as the store has it.
    pub(crate) fn rest_now(&self) -> (rest: Vec<usize>)
        requires
            self.pj.wf(),
        ensures
            rest@ == self.initial_rest(),
    {
        let mut rest: Vec<usize> = Vec::new();
        let mut i: usize = 0;
        while i < self.pj.vect.len()
            invariant
                i <= self.pj.vect@.len(),
                self.pj.wf(),
                rest@.len() == i,
                forall|j: int| 0 <= j < i ==> rest@[j] == self.initial_rest()[j],
            decreases self.pj.vect@.len() - i,
        {
            let mut open: usize = 0;
            if self.pj.has(i) {
                let p = self.pj.rec(i);
                proof {
                    assert(self.pj.record_ok(i as int));
                }
                match p.state {
                    State::Todo => {
                        open = p.quota_esti - p.quota_done;
                    },
                    _ => {},
                }
            }
            rest.push(open);
            i += 1;
        }
        assert(rest@ =~= self.initial_rest());
        rest
    }

    /// The events of the day that begins at `now`, and their cost together
    /// where it is below the capacity of a day, else that capacity.
    fn events_on(&self, now: i64) -> (r: (Vec<Event>, usize))
        requires
            self.pj.wf(),
            self.ev.wf(),
        ensures
            Seq::new(r.0@.len(), |j: int| r.0@[j]@) == self.day_event_views(now as int),
            r.1 == if self.events_quota(self.day_events(now as int)) >= self.capacity() {
                self.capacity()
            } else {
                self.events_quota(self.day_events(now as int))
            },
    {
        let hi = if now <= i64::MAX - DAY {
            Some(now + DAY)
        } else {
            None
        };
        let ids = self.ev.time.range(now, hi);
        proof {
            if hi is None {
                crate::index::lemma_ids_between_top(
                    self.ev.time@,
                    now as int,
                    i64::MAX + 1,
                    now + DAY,
                );
            }
            assert(ids@ == self.day_events(now as int));
        }
        let cap = self.pj.rec(0).weight;
        let mut events: Vec<Event> = Vec::new();
        let mut used: usize = 0;
        let mut j: usize = 0;
        while j < ids.len()
            invariant
                j <= ids@.len(),
                self.ev.wf(),
                ids@ == self.day_events(now as int),
                cap == self.capacity(),
                events@.len() == j,
                forall|m: int|
                    0 <= m < j ==> (#[trigger] events@[m])@ == event_view(
                        self.ev.at(ids@[m] as int),
                    ),
                used == if self.events_quota(ids@.subrange(0, j as int)) >= cap {
                    cap as int
                } else {
                    self.events_quota(ids@.subrange(0, j as int))
                },
                self.events_quota(ids@.subrange(0, j as int)) >= 0,
            decreases ids@.len() - j,
        {
            let id = ids[j];
            proof {
                crate::index::lemma_ids_between_from(
                    self.ev.time@,
                    now as int,
                    now + DAY,
                    j as int,
                );
                let k = choose|k: int|
                    0 <= k < self.ev.time@.len() && (#[trigger] self.ev.time@[k]).1 == ids@[j as int];
                assert(self.ev.time.has(self.ev.time@[k].0, self.ev.time@[k].1));
                let s = ids@.subrange(0, j + 1);
                assert(s.drop_last() =~= ids@.subrange(0, j as int));
                assert(s.last() == id);
            }
            let e = self.ev.rec(id);
            events.push(
                Event {
                    id: e.id,
                    name: e.name.clone(),
                    time: e.time,
                    state: e.state,
                    quota: e.quota_esti,
                },
            );
            if e.quota_esti >= cap - used {
                used = cap;
            } else {
                used = used + e.quota_esti;
            }
            j += 1;
        }
        proof {
            assert(ids@.subrange(0, j as int) =~= ids@);
            assert(Seq::new(events@.len(), |j: int| events@[j]@) =~= self.day_event_views(
                now as int,
            ));
        }
        (events, used)
    }

    /// Places the work of the day that begins at `now` out of `budget`.
    fn fill_day(&self, rest: &mut Vec<usize>, now: i64, budget: usize) -> (out: Vec<(usize, usize)>)
        requires
            self.pj.wf(),
            old(rest)@.len() == self.pj.vect@.len(),
            self.open_below(old(rest)@, 0) <= usize::MAX,
        ensures
            (out@, final(rest)@) == self.day_fill(old(rest)@, now as int, budget as int),
            final(rest)@.len() == self.pj.vect@.len(),
            self.open_below(final(rest)@, 0) <= usize::MAX,
    {
        let ghost start = rest@;
        let mut out: Vec<(usize, usize)> = Vec::new();
        let mut left: usize = budget;
        let mut tree = self.create_activity_tree(0, rest, now);
        proof {
            assert(Seq::<(usize, usize)>::empty() + self.day_fill(
                start,
                now as int,
                budget as int,
            ).0 =~= self.day_fill(start, now as int, budget as int).0);
        }
        while left != 0 && tree.rest_quota != 0
            invariant
                self.pj.wf(),
                rest@.len() == self.pj.vect@.len(),
                self.open_below(rest@, 0) <= usize::MAX,
                tree@ == self.activity_tree(rest@, now as int, 0),
                tree.wf(),
                self.day_fill(start, now as int, budget as int) == (
                    out@ + self.day_fill(rest@, now as int, left as int).0,
                    self.day_fill(rest@, now as int, left as int).1,
                ),
            decreases left,
        {
            let quota = if left <= tree.rest_quota {
                left
            } else {
                tree.rest_quota
            };
            let mut part = tree.allocate(quota);
            proof {
                self.lemma_allocation_fits(rest@, now as int, quota as int);
                lemma_applied(rest@, part@);
                self.lemma_open_monotone(
                    rest@,
                    applied(rest@, part@),
                    0,
                    self.pj.at(0).chpj@.len() as int,
                );
                let more = self.day_fill(applied(rest@, part@), now as int, left - quota);
                assert((out@ + part@) + more.0 =~= out@ + (part@ + more.0));
            }
            apply(rest, &part);
            out.append(&mut part);
            left -= quota;
            tree = self.create_activity_tree(0, rest, now);
        }
        proof {
            assert(self.day_fill(rest@, now as int, left as int) == (
                Seq::<(usize, usize)>::empty(),
                rest@,
            ));
            assert(out@ + Seq::<(usize, usize)>::empty() =~= out@);
        }
        out
    }

    /// The plan of the days from the one that begins at `day_sta` to the one
    /// that holds the latest deadline of a project, one entry for each day in
    /// the order of time.
    ///
    /// The days are planned from the last one back to the first, so that work
    /// moves as near to its deadline as the budget allows. On each day the
    /// events of the day take their cost out of the capacity, which is the
    /// weight of the root project; what is left is allocated on the activity
    /// tree, which is built anew whenever work was placed. The store itself is
    /// not changed: the plan is only shown, and the same store gives the same
    /// plan.
    pub fn auto_schedule(&self, day_sta: i64) -> (out: VecDeque<DayPlan>)
        requires
            self.wf(),
            self.schedulable(),
        ensures
            plans_of(out@) == self.plan(day_sta as int),
            forall|id: int|
                0 <= id < self.projects()@.len() ==> 0 <= #[trigger] self.given_on(
                    plans_of(out@),
                    id,
                ) <= self.initial_rest()[id],
            forall|k: int|
                0 <= k < out@.len() ==> {
                    let events = self.events_quota(self.day_events(out@[k].day as int));
                    &&& (#[trigger] out@[k]).day == day_sta + k * DAY
                    &&& amount_sum(out@[k].allocations@) <= self.day_budget(out@[k].day as int)
                    &&& events <= self.capacity() ==> events + amount_sum(out@[k].allocations@)
                        <= self.capacity()
                    &&& self.well_placed(out@[k].allocations@, out@[k].day as int)
                },
    {
        let mut out: VecDeque<DayPlan> = VecDeque::new();
        let due = match self.pj.time.last_time() {
            None => {
                assert(plans_of(out@) =~= self.plan(day_sta as int));
                return out;
            },
            Some(d) => d,
        };
        if due < day_sta {
            assert(plans_of(out@) =~= self.plan(day_sta as int));
            return out;
        }
        proof {
            let first = self.initial_rest();
            assert forall|id: int| 0 <= id < self.pj@.len() implies 0 <= #[trigger] self.given_on(
                self.plan(day_sta as int),
                id,
            ) <= first[id] by {
                self.lemma_walk_given(first, day_sta as int, (due - day_sta) / (DAY as int), id);
            }
        }
        let last: i128 = (due as i128 - day_sta as i128) / 86400;
        let cap = self.pj.rec(0).weight;
        let mut rest = self.rest_now();
        let ghost start = rest@;
        let mut k: i128 = last;
        proof {
            assert(self.walk(start, day_sta as int, last as int) + plans_of(out@) =~= self.walk(
                start,
                day_sta as int,
                last as int,
            ));
            self.lemma_walk(start, day_sta as int, last as int);
        }
        while k >= 0
            invariant
                -1 <= k <= last,
                last == (due - day_sta) / 86400,
                due >= day_sta,
                self.wf(),
                cap == self.capacity(),
                rest@.len() == self.pj.vect@.len(),
                self.open_below(rest@, 0) <= usize::MAX,
                self.walk(start, day_sta as int, last as int) == self.walk(
                    rest@,
                    day_sta as int,
                    k as int,
                ) + plans_of(out@),
            decreases k + 1,
        {
            let now: i64 = (day_sta as i128 + k * 86400) as i64;
            let (events, used) = self.events_on(now);
            let budget = cap - used;
            let ghost before = rest@;
            let allocations = self.fill_day(&mut rest, now, budget);
            let ghost older = plans_of(out@);
            let plan = DayPlan { day: now, events, allocations };
            out.push_front(plan);
            proof {
                let shorter = self.walk(rest@, day_sta as int, k - 1);
                assert(plans_of(out@) =~= seq![plan@] + older);
                assert(self.walk(before, day_sta as int, k as int) == shorter.push(plan@));
                assert(shorter.push(plan@) + older =~= shorter + (seq![plan@] + older));
            }
            k -= 1;
        }
        proof {
            assert(self.walk(rest@, day_sta as int, -1) + plans_of(out@) =~= plans_of(out@));
            assert forall|k: int| 0 <= k < out@.len() implies {
                let events = self.events_quota(self.day_events(out@[k].day as int));
                &&& (#[trigger] out@[k]).day == day_sta + k * DAY
                &&& amount_sum(out@[k].allocations@) <= self.day_budget(out@[k].day as int)
                &&& events <= self.capacity() ==> events + amount_sum(out@[k].allocations@)
                    <= self.capacity()
                &&& self.well_placed(out@[k].allocations@, out@[k].day as int)
            } by {
                assert(plans_of(out@)[k] == out@[k]@);
            }
        }
        out
    }

    /// Whether the work open on all projects together is less than the
    /// largest machine word, as `auto_schedule` asks.
    pub fn can_schedule(&self) -> (r: bool)
        requires
            self.wf(),
        ensures
            r == self.schedulable(),
    {
        let rest = self.rest_now();
        proof {
            self.lemma_open_below(rest@, 0);
        }
        self.subtree_need_of(&rest, 0) < usize::MAX
    }

    /// Two plans made from the same store for the same first day are the
    /// same plan.
    pub proof fn lemma_plan_repeatable(
        &self,
        day_sta: int,
        first: Seq<DayPlanView>,
        second: Seq<DayPlanView>,
    )
        requires
            first == self.plan(day_sta),
            second == self.plan(day_sta),
        ensures
            first == second,
    {
    }

    /// What a day gives to a project is what the day takes from the work
    /// open on it.
    pub(crate) proof fn lemma_day_fill_given(&self, rest: Seq<usize>, now: int, budget: int, id: int)
        requires
            self.pj.wf(),
            rest.len() == self.pj.vect@.len(),
            budget <= usize::MAX,
            0 <= id < rest.len(),
        ensures
            self.day_fill(rest, now, budget).1[id] + given(self.day_fill(rest, now, budget).0, id)
                == rest[id],
            given(self.day_fill(rest, now, budget).0, id) >= 0,
        decreases budget,
    {
        let tree = self.activity_tree(rest, now, 0);
        if budget <= 0 || tree.rest_quota <= 0 {
        } else {
            let quota = if budget <= tree.rest_quota {
                budget
            } else {
                tree.rest_quota
            };
            self.lemma_tree(rest, now, 0);
            let out = tree.allocation(quota);
            let next = applied(rest, out);
            self.lemma_allocation_fits(rest, now, quota);
            lemma_applied(rest, out);
            lemma_applied_given(rest, out, id);
            self.lemma_day_fill_given(next, now, budget - quota, id);
            let more = self.day_fill(next, now, budget - quota);
            lemma_given_concat(out, more.0, id);
        }
    }

    /// What the days of a plan give to a project is what the walk takes
    /// from the work open on it: no project is given more than was open.
    pub(crate) proof fn lemma_walk_given(&self, rest: Seq<usize>, sta: int, k: int, id: int)
        requires
            self.pj.wf(),
            rest.len() == self.pj.vect@.len(),
            k >= -1,
            self.capacity() <= usize::MAX,
            0 <= id < rest.len(),
        ensures
            self.walk_left(rest, sta, k).len() == rest.len(),
            self.walk_left(rest, sta, k)[id] + self.given_on(self.walk(rest, sta, k), id)
                == rest[id],
            0 <= self.given_on(self.walk(rest, sta, k), id) <= rest[id],
        decreases k + 1,
    {
        if k >= 0 {
            let now = sta + k * DAY;
            self.lemma_events_quota(self.day_events(now));
            let budget = self.day_budget(now);
            self.lemma_day_fill(rest, now, budget);
            self.lemma_day_fill_given(rest, now, budget, id);
            let filled = self.day_fill(rest, now, budget);
            self.lemma_walk_given(filled.1, sta, k - 1, id);
            let shorter = self.walk(filled.1, sta, k - 1);
            let all = self.walk(rest, sta, k);
            assert(all.drop_last() =~= shorter);
            assert(all.last().allocations == filled.0);
        }
    }

    /// In the walk from the last day back, the project `d` is held back by
    /// the project `c`: `c` depends on `d`, or `c` is the parent of `d` and not
    /// the root. In time `c` comes after `d`, so its work is placed first.
    pub open(crate) spec fn held_by(&self, d: int, c: int) -> bool {
        ||| self.pj.at(d).deps_rvs@.contains(c as usize)
        ||| (self.pj.at(d).pp == c && c != 0)
    }

    /// A project that can take work is held back by projects without open
    /// work only.
    proof fn lemma_eligible_held(&self, rest: Seq<usize>, now: int, d: int, c: int)
        requires
            self.eligible(rest, now, d),
            self.held_by(d, c),
            0 <= c <= usize::MAX,
        ensures
            rest[c] == 0,
    {
        if self.pj.at(d).deps_rvs@.contains(c as usize) {
            let k = choose|k: int|
                0 <= k < self.pj.at(d).deps_rvs@.len() && self.pj.at(d).deps_rvs@[k] == c as usize;
            assert(rest[self.pj.at(d).deps_rvs@[k] as int] == 0);
        }
    }

    /// Where a day gives work to a project, the projects that hold it back
    /// have no open work left after the day.
    pub(crate) proof fn lemma_day_fill_held(
        &self,
        rest: Seq<usize>,
        now: int,
        budget: int,
        k: int,
        c: int,
    )
        requires
            self.pj.wf(),
            rest.len() == self.pj.vect@.len(),
            budget <= usize::MAX,
            0 <= k < self.day_fill(rest, now, budget).0.len(),
            self.day_fill(rest, now, budget).0[k].0 != 0,
            self.held_by(self.day_fill(rest, now, budget).0[k].0 as int, c),
            0 <= c < rest.len(),
            c <= usize::MAX,
        ensures
            self.day_fill(rest, now, budget).1[c] == 0,
        decreases budget,
    {
        let tree = self.activity_tree(rest, now, 0);
        if budget <= 0 || tree.rest_quota <= 0 {
        } else {
            let quota = if budget <= tree.rest_quota {
                budget
            } else {
                tree.rest_quota
            };
            self.lemma_tree(rest, now, 0);
            let out = tree.allocation(quota);
            let next = applied(rest, out);
            self.lemma_allocation_fits(rest, now, quota);
            lemma_applied(rest, out);
            let more = self.day_fill(next, now, budget - quota);
            self.lemma_day_fill(next, now, budget - quota);
            if k < out.len() {
                assert((out + more.0)[k] == out[k]);
                self.lemma_allocation_gated(rest, now, quota, k);
                self.lemma_eligible_held(rest, now, out[k].0 as int, c);
            } else {
                assert((out + more.0)[k] == more.0[k - out.len()]);
                self.lemma_day_fill_held(next, now, budget - quota, k - out.len(), c);
            }
        }
    }

    /// Days that give a project nothing together give it nothing each.
    proof fn lemma_given_on_none(&self, days: Seq<DayPlanView>, id: int, i: int)
        requires
            self.given_on(days, id) <= 0,
            forall|x: int| 0 <= x < days.len() ==> given((#[trigger] days[x]).allocations, id) >= 0,
            0 <= i < days.len(),
        ensures
            given(days[i].allocations, id) == 0,
        decreases days.len(),
    {
        let shorter = days.drop_last();
        assert forall|x: int| 0 <= x < shorter.len() implies given(
            (#[trigger] shorter[x]).allocations,
            id,
        ) >= 0 by {
            assert(shorter[x] == days[x]);
        }
        self.lemma_given_on_nonneg(shorter, id);
        if i < days.len() - 1 {
            assert(shorter[i] == days[i]);
            self.lemma_given_on_none(shorter, id, i);
        }
    }

    proof fn lemma_given_on_nonneg(&self, days: Seq<DayPlanView>, id: int)
        requires
            forall|x: int| 0 <= x < days.len() ==> given((#[trigger] days[x]).allocations, id) >= 0,
        ensures
            self.given_on(days, id) >= 0,
        decreases days.len(),
    {
        if days.len() > 0 {
            let shorter = days.drop_last();
            assert forall|x: int| 0 <= x < shorter.len() implies given(
                (#[trigger] shorter[x]).allocations,
                id,
            ) >= 0 by {
                assert(shorter[x] == days[x]);
            }
            self.lemma_given_on_nonneg(shorter, id);
        }
    }

    proof fn lemma_given_nonneg(out: Seq<(usize, usize)>, id: int)
        ensures
            given(out, id) >= 0,
        decreases out.len(),
    {
        if out.len() > 0 {
            Self::lemma_given_nonneg(out.drop_last(), id);
        }
    }

    /// In a walk, a project gets no work on a day before a day on which a
    /// project that it holds back gets work.
    pub(crate) proof fn lemma_walk_order(
        &self,
        rest: Seq<usize>,
        sta: int,
        k: int,
        i: int,
        j: int,
        e: int,
        c: int,
    )
        requires
            self.pj.wf(),
            rest.len() == self.pj.vect@.len(),
            self.capacity() <= usize::MAX,
            0 <= i < j <= k,
            0 <= e < self.walk(rest, sta, k)[j].allocations.len(),
            self.walk(rest, sta, k)[j].allocations[e].0 != 0,
            self.held_by(self.walk(rest, sta, k)[j].allocations[e].0 as int, c),
            0 <= c < rest.len(),
            c <= usize::MAX,
            i64::MIN <= sta,
            sta + k * DAY <= i64::MAX,
        ensures
            given(self.walk(rest, sta, k)[i].allocations, c) == 0,
        decreases k + 1,
    {
        let now = sta + k * DAY;
        self.lemma_events_quota(self.day_events(now));
        let budget = self.day_budget(now);
        self.lemma_day_fill(rest, now, budget);
        let filled = self.day_fill(rest, now, budget);
        let shorter = self.walk(filled.1, sta, k - 1);
        let all = self.walk(rest, sta, k);
        self.lemma_walk(filled.1, sta, k - 1);
        assert(all[i] == shorter[i]);
        if j == k {
            assert(all[j].allocations == filled.0);
            self.lemma_day_fill_held(rest, now, budget, e, c);
            self.lemma_walk_given(filled.1, sta, k - 1, c);
            assert forall|x: int| 0 <= x < shorter.len() implies given(
                (#[trigger] shorter[x]).allocations,
                c,
            ) >= 0 by {
                Self::lemma_given_nonneg(shorter[x].allocations, c);
            }
            self.lemma_given_on_none(shorter, c, i);
        } else {
            assert(all[j] == shorter[j]);
            self.lemma_walk_order(filled.1, sta, k - 1, i, j, e, c);
        }
    }

    /// In a plan, a project gets no work on a day before a day on which a
    /// project that it holds back gets work: a project that depends on
    /// another does not begin before the day on which that one is worked on
    /// for the last time, nor does a project begin its own work before the
    /// last day of work on the projects below it.
    pub proof fn lemma_plan_order(&self, day_sta: int, i: int, j: int, e: int, c: int)
        requires
            self.wf(),
            i64::MIN <= day_sta <= i64::MAX,
            0 <= i < j < self.plan(day_sta).len(),
            0 <= e < self.plan(day_sta)[j].allocations.len(),
            self.plan(day_sta)[j].allocations[e].0 != 0,
            self.held_by(self.plan(day_sta)[j].allocations[e].0 as int, c),
            0 <= c < self.projects()@.len(),
            c <= usize::MAX,
        ensures
            given(self.plan(day_sta)[i].allocations, c) == 0,
    {
        let due = self.last_deadline()->0;
        let k = (due - day_sta) / (DAY as int);
        assert(self.last_deadline() is Some);
        assert(due >= day_sta);
        self.lemma_walk(self.initial_rest(), day_sta, k);
        self.lemma_walk_order(self.initial_rest(), day_sta, k, i, j, e, c);
    }

    proof fn lemma_given_entry(out: Seq<(usize, usize)>, id: int)
        requires
            given(out, id) > 0,
        ensures
            exists|e: int| 0 <= e < out.len() && (#[trigger] out[e]).0 == id,
        decreases out.len(),
    {
        if out.len() > 0 {
            if out.last().0 == id {
                assert(out[out.len() - 1].0 == id);
            } else {
                let shorter = out.drop_last();
                Self::lemma_given_entry(shorter, id);
                let e = choose|e: int| 0 <= e < shorter.len() && (#[trigger] shorter[e]).0 == id;
                assert(out[e].0 == id);
            }
        }
    }

    proof fn lemma_given_on_split(&self, days: Seq<DayPlanView>, id: int, k: int)
        requires
            0 <= k <= days.len(),
        ensures
            self.given_on(days, id) == self.given_on(days.subrange(0, k), id) + self.given_on(
                days.subrange(k, days.len() as int),
                id,
            ),
        decreases days.len(),
    {
        if k == days.len() {
            assert(days.subrange(0, k) =~= days);
        } else {
            let shorter = days.drop_last();
            self.lemma_given_on_split(shorter, id, k);
            assert(shorter.subrange(0, k) =~= days.subrange(0, k));
            assert(days.subrange(k, days.len() as int).drop_last() =~= shorter.subrange(
                k,
                shorter.len() as int,
            ));
        }
    }

    proof fn lemma_given_on_zero(&self, days: Seq<DayPlanView>, id: int)
        requires
            forall|x: int| 0 <= x < days.len() ==> given((#[trigger] days[x]).allocations, id) == 0,
        ensures
            self.given_on(days, id) == 0,
        decreases days.len(),
    {
        if days.len() > 0 {
            let shorter = days.drop_last();
            assert forall|x: int| 0 <= x < shorter.len() implies given(
                (#[trigger] shorter[x]).allocations,
                id,
            ) == 0 by {
                assert(shorter[x] == days[x]);
            }
            self.lemma_given_on_zero(shorter, id);
            assert(days.last() == days[days.len() - 1]);
        }
    }

    /// Where a plan places the whole open work of a project, it has placed
    /// all of it by every day on which a project that depends on it gets
    /// work. A plan that ends with work of the project left says nothing of
    /// the kind: the days before its first are not its affair.
    pub proof fn lemma_plan_complete(&self, day_sta: int, i: int, c: usize, d: usize)
        requires
            self.wf(),
            i64::MIN <= day_sta <= i64::MAX,
            0 <= i < self.plan(day_sta).len(),
            c < self.projects()@.len(),
            d < self.projects()@.len(),
            self.projects().at(c as int).deps@.contains(d),
            given(self.plan(day_sta)[i].allocations, c as int) > 0,
            self.given_on(self.plan(day_sta), d as int) == self.initial_rest()[d as int],
        ensures
            self.given_on(self.plan(day_sta).subrange(0, i + 1), d as int)
                == self.initial_rest()[d as int],
    {
        let days = self.plan(day_sta);
        let later = days.subrange(i + 1, days.len() as int);
        self.pj.lemma_view();
        assert(self.pj.live(c as int));
        assert(self.pj.record_ok(c as int));
        let m = choose|m: int|
            0 <= m < self.pj.at(c as int).deps@.len() && self.pj.at(c as int).deps@[m] == d;
        assert(self.pj.at(self.pj.at(c as int).deps@[m] as int).deps_rvs@.contains(c));
        assert(self.held_by(d as int, c as int));
        let pp = self.pj.at(c as int).pp as int;
        assert(self.pj.record_ok(pp));
        assert(self.pj.at(pp).chpj@.contains(self.pj.at(c as int).deps@[m]));
        let n = choose|n: int| 0 <= n < self.pj.at(pp).chpj@.len() && self.pj.at(pp).chpj@[n] == d;
        assert(self.pj.at(pp).chpj@[n] != 0);
        assert forall|x: int| 0 <= x < later.len() implies given(
            (#[trigger] later[x]).allocations,
            d as int,
        ) == 0 by {
            let j = i + 1 + x;
            assert(later[x] == days[j]);
            Self::lemma_given_nonneg(days[j].allocations, d as int);
            if given(days[j].allocations, d as int) > 0 {
                Self::lemma_given_entry(days[j].allocations, d as int);
                let e = choose|e: int|
                    0 <= e < days[j].allocations.len() && (#[trigger] days[j].allocations[e]).0
                        == d;
                self.lemma_plan_order(day_sta, i, j, e, c as int);
            }
        }
        self.lemma_given_on_zero(later, d as int);
        self.lemma_given_on_split(days, d as int, i + 1);
    }

    /// The cost of events is never negative.
    pub(crate) proof fn lemma_events_quota(&self, ids: Seq<usize>)
        ensures
            self.events_quota(ids) >= 0,
        decreases ids.len(),
    {
        if ids.len() > 0 {
            self.lemma_events_quota(ids.drop_last());
        }
    }

    /// Each day of a plan begins where it should and places no more work
    /// than its budget.
    pub(crate) proof fn lemma_walk(&self, rest: Seq<usize>, sta: int, k: int)
        requires
            self.pj.wf(),
            rest.len() == self.pj.vect@.len(),
            k >= -1,
            i64::MIN <= sta,
            sta + k * DAY <= i64::MAX,
            self.capacity() <= usize::MAX,
        ensures
            self.walk(rest, sta, k).len() == k + 1,
            forall|i: int|
                0 <= i <= k ==> {
                    &&& (#[trigger] self.walk(rest, sta, k)[i]).day == sta + i * DAY
                    &&& amount_sum(self.walk(rest, sta, k)[i].allocations) <= self.day_budget(
                        sta + i * DAY,
                    )
                    &&& self.well_placed(self.walk(rest, sta, k)[i].allocations, sta + i * DAY)
                },
        decreases k + 1,
    {
        if k >= 0 {
            let now = sta + k * DAY;
            self.lemma_events_quota(self.day_events(now));
            self.lemma_day_fill(rest, now, self.day_budget(now));
            let filled = self.day_fill(rest, now, self.day_budget(now));
            assert(self.well_placed(filled.0, now)) by {
                assert forall|j: int| 0 <= j < filled.0.len() implies {
                    let e = #[trigger] filled.0[j];
                    &&& e.0 < self.pj@.len()
                    &&& e.0 == 0 || self.open_on(e.0 as int, now)
                } by {
                    self.lemma_day_fill_open(rest, now, self.day_budget(now), j);
                }
            }
            self.lemma_walk(filled.1, sta, k - 1);
            let shorter = self.walk(filled.1, sta, k - 1);
            let all = self.walk(rest, sta, k);
            assert forall|i: int| 0 <= i <= k implies {
                &&& (#[trigger] all[i]).day == sta + i * DAY
                &&& amount_sum(all[i].allocations) <= self.day_budget(sta + i * DAY)
                &&& self.well_placed(all[i].allocations, sta + i * DAY)
            } by {
                if i < k {
                    assert(all[i] == shorter[i]);
                }
            }
        }
    }
}

} // verus!
