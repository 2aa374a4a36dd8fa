use vstd::prelude::*;

verus! {

/// `a` comes before `b`: by time, and by id among equal times.
pub open spec fn before(a: (i64, usize), b: (i64, usize)) -> bool {
    a.0 < b.0 || (a.0 == b.0 && a.1 < b.1)
}

/// `s` is in strictly increasing order, so that no pair occurs twice.
pub open spec fn increasing(s: Seq<(i64, usize)>) -> bool {
    forall|i: int, j: int| 0 <= i < j < s.len() ==> before(#[trigger] s[i], #[trigger] s[j])
}

/// The ids of the entries of `s` whose time lies in `lo <= t < hi`, in the
/// order of `s`. `hi` is an `int`, so that a range may be open to the right.
pub open spec fn ids_between(s: Seq<(i64, usize)>, lo: int, hi: int) -> Seq<usize>
    decreases s.len(),
{
    if s.len() == 0 {
        Seq::empty()
    } else if lo <= s.last().0 < hi {
        ids_between(s.drop_last(), lo, hi).push(s.last().1)
    } else {
        ids_between(s.drop_last(), lo, hi)
    }
}

proof fn lemma_none_below(s: Seq<(i64, usize)>, lo: int, hi: int)
    requires
        forall|k: int| 0 <= k < s.len() ==> (#[trigger] s[k]).0 < lo,
    ensures
        ids_between(s, lo, hi) == Seq::<usize>::empty(),
    decreases s.len(),
{
    if s.len() > 0 {
        lemma_none_below(s.drop_last(), lo, hi);
    }
}

proof fn lemma_none_above(s: Seq<(i64, usize)>, n: int, lo: int, hi: int)
    requires
        0 <= n <= s.len(),
        forall|k: int| n <= k < s.len() ==> (#[trigger] s[k]).0 >= hi,
    ensures
        ids_between(s, lo, hi) == ids_between(s.subrange(0, n), lo, hi),
    decreases s.len() - n,
{
    if n < s.len() {
        let t = s.drop_last();
        lemma_none_above(t, n, lo, hi);
        assert(t.subrange(0, n) =~= s.subrange(0, n));
    } else {
        assert(s.subrange(0, n) =~= s);
    }
}

/// Beyond the last time, the end of a range does not matter.
pub proof fn lemma_ids_between_top(s: Seq<(i64, usize)>, lo: int, h1: int, h2: int)
    requires
        i64::MAX < h1,
        i64::MAX < h2,
    ensures
        ids_between(s, lo, h1) == ids_between(s, lo, h2),
    decreases s.len(),
{
    if s.len() > 0 {
        lemma_ids_between_top(s.drop_last(), lo, h1, h2);
    }
}

/// Each id of a range belongs to a pair of the sequence within the range.
pub proof fn lemma_ids_between_from(s: Seq<(i64, usize)>, lo: int, hi: int, j: int)
    requires
        0 <= j < ids_between(s, lo, hi).len(),
    ensures
        exists|k: int|
            0 <= k < s.len() && (#[trigger] s[k]).1 == ids_between(s, lo, hi)[j] && lo <= s[k].0
                < hi,
    decreases s.len(),
{
    if s.len() > 0 {
        let d = s.drop_last();
        let inner = ids_between(d, lo, hi);
        if j < inner.len() {
            lemma_ids_between_from(d, lo, hi, j);
            let k = choose|k: int|
                0 <= k < d.len() && (#[trigger] d[k]).1 == inner[j] && lo <= d[k].0 < hi;
            assert(s[k] == d[k]);
        } else {
            assert(s[s.len() - 1].1 == ids_between(s, lo, hi)[j]);
        }
    }
}

/// A set of `(time, id)` pairs kept in order, to answer questions about a
/// range of time without looking at the pairs outside it.
#[derive(Clone, Debug)]
pub struct TimeIndex {
    entries: Vec<(i64, usize)>,
}

impl View for TimeIndex {
    type V = Seq<(i64, usize)>;

    closed spec fn view(&self) -> Seq<(i64, usize)> {
        self.entries@
    }
}

impl TimeIndex {
    /// The pairs are in strictly increasing order.
    pub open spec fn wf(&self) -> bool {
        increasing(self@)
    }

    /// The pair `(t, id)` is in the index.
    pub open spec fn has(&self, t: i64, id: usize) -> bool {
        self@.contains((t, id))
    }

    /// Some pair of the index has the time `t`.
    pub open spec fn has_time(&self, t: i64) -> bool {
        exists|k: int| 0 <= k < self@.len() && (#[trigger] self@[k]).0 == t
    }

    pub fn new() -> (idx: Self)
        ensures
            idx.wf(),
            idx@ == Seq::<(i64, usize)>::empty(),
    {
        TimeIndex { entries: Vec::new() }
    }

    pub fn len(&self) -> (n: usize)
        ensures
            n == self@.len(),
    {
        self.entries.len()
    }

    /// The place of the first pair that does not come before `(t, id)`.
    fn lower_bound(&self, t: i64, id: usize) -> (p: usize)
        requires
            self.wf(),
        ensures
            p <= self@.len(),
            forall|k: int| 0 <= k < p ==> before(#[trigger] self@[k], (t, id)),
            forall|k: int| p <= k < self@.len() ==> !before(#[trigger] self@[k], (t, id)),
    {
        let mut lo: usize = 0;
        let mut hi: usize = self.entries.len();
        while lo < hi
            invariant
                self.wf(),
                lo <= hi <= self@.len(),
                forall|k: int| 0 <= k < lo ==> before(#[trigger] self@[k], (t, id)),
                forall|k: int| hi <= k < self@.len() ==> !before(#[trigger] self@[k], (t, id)),
            decreases hi - lo,
        {
            let mid = lo + (hi - lo) / 2;
            let e = self.entries[mid];
            if e.0 < t || (e.0 == t && e.1 < id) {
                assert forall|k: int| 0 <= k < mid + 1 implies before(
                    #[trigger] self@[k],
                    (t, id),
                ) by {
                    if k < mid {
                        assert(before(self@[k], self@[mid as int]));
                    }
                }
                lo = mid + 1;
            } else {
                assert forall|k: int| mid <= k < self@.len() implies !before(
                    #[trigger] self@[k],
                    (t, id),
                ) by {
                    if mid < k {
                        assert(before(self@[mid as int], self@[k]));
                    }
                }
                hi = mid;
            }
        }
        lo
    }

    /// Whether the pair `(t, id)` is in the index.
    pub fn contains(&self, t: i64, id: usize) -> (found: bool)
        requires
            self.wf(),
        ensures
            found == self.has(t, id),
    {
        let p = self.lower_bound(t, id);
        if p < self.entries.len() {
            let e = self.entries[p];
            if e.0 == t && e.1 == id {
                assert(self@[p as int] == (t, id));
                return true;
            }
        }
        proof {
            if self.has(t, id) {
                let k = choose|k: int| 0 <= k < self@.len() && self@[k] == (t, id);
                if k < p {
                    assert(before(self@[k], (t, id)));
                } else if k > p {
                    assert(before(self@[p as int], self@[k]));
                }
            }
        }
        false
    }

    /// The id of the first pair with the time `t`, if there is one.
    pub fn get(&self, t: i64) -> (found: Option<usize>)
        requires
            self.wf(),
        ensures
            found is Some <==> self.has_time(t),
            found matches Some(id) ==> self.has(t, id) && forall|other: usize|
                #[trigger] self.has(t, other) ==> id <= other,
    {
        let p = self.lower_bound(t, 0);
        if p < self.entries.len() {
            let e = self.entries[p];
            if e.0 == t {
                assert(self@[p as int] == (t, e.1));
                assert forall|other: usize| #[trigger] self.has(t, other) implies e.1 <= other by {
                    let k = choose|k: int| 0 <= k < self@.len() && self@[k] == (t, other);
                    if k < p {
                        assert(before(self@[k], (t, 0usize)));
                    } else if k > p {
                        assert(before(self@[p as int], self@[k]));
                    }
                }
                return Some(e.1);
            }
        }
        proof {
            if self.has_time(t) {
                let k = choose|k: int| 0 <= k < self@.len() && (#[trigger] self@[k]).0 == t;
                if k < p {
                    assert(before(self@[k], (t, 0usize)));
                } else if k > p {
                    assert(before(self@[p as int], self@[k]));
                    assert(!before(self@[p as int], (t, 0usize)));
                }
            }
        }
        None
    }

    /// Adds the pair `(t, id)`; the index is unchanged where it is there already.
    pub fn insert(&mut self, t: i64, id: usize)
        requires
            old(self).wf(),
        ensures
            final(self).wf(),
            forall|e: (i64, usize)|
                #[trigger] final(self)@.contains(e) <==> old(self)@.contains(e) || e == (t, id),
    {
        let p = self.lower_bound(t, id);
        if p < self.entries.len() {
            let e = self.entries[p];
            if e.0 == t && e.1 == id {
                assert(self@[p as int] == (t, id));
                return ;
            }
        }
        let ghost before_seq = self@;
        assert(p < before_seq.len() ==> before((t, id), before_seq[p as int]));
        self.entries.insert(p, (t, id));
        proof {
            let s = self@;
            assert(s =~= before_seq.insert(p as int, (t, id)));
            assert forall|i: int, j: int| 0 <= i < j < s.len() implies before(
                #[trigger] s[i],
                #[trigger] s[j],
            ) by {
                let a = if i < p { i } else { i - 1 };
                let b = if j < p { j } else { j - 1 };
                if i != p && j != p {
                    assert(before(before_seq[a], before_seq[b]));
                } else if i == p {
                    assert(s[j] == before_seq[j - 1]);
                    if j - 1 > p {
                        assert(before(before_seq[p as int], before_seq[j - 1]));
                    }
                } else {
                    assert(s[i] == before_seq[i]);
                }
            }
            assert forall|e: (i64, usize)| #[trigger]
                s.contains(e) <==> before_seq.contains(e) || e == (t, id) by {
                if s.contains(e) {
                    let k = choose|k: int| 0 <= k < s.len() && s[k] == e;
                    if k < p {
                        assert(before_seq[k] == e);
                    } else if k > p {
                        assert(before_seq[k - 1] == e);
                    }
                }
                if before_seq.contains(e) {
                    let k = choose|k: int| 0 <= k < before_seq.len() && before_seq[k] == e;
                    if k < p {
                        assert(s[k] == e);
                    } else {
                        assert(s[k + 1] == e);
                    }
                }
                if e == (t, id) {
                    assert(s[p as int] == e);
                }
            }
        }
    }

    /// Takes the pair `(t, id)` out; the index is unchanged where it is not there.
    pub fn remove(&mut self, t: i64, id: usize)
        requires
            old(self).wf(),
        ensures
            final(self).wf(),
            forall|e: (i64, usize)|
                #[trigger] final(self)@.contains(e) <==> old(self)@.contains(e) && e != (t, id),
    {
        let found = self.contains(t, id);
        if !found {
            return ;
        }
        let p = self.lower_bound(t, id);
        let ghost before_seq = self@;
        proof {
            let k = choose|k: int| 0 <= k < before_seq.len() && before_seq[k] == (t, id);
            if k < p {
                assert(before(before_seq[k], (t, id)));
            } else if k > p {
                assert(before(before_seq[p as int], before_seq[k]));
                assert(!before(before_seq[p as int], (t, id)));
            }
            assert(before_seq[p as int] == (t, id));
        }
        self.entries.remove(p);
        proof {
            let s = self@;
            assert(s =~= before_seq.remove(p as int));
            assert forall|i: int, j: int| 0 <= i < j < s.len() implies before(
                #[trigger] s[i],
                #[trigger] s[j],
            ) by {
                let a = if i < p { i } else { i + 1 };
                let b = if j < p { j } else { j + 1 };
                assert(before(before_seq[a], before_seq[b]));
            }
            assert forall|e: (i64, usize)| #[trigger]
                s.contains(e) <==> before_seq.contains(e) && e != (t, id) by {
                if s.contains(e) {
                    let k = choose|k: int| 0 <= k < s.len() && s[k] == e;
                    let a = if k < p { k } else { k + 1 };
                    assert(before_seq[a] == e);
                    if a < p {
                        assert(before(before_seq[a], before_seq[p as int]));
                    } else {
                        assert(before(before_seq[p as int], before_seq[a]));
                    }
                }
                if before_seq.contains(e) && e != (t, id) {
                    let k = choose|k: int| 0 <= k < before_seq.len() && before_seq[k] == e;
                    if k < p {
                        assert(s[k] == e);
                    } else {
                        assert(s[k - 1] == e);
                    }
                }
            }
        }
    }

    /// The latest time in the index, if it holds any pair.
    pub fn last_time(&self) -> (latest: Option<i64>)
        requires
            self.wf(),
        ensures
            latest is None <==> self@.len() == 0,
            latest matches Some(t) ==> t == self@.last().0 && self.has_time(t) && forall|k: int|
                0 <= k < self@.len() ==> (#[trigger] self@[k]).0 <= t,
    {
        let n = self.entries.len();
        if n == 0 {
            None
        } else {
            let e = self.entries[n - 1];
            assert forall|k: int| 0 <= k < self@.len() implies (#[trigger] self@[k]).0 <= e.0 by {
                if k < n - 1 {
                    assert(before(self@[k], self@[n - 1]));
                }
            }
            Some(e.0)
        }
    }

    /// The ids of the pairs with `lo <= time < hi`, in order of time; with
    /// `hi` absent, of all pairs from `lo` on.
    pub fn range(&self, lo: i64, hi: Option<i64>) -> (ids: Vec<usize>)
        requires
            self.wf(),
        ensures
            ids@ == ids_between(
                self@,
                lo as int,
                match hi {
                    Some(h) => h as int,
                    None => i64::MAX + 1,
                },
            ),
    {
        let ghost top: int = match hi {
            Some(h) => h as int,
            None => i64::MAX + 1,
        };
        let start = self.lower_bound(lo, 0);
        let mut ids: Vec<usize> = Vec::new();
        let mut i: usize = start;
        proof {
            lemma_none_below(self@.subrange(0, start as int), lo as int, top);
        }
        let n = self.entries.len();
        while i < n
            invariant
                self.wf(),
                n == self@.len(),
                start <= i <= n,
                top == match hi {
                    Some(h) => h as int,
                    None => i64::MAX + 1,
                },
                forall|k: int| start <= k < self@.len() ==> !before(#[trigger] self@[k], (lo, 0usize)),
                ids@ == ids_between(self@.subrange(0, i as int), lo as int, top),
            ensures
                start <= i <= n,
                ids@ == ids_between(self@.subrange(0, i as int), lo as int, top),
                i < n ==> self@[i as int].0 >= top,
            decreases n - i,
        {
            let e = self.entries[i];
            let inside = match hi {
                Some(h) => e.0 < h,
                None => true,
            };
            if !inside {
                break ;
            }
            proof {
                let s = self@.subrange(0, i + 1);
                assert(s.drop_last() =~= self@.subrange(0, i as int));
                assert(s.last() == self@[i as int]);
                assert(!before(self@[i as int], (lo, 0usize)));
            }
            ids.push(e.1);
            i += 1;
        }
        proof {
            assert forall|k: int| i <= k < self@.len() implies (#[trigger] self@[k]).0 >= top by {
                if i < k {
                    assert(before(self@[i as int], self@[k]));
                }
            }
            lemma_none_above(self@, i as int, lo as int, top);
        }
        ids
    }
}

} // verus!
