//! Sets of ids, kept as vectors without repeats in the order in which the
//! ids came in.

use vstd::prelude::*;

verus! {

/// `s` with `x` added at the end, unless it is there already.
pub open spec fn with(s: Seq<usize>, x: usize) -> Seq<usize> {
    if s.contains(x) {
        s
    } else {
        s.push(x)
    }
}

/// `s` with every `x` taken out, the others in their order.
pub open spec fn without(s: Seq<usize>, x: usize) -> Seq<usize>
    decreases s.len(),
{
    if s.len() == 0 {
        s
    } else if s.last() == x {
        without(s.drop_last(), x)
    } else {
        without(s.drop_last(), x).push(s.last())
    }
}

pub proof fn lemma_with(s: Seq<usize>, x: usize)
    ensures
        forall|y: usize| #[trigger] with(s, x).contains(y) <==> s.contains(y) || y == x,
        s.no_duplicates() ==> with(s, x).no_duplicates(),
        with(s, x).to_set() == s.to_set().insert(x),
{
    let t = with(s, x);
    assert forall|y: usize| #[trigger] t.contains(y) <==> s.contains(y) || y == x by {
        if s.contains(x) {
        } else {
            if t.contains(y) {
                let k = choose|k: int| 0 <= k < t.len() && t[k] == y;
                if k < s.len() {
                    assert(s[k] == y);
                }
            }
            if s.contains(y) {
                let k = choose|k: int| 0 <= k < s.len() && s[k] == y;
                assert(t[k] == y);
            }
            if y == x {
                assert(t[s.len() as int] == y);
            }
        }
    }
    assert(t.to_set() =~= s.to_set().insert(x));
}

pub proof fn lemma_without(s: Seq<usize>, x: usize)
    ensures
        forall|y: usize| #[trigger] without(s, x).contains(y) <==> s.contains(y) && y != x,
        s.no_duplicates() ==> without(s, x).no_duplicates(),
        !s.contains(x) ==> without(s, x) == s,
        without(s, x).len() <= s.len(),
        s.contains(x) ==> without(s, x).len() < s.len(),
        without(s, x).to_set() == s.to_set().remove(x),
    decreases s.len(),
{
    let t = without(s, x);
    if s.len() == 0 {
    } else {
        let p = s.drop_last();
        let q = without(p, x);
        lemma_without(p, x);
        if s.contains(x) && s.last() != x {
            let k = choose|k: int| 0 <= k < s.len() && s[k] == x;
            assert(p[k] == x);
        }
        assert forall|y: usize| #[trigger] t.contains(y) <==> s.contains(y) && y != x by {
            if t.contains(y) {
                let k = choose|k: int| 0 <= k < t.len() && t[k] == y;
                if k < q.len() {
                    assert(q[k] == y);
                    assert(q.contains(y));
                    let m = choose|m: int| 0 <= m < p.len() && p[m] == y;
                    assert(s[m] == y);
                } else {
                    assert(s[s.len() - 1] == y);
                }
            }
            if s.contains(y) && y != x {
                let k = choose|k: int| 0 <= k < s.len() && s[k] == y;
                if k < p.len() {
                    assert(p[k] == y);
                    assert(p.contains(y));
                    assert(q.contains(y));
                    let m = choose|m: int| 0 <= m < q.len() && q[m] == y;
                    assert(t[m] == y);
                } else {
                    assert(t[t.len() - 1] == y);
                }
            }
        }
        if s.no_duplicates() {
            assert(p.no_duplicates());
            if s.last() != x {
                assert forall|i: int, j: int| 0 <= i < j < t.len() implies t[i] != t[j] by {
                    if j == t.len() - 1 {
                        assert(q[i] == t[i]);
                        assert(q.contains(t[i]));
                        let m = choose|m: int| 0 <= m < p.len() && p[m] == t[i];
                        assert(s[m] == t[i]);
                    } else {
                        assert(q[i] == t[i] && q[j] == t[j]);
                    }
                }
            }
        }
        if !s.contains(x) {
            assert(s[s.len() - 1] != x);
            assert forall|y: usize| p.contains(y) implies y != x by {
                let m = choose|m: int| 0 <= m < p.len() && p[m] == y;
                assert(s[m] == y);
            }
            assert(!p.contains(x));
            assert(t =~= s);
        }
    }
    assert(t.to_set() =~= s.to_set().remove(x));
}

/// Whether `x` is among `v`.
pub fn contains(v: &Vec<usize>, x: usize) -> (found: bool)
    ensures
        found == v@.contains(x),
{
    let mut i: usize = 0;
    while i < v.len()
        invariant
            i <= v@.len(),
            forall|k: int| 0 <= k < i ==> v@[k] != x,
        decreases v@.len() - i,
    {
        if v[i] == x {
            return true;
        }
        i += 1;
    }
    false
}

/// Adds `x` to `v` unless it is there.
pub fn insert(v: &mut Vec<usize>, x: usize)
    ensures
        final(v)@ == with(old(v)@, x),
{
    if !contains(v, x) {
        v.push(x);
    }
}

/// Takes `x` out of `v`.
pub fn remove(v: &mut Vec<usize>, x: usize)
    ensures
        final(v)@ == without(old(v)@, x),
{
    let mut out: Vec<usize> = Vec::new();
    let mut i: usize = 0;
    while i < v.len()
        invariant
            i <= v@.len(),
            out@ == without(v@.subrange(0, i as int), x),
        decreases v@.len() - i,
    {
        proof {
            let s = v@.subrange(0, i + 1);
            assert(s.drop_last() =~= v@.subrange(0, i as int));
        }
        if v[i] != x {
            out.push(v[i]);
        }
        i += 1;
    }
    proof {
        assert(v@.subrange(0, i as int) =~= v@);
    }
    *v = out;
}

/// A copy of `v`.
pub fn copy(v: &Vec<usize>) -> (out: Vec<usize>)
    ensures
        out@ == v@,
{
    let out = v.clone();
    assert(out@ =~= v@);
    out
}

} // verus!
