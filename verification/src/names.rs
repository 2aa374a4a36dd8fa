use vstd::prelude::*;
use vstd::utf8::encode_utf8;

verus! {

/// `a[i..]` comes before `b[i..]` in the order of a dictionary.
pub open spec fn bytes_lt_from(a: Seq<u8>, b: Seq<u8>, i: int) -> bool
    decreases a.len() - i,
{
    if i < 0 || i >= b.len() {
        false
    } else if i >= a.len() {
        true
    } else if a[i] < b[i] {
        true
    } else if a[i] == b[i] {
        bytes_lt_from(a, b, i + 1)
    } else {
        false
    }
}

/// The order in which names are kept: that of their UTF-8 bytes, which is
/// the order of a dictionary over the code points.
pub open spec fn name_lt(a: Seq<char>, b: Seq<char>) -> bool {
    bytes_lt_from(encode_utf8(a), encode_utf8(b), 0)
}

proof fn lemma_bytes_irreflexive(a: Seq<u8>, i: int)
    requires
        0 <= i,
    ensures
        !bytes_lt_from(a, a, i),
    decreases a.len() - i,
{
    if i < a.len() {
        lemma_bytes_irreflexive(a, i + 1);
    }
}

proof fn lemma_bytes_transitive(a: Seq<u8>, b: Seq<u8>, c: Seq<u8>, i: int)
    requires
        0 <= i,
        bytes_lt_from(a, b, i),
        bytes_lt_from(b, c, i),
    ensures
        bytes_lt_from(a, c, i),
    decreases a.len() - i,
{
    if i < a.len() && a[i] == b[i] && b[i] == c[i] {
        lemma_bytes_transitive(a, b, c, i + 1);
    }
}

proof fn lemma_bytes_total(a: Seq<u8>, b: Seq<u8>, i: int)
    requires
        0 <= i <= a.len(),
        i <= b.len(),
        forall|k: int| 0 <= k < i ==> a[k] == b[k],
        !bytes_lt_from(a, b, i),
        !bytes_lt_from(b, a, i),
    ensures
        a == b,
    decreases a.len() - i,
{
    if i < a.len() && i < b.len() {
        lemma_bytes_total(a, b, i + 1);
    } else {
        assert(a =~= b);
    }
}

/// No name comes before itself.
pub proof fn lemma_name_irreflexive(a: Seq<char>)
    ensures
        !name_lt(a, a),
{
    lemma_bytes_irreflexive(encode_utf8(a), 0);
}

/// The order of names is transitive.
pub proof fn lemma_name_transitive(a: Seq<char>, b: Seq<char>, c: Seq<char>)
    requires
        name_lt(a, b),
        name_lt(b, c),
    ensures
        name_lt(a, c),
{
    lemma_bytes_transitive(encode_utf8(a), encode_utf8(b), encode_utf8(c), 0);
}

/// Of two names that differ, one comes before the other.
pub proof fn lemma_name_total(a: Seq<char>, b: Seq<char>)
    requires
        !name_lt(a, b),
        !name_lt(b, a),
    ensures
        a == b,
{
    lemma_bytes_total(encode_utf8(a), encode_utf8(b), 0);
    vstd::utf8::encode_utf8_decode_utf8(a);
    vstd::utf8::encode_utf8_decode_utf8(b);
}

/// Whether `a` comes before `b` in the order of names.
pub fn name_less(a: &str, b: &str) -> (less: bool)
    ensures
        less == name_lt(a@, b@),
{
    let x = a.as_bytes();
    let y = b.as_bytes();
    let mut i: usize = 0;
    loop
        invariant
            x@ == encode_utf8(a@),
            y@ == encode_utf8(b@),
            i <= x@.len(),
            i <= y@.len(),
            bytes_lt_from(x@, y@, i as int) == bytes_lt_from(x@, y@, 0),
        decreases x@.len() - i,
    {
        if i >= y.len() {
            return false;
        }
        if i >= x.len() {
            return true;
        }
        if x[i] < y[i] {
            return true;
        }
        if x[i] > y[i] {
            return false;
        }
        i += 1;
    }
}

/// `s` is one of the strings of `names`.
pub open spec fn lists(names: Seq<String>, s: Seq<char>) -> bool {
    exists|k: int| 0 <= k < names.len() && (#[trigger] names[k])@ == s
}

/// The strings of `names` stand in the order of names, none twice.
pub open spec fn ascending(names: Seq<String>) -> bool {
    forall|a: int, b: int|
        0 <= a < b < names.len() ==> name_lt((#[trigger] names[a])@, (#[trigger] names[b])@)
}

/// The names of the entities of one kind, each with the id that bears it,
/// kept in the order of the names.
#[derive(Clone, Debug)]
pub struct NameIndex {
    entries: Vec<(String, usize)>,
}

impl View for NameIndex {
    type V = Seq<(Seq<char>, usize)>;

    closed spec fn view(&self) -> Seq<(Seq<char>, usize)> {
        Seq::new(self.entries@.len(), |k: int| (self.entries@[k].0@, self.entries@[k].1))
    }
}

/// `s` is in strictly increasing order of names, so that no name occurs twice.
pub open spec fn names_increasing(s: Seq<(Seq<char>, usize)>) -> bool {
    forall|i: int, j: int| 0 <= i < j < s.len() ==> name_lt(#[trigger] s[i].0, #[trigger] s[j].0)
}

impl NameIndex {
    /// The names are in strictly increasing order.
    pub open spec fn wf(&self) -> bool {
        names_increasing(self@)
    }

    /// The index holds `name` for the id `id`.
    pub open spec fn has(&self, name: Seq<char>, id: usize) -> bool {
        self@.contains((name, id))
    }

    /// The index holds `name` for some id.
    pub open spec fn has_name(&self, name: Seq<char>) -> bool {
        exists|k: int| 0 <= k < self@.len() && (#[trigger] self@[k]).0 == name
    }

    /// A name stands for one id only.
    pub proof fn lemma_unique(&self, name: Seq<char>, a: usize, b: usize)
        requires
            self.wf(),
            self.has(name, a),
            self.has(name, b),
        ensures
            a == b,
    {
        let i = choose|i: int| 0 <= i < self@.len() && self@[i] == (name, a);
        let j = choose|j: int| 0 <= j < self@.len() && self@[j] == (name, b);
        lemma_name_irreflexive(name);
        if i < j {
            assert(name_lt(self@[i].0, self@[j].0));
        } else if j < i {
            assert(name_lt(self@[j].0, self@[i].0));
        }
    }

    pub fn new() -> (idx: Self)
        ensures
            idx.wf(),
            idx@.len() == 0,
    {
        NameIndex { entries: Vec::new() }
    }

    /// The place of the first name that does not come before `name`.
    fn lower_bound(&self, name: &str) -> (p: usize)
        requires
            self.wf(),
        ensures
            p <= self@.len(),
            forall|k: int| 0 <= k < p ==> name_lt((#[trigger] self@[k]).0, name@),
            forall|k: int| p <= k < self@.len() ==> !name_lt((#[trigger] self@[k]).0, name@),
    {
        let mut lo: usize = 0;
        let mut hi: usize = self.entries.len();
        while lo < hi
            invariant
                self.wf(),
                lo <= hi <= self@.len(),
                self@.len() == self.entries@.len(),
                forall|k: int| 0 <= k < lo ==> name_lt((#[trigger] self@[k]).0, name@),
                forall|k: int| hi <= k < self@.len() ==> !name_lt((#[trigger] self@[k]).0, name@),
            decreases hi - lo,
        {
            let mid = lo + (hi - lo) / 2;
            assert(self@[mid as int].0 == self.entries@[mid as int].0@);
            if name_less(self.entries[mid].0.as_str(), name) {
                assert forall|k: int| 0 <= k < mid + 1 implies name_lt(
                    (#[trigger] self@[k]).0,
                    name@,
                ) by {
                    if k < mid {
                        assert(name_lt(self@[k].0, self@[mid as int].0));
                        lemma_name_transitive(self@[k].0, self@[mid as int].0, name@);
                    }
                }
                lo = mid + 1;
            } else {
                assert forall|k: int| mid <= k < self@.len() implies !name_lt(
                    (#[trigger] self@[k]).0,
                    name@,
                ) by {
                    if mid < k && name_lt(self@[k].0, name@) {
                        assert(name_lt(self@[mid as int].0, self@[k].0));
                        lemma_name_transitive(self@[mid as int].0, self@[k].0, name@);
                    }
                }
                hi = mid;
            }
        }
        lo
    }

    /// At the place `p` that `lower_bound` gives, the name is `name` or the
    /// index does not hold `name` at all.
    proof fn lemma_at_bound(&self, name: Seq<char>, p: int)
        requires
            self.wf(),
            0 <= p <= self@.len(),
            forall|k: int| 0 <= k < p ==> name_lt((#[trigger] self@[k]).0, name),
            forall|k: int| p <= k < self@.len() ==> !name_lt((#[trigger] self@[k]).0, name),
        ensures
            self.has_name(name) <==> (p < self@.len() && self@[p].0 == name),
            p < self@.len() && self@[p].0 != name ==> name_lt(name, self@[p].0),
            forall|k: int| 0 <= k < self@.len() && (#[trigger] self@[k]).0 == name ==> k == p,
    {
        lemma_name_irreflexive(name);
        if p < self@.len() && self@[p].0 != name {
            if !name_lt(name, self@[p].0) {
                lemma_name_total(name, self@[p].0);
            }
        }
        assert forall|k: int| 0 <= k < self@.len() && (#[trigger] self@[k]).0 == name implies k
            == p by {
            if k < p {
                assert(name_lt(self@[k].0, name));
            } else if k > p {
                assert(name_lt(self@[p].0, self@[k].0));
                assert(!name_lt(self@[p].0, name));
            }
        }
    }

    /// The id that bears `name`, if one does.
    pub fn get(&self, name: &str) -> (found: Option<usize>)
        requires
            self.wf(),
        ensures
            found is Some <==> self.has_name(name@),
            found matches Some(id) ==> self.has(name@, id),
    {
        let p = self.lower_bound(name);
        proof {
            self.lemma_at_bound(name@, p as int);
        }
        if p < self.entries.len() {
            assert(self@[p as int] == (self.entries@[p as int].0@, self.entries@[p as int].1));
            if !name_less(name, self.entries[p].0.as_str()) {
                return Some(self.entries[p].1);
            }
            proof {
                lemma_name_irreflexive(name@);
            }
        }
        None
    }

    /// Enters `name` for `id`.
    pub fn insert(&mut self, name: String, id: usize)
        requires
            old(self).wf(),
            !old(self).has_name(name@),
        ensures
            final(self).wf(),
            forall|s: Seq<char>, i: usize|
                #[trigger] final(self).has(s, i) <==> old(self).has(s, i) || (s == name@ && i
                    == id),
            forall|s: Seq<char>|
                #[trigger] final(self).has_name(s) <==> old(self).has_name(s) || s == name@,
    {
        let p = self.lower_bound(name.as_str());
        let ghost before_seq = self@;
        let ghost key = name@;
        proof {
            self.lemma_at_bound(key, p as int);
        }
        self.entries.insert(p, (name, id));
        proof {
            let s = self@;
            assert(s =~= before_seq.insert(p as int, (key, id)));
            assert forall|i: int, j: int| 0 <= i < j < s.len() implies name_lt(
                #[trigger] s[i].0,
                #[trigger] s[j].0,
            ) by {
                let a = if i < p { i } else { i - 1 };
                let b = if j < p { j } else { j - 1 };
                if i != p && j != p {
                    assert(name_lt(before_seq[a].0, before_seq[b].0));
                } else if i == p {
                    assert(s[j] == before_seq[j - 1]);
                    assert(name_lt(key, before_seq[p as int].0));
                    if j - 1 > p {
                        assert(name_lt(before_seq[p as int].0, before_seq[j - 1].0));
                        lemma_name_transitive(key, before_seq[p as int].0, before_seq[j - 1].0);
                    }
                } else {
                    assert(s[i] == before_seq[i]);
                }
            }
            assert forall|e: (Seq<char>, usize)| #[trigger]
                s.contains(e) <==> before_seq.contains(e) || e == (key, id) by {
                if s.contains(e) {
                    let k = choose|k: int| 0 <= k < s.len() && s[k] == e;
                    if k < p {
                        assert(before_seq[k] == e);
                    } else if k > p {
                        assert(before_seq[k - 1] == e);
                    }
                }
                if before_seq.contains(e) {
                    let k = choose|k: int| 0 <= k < before_seq.len() && before_seq[k] == e;
                    if k < p {
                        assert(s[k] == e);
                    } else {
                        assert(s[k + 1] == e);
                    }
                }
                if e == (key, id) {
                    assert(s[p as int] == e);
                }
            }
            assert forall|n: Seq<char>| #[trigger]
                final(self).has_name(n) <==> old(self).has_name(n) || n == key by {
                if final(self).has_name(n) && n != key {
                    let k = choose|k: int| 0 <= k < s.len() && (#[trigger] s[k]).0 == n;
                    let a = if k < p { k } else { k - 1 };
                    assert(before_seq[a].0 == n);
                }
                if old(self).has_name(n) {
                    let k = choose|k: int|
                        0 <= k < before_seq.len() && (#[trigger] before_seq[k]).0 == n;
                    let a = if k < p { k } else { k + 1 };
                    assert(s[a].0 == n);
                }
                if n == key {
                    assert(s[p as int].0 == n);
                }
            }
        }
    }

    /// Takes `name` out; the index is unchanged where it does not hold it.
    pub fn remove(&mut self, name: &str)
        requires
            old(self).wf(),
        ensures
            final(self).wf(),
            forall|s: Seq<char>, i: usize|
                #[trigger] final(self).has(s, i) <==> old(self).has(s, i) && s != name@,
            forall|s: Seq<char>|
                #[trigger] final(self).has_name(s) <==> old(self).has_name(s) && s != name@,
    {
        let p = self.lower_bound(name);
        let ghost before_seq = self@;
        let ghost key = name@;
        proof {
            self.lemma_at_bound(key, p as int);
        }
        let mut present = false;
        if p < self.entries.len() {
            assert(self@[p as int] == (self.entries@[p as int].0@, self.entries@[p as int].1));
            present = !name_less(name, self.entries[p].0.as_str());
        }
        if !present {
            proof {
                lemma_name_irreflexive(key);
                assert forall|s: Seq<char>, i: usize| #[trigger]
                    self.has(s, i) implies s != key by {
                    let k = choose|k: int| 0 <= k < self@.len() && self@[k] == (s, i);
                    assert(self@[k].0 == s);
                }
            }
            return ;
        }
        proof {
            lemma_name_total(key, before_seq[p as int].0);
        }
        self.entries.remove(p);
        proof {
            let s = self@;
            assert(s =~= before_seq.remove(p as int));
            assert forall|i: int, j: int| 0 <= i < j < s.len() implies name_lt(
                #[trigger] s[i].0,
                #[trigger] s[j].0,
            ) by {
                let a = if i < p { i } else { i + 1 };
                let b = if j < p { j } else { j + 1 };
                assert(name_lt(before_seq[a].0, before_seq[b].0));
            }
            assert forall|e: (Seq<char>, usize)| #[trigger]
                s.contains(e) <==> before_seq.contains(e) && e.0 != key by {
                if s.contains(e) {
                    let k = choose|k: int| 0 <= k < s.len() && s[k] == e;
                    let a = if k < p { k } else { k + 1 };
                    assert(before_seq[a] == e);
                }
                if before_seq.contains(e) && e.0 != key {
                    let k = choose|k: int| 0 <= k < before_seq.len() && before_seq[k] == e;
                    if k < p {
                        assert(s[k] == e);
                    } else {
                        assert(s[k - 1] == e);
                    }
                }
            }
            assert forall|n: Seq<char>| #[trigger]
                final(self).has_name(n) <==> old(self).has_name(n) && n != key by {
                if final(self).has_name(n) {
                    let k = choose|k: int| 0 <= k < s.len() && (#[trigger] s[k]).0 == n;
                    let a = if k < p { k } else { k + 1 };
                    assert(before_seq[a].0 == n);
                }
                if old(self).has_name(n) && n != key {
                    let k = choose|k: int|
                        0 <= k < before_seq.len() && (#[trigger] before_seq[k]).0 == n;
                    let a = if k < p { k } else { k - 1 };
                    assert(s[a].0 == n);
                }
            }
        }
    }

    /// All the names, in their order.
    pub fn names(&self) -> (out: Vec<String>)
        ensures
            out@.len() == self@.len(),
            forall|k: int| 0 <= k < out@.len() ==> (#[trigger] out@[k])@ == self@[k].0,
            self.wf() ==> ascending(out@),
    {
        let mut out: Vec<String> = Vec::new();
        let mut i: usize = 0;
        while i < self.entries.len()
            invariant
                i <= self.entries@.len(),
                self@.len() == self.entries@.len(),
                out@.len() == i,
                forall|k: int| 0 <= k < i ==> (#[trigger] out@[k])@ == self@[k].0,
            decreases self.entries@.len() - i,
        {
            out.push(self.entries[i].0.clone());
            i += 1;
        }
        proof {
            if self.wf() {
                assert forall|a: int, b: int| 0 <= a < b < out@.len() implies name_lt(
                    (#[trigger] out@[a])@,
                    (#[trigger] out@[b])@,
                ) by {
                    assert(name_lt(self@[a].0, self@[b].0));
                }
            }
        }
        out
    }
}

} // verus!
