use vstd::prelude::*;

verus! {

/// Entries strictly increasing by key: ordered, and every key unique.
pub open spec fn slots_sorted<T>(s: Seq<(u8, T)>) -> bool {
    forall|i: int, j: int| #![trigger s[i], s[j]] 0 <= i < j < s.len() ==> s[i].0 < s[j].0
}

/// The first position whose key is `>= k` (equals `s.len()` if none is).
pub open spec fn slot_pos<T>(s: Seq<(u8, T)>, k: u8) -> int
    decreases s.len(),
{
    if s.len() == 0 {
        0
    } else if s[0].0 < k {
        1 + slot_pos(s.drop_first(), k)
    } else {
        0
    }
}

pub open spec fn slots_has<T>(s: Seq<(u8, T)>, k: u8) -> bool {
    let j = slot_pos(s, k);
    j < s.len() && s[j].0 == k
}

/// The value stored under `k`, if any.
pub open spec fn spec_get<T>(s: Seq<(u8, T)>, k: u8) -> Option<T> {
    let j = slot_pos(s, k);
    if slots_has(s, k) {
        Some(s[j].1)
    } else {
        None
    }
}

/// What `Slots::insert` does: replaces the entry under `k`, or adds one.
pub open spec fn spec_put<T>(s: Seq<(u8, T)>, k: u8, v: T) -> Seq<(u8, T)> {
    let j = slot_pos(s, k);
    if slots_has(s, k) {
        s.update(j, (k, v))
    } else {
        s.insert(j, (k, v))
    }
}

/// What `Slots::remove` does: drops the entry under `k`, if present.
pub open spec fn spec_del<T>(s: Seq<(u8, T)>, k: u8) -> Seq<(u8, T)> {
    if slots_has(s, k) {
        s.remove(slot_pos(s, k))
    } else {
        s
    }
}

pub proof fn lemma_slot_pos<T>(s: Seq<(u8, T)>, k: u8)
    ensures
        0 <= slot_pos(s, k) <= s.len(),
        forall|m: int| 0 <= m < slot_pos(s, k) ==> (#[trigger] s[m].0) < k,
        slot_pos(s, k) < s.len() ==> s[slot_pos(s, k)].0 >= k,
    decreases s.len(),
{
    if s.len() > 0 && s[0].0 < k {
        lemma_slot_pos(s.drop_first(), k);
        assert forall|m: int| 0 <= m < slot_pos(s, k) implies (#[trigger] s[m].0) < k by {
            if m > 0 {
                assert(s.drop_first()[m - 1] == s[m]);
            }
        }
        if slot_pos(s, k) < s.len() {
            assert(s.drop_first()[slot_pos(s, k) - 1] == s[slot_pos(s, k)]);
        }
    }
}

/// In a sorted slot sequence, `k` occurs at `slot_pos` or not at all.
pub proof fn lemma_slots_has<T>(s: Seq<(u8, T)>, k: u8)
    requires
        slots_sorted(s),
    ensures
        slots_has(s, k) <==> exists|m: int| 0 <= m < s.len() && (#[trigger] s[m].0) == k,
{
    lemma_slot_pos(s, k);
    if exists|m: int| 0 <= m < s.len() && (#[trigger] s[m].0) == k {
        let m = choose|m: int| 0 <= m < s.len() && (#[trigger] s[m].0) == k;
        let j = slot_pos(s, k);
        if m < j {
            assert(s[m].0 < k);
        } else if m > j {
            assert(s[j].0 < s[m].0);
        }
    }
}

pub proof fn lemma_put_sorted<T>(s: Seq<(u8, T)>, k: u8, v: T)
    requires
        slots_sorted(s),
    ensures
        slots_sorted(spec_put(s, k, v)),
{
    lemma_slot_pos(s, k);
    let j = slot_pos(s, k);
    let t = spec_put(s, k, v);
    if slots_has(s, k) {
        assert forall|p: int, q: int| #![trigger t[p], t[q]] 0 <= p < q < t.len() implies t[p].0
            < t[q].0 by {
            assert(t[p].0 == s[p].0 && t[q].0 == s[q].0);
        }
    } else {
        assert forall|p: int, q: int| #![trigger t[p], t[q]] 0 <= p < q < t.len() implies t[p].0
            < t[q].0 by {
            if p < j {
                assert(t[p] == s[p]);
            } else if p > j {
                assert(t[p] == s[p - 1]);
            }
            if q < j {
                assert(t[q] == s[q]);
            } else if q > j {
                assert(t[q] == s[q - 1]);
            }
        }
    }
}

pub proof fn lemma_del_sorted<T>(s: Seq<(u8, T)>, k: u8)
    requires
        slots_sorted(s),
    ensures
        slots_sorted(spec_del(s, k)),
{
    lemma_slot_pos(s, k);
    let j = slot_pos(s, k);
    let t = spec_del(s, k);
    if slots_has(s, k) {
        assert forall|p: int, q: int| #![trigger t[p], t[q]] 0 <= p < q < t.len() implies t[p].0
            < t[q].0 by {
            if p >= j {
                assert(t[p] == s[p + 1]);
            } else {
                assert(t[p] == s[p]);
            }
            if q >= j {
                assert(t[q] == s[q + 1]);
            } else {
                assert(t[q] == s[q]);
            }
        }
    }
}

/// Every entry of `spec_put(s, k, v)` is `(k, v)` or an entry of `s`.
pub proof fn lemma_put_index<T>(s: Seq<(u8, T)>, k: u8, v: T)
    ensures
        forall|p: int|
            0 <= p < spec_put(s, k, v).len() ==> ((#[trigger] spec_put(s, k, v)[p]) == (k, v)
                || exists|q: int| 0 <= q < s.len() && spec_put(s, k, v)[p] == s[q]),
{
    lemma_slot_pos(s, k);
    let j = slot_pos(s, k);
    let t = spec_put(s, k, v);
    assert forall|p: int| 0 <= p < t.len() implies ((#[trigger] t[p]) == (k, v) || exists|q: int|
        0 <= q < s.len() && t[p] == s[q]) by {
        if slots_has(s, k) {
            if p != j {
                assert(t[p] == s[p]);
            }
        } else {
            if p < j {
                assert(t[p] == s[p]);
            } else if p > j {
                assert(t[p] == s[p - 1]);
            }
        }
    }
}

/// Every entry of `spec_del(s, k)` is an entry of `s`.
pub proof fn lemma_del_index<T>(s: Seq<(u8, T)>, k: u8)
    ensures
        forall|p: int|
            0 <= p < spec_del(s, k).len() ==> exists|q: int|
                0 <= q < s.len() && (#[trigger] spec_del(s, k)[p]) == s[q],
{
    lemma_slot_pos(s, k);
    let j = slot_pos(s, k);
    let t = spec_del(s, k);
    assert forall|p: int| 0 <= p < t.len() implies exists|q: int|
        0 <= q < s.len() && (#[trigger] t[p]) == s[q] by {
        if slots_has(s, k) {
            if p < j {
                assert(t[p] == s[p]);
            } else {
                assert(t[p] == s[p + 1]);
            }
        } else {
            assert(t[p] == s[p]);
        }
    }
}

/// Dropping an entry before storing a new one under the same key is the
/// same as storing it outright.
pub proof fn lemma_put_after_del<T>(s: Seq<(u8, T)>, k: u8, v: T)
    requires
        slots_sorted(s),
    ensures
        spec_put(spec_del(s, k), k, v) == spec_put(s, k, v),
{
    lemma_slot_pos(s, k);
    if slots_has(s, k) {
        let j = slot_pos(s, k);
        let d = s.remove(j);
        assert forall|m: int| 0 <= m < j implies (#[trigger] d[m]).0 < k by {
            assert(d[m] == s[m]);
        }
        if j < d.len() {
            assert(d[j] == s[j + 1]);
            assert(s[j].0 < s[j + 1].0);
        }
        lemma_slot_pos(d, k);
        assert(slot_pos(d, k) == j) by {
            let jd = slot_pos(d, k);
            if jd < j {
                assert(d[jd].0 < k);
            }
            if j < jd {
                assert(d[j].0 >= k);
            }
        }
        if j < d.len() {
            assert(d[j].0 != k);
        }
        assert(!slots_has(d, k));
        assert(d.insert(j, (k, v)) =~= s.update(j, (k, v)));
    }
}

/// After a put, `k` holds exactly the stored value, nowhere else.
pub proof fn lemma_put_unique<T>(s: Seq<(u8, T)>, k: u8, v: T)
    requires
        slots_sorted(s),
    ensures
        forall|p: int|
            0 <= p < spec_put(s, k, v).len() && (#[trigger] spec_put(s, k, v)[p]).0 == k
                ==> spec_put(s, k, v)[p] == (k, v),
{
    lemma_slot_pos(s, k);
    let j = slot_pos(s, k);
    let t = spec_put(s, k, v);
    assert forall|p: int| 0 <= p < t.len() && (#[trigger] t[p]).0 == k implies t[p] == (k, v) by {
        if slots_has(s, k) {
            if p != j {
                assert(t[p] == s[p]);
                if p < j {
                    assert(s[p].0 < s[j].0);
                } else {
                    assert(s[j].0 < s[p].0);
                }
            }
        } else {
            if p < j {
                assert(t[p] == s[p]);
                assert(s[p].0 < k);
            } else if p > j {
                assert(t[p] == s[p - 1]);
                if p - 1 > j - 1 && j < s.len() {
                    assert(s[j].0 >= k);
                    if p - 1 > j {
                        assert(s[j].0 < s[p - 1].0);
                    }
                }
            }
        }
    }
}

/// After a delete, no entry holds key `k`.
pub proof fn lemma_del_unique<T>(s: Seq<(u8, T)>, k: u8)
    requires
        slots_sorted(s),
    ensures
        forall|p: int|
            0 <= p < spec_del(s, k).len() ==> (#[trigger] spec_del(s, k)[p]).0 != k,
{
    lemma_slot_pos(s, k);
    let j = slot_pos(s, k);
    let t = spec_del(s, k);
    assert forall|p: int| 0 <= p < t.len() implies (#[trigger] t[p]).0 != k by {
        if slots_has(s, k) {
            if p < j {
                assert(t[p] == s[p]);
                assert(s[p].0 < k);
            } else {
                assert(t[p] == s[p + 1]);
                assert(s[j].0 < s[p + 1].0);
            }
        } else {
            assert(t[p] == s[p]);
            if p < j {
                assert(s[p].0 < k);
            } else if j < s.len() {
                assert(s[j].0 > k);
                if p > j {
                    assert(s[j].0 < s[p].0);
                }
            }
        }
    }
}

/// Putting under `k` makes exactly the keys `{k}` and those already there.
pub proof fn lemma_put_has<T>(s: Seq<(u8, T)>, k: u8, v: T, c: u8)
    requires
        slots_sorted(s),
    ensures
        slots_has(spec_put(s, k, v), c) == (c == k || slots_has(s, c)),
{
    lemma_slot_pos(s, k);
    lemma_put_sorted(s, k, v);
    lemma_slots_has(s, c);
    lemma_slots_has(spec_put(s, k, v), c);
    lemma_put_index(s, k, v);
    let j = slot_pos(s, k);
    let t = spec_put(s, k, v);
    assert(t[j] == (k, v));
    if slots_has(spec_put(s, k, v), c) {
        let m = choose|m: int| 0 <= m < t.len() && (#[trigger] t[m]).0 == c;
        if t[m] != (k, v) {
            let q = choose|q: int| 0 <= q < s.len() && t[m] == s[q];
            assert(t[m] == s[q]);
        }
    }
    if c != k && slots_has(s, c) {
        let m = choose|m: int| 0 <= m < s.len() && (#[trigger] s[m]).0 == c;
        if slots_has(s, k) {
            assert(m != j);
            assert(t[m] == s[m]);
        } else {
            if m < j {
                assert(t[m] == s[m]);
            } else {
                assert(t[m + 1] == s[m]);
            }
        }
    }
}

/// A table of values under `u8` keys, kept ordered by key, one entry per key.
pub struct Slots<T> {
    entries: Vec<(u8, T)>,
}

impl<T> View for Slots<T> {
    type V = Seq<(u8, T)>;

    closed spec fn view(&self) -> Seq<(u8, T)> {
        self.entries@
    }
}

impl<T> Slots<T> {
    pub open spec fn wf(&self) -> bool {
        slots_sorted(self@)
    }

    pub fn new() -> (r: Self)
        ensures
            r@ == Seq::<(u8, T)>::empty(),
            r.wf(),
    {
        Slots { entries: Vec::new() }
    }

    pub fn len(&self) -> (n: usize)
        ensures
            n == self@.len(),
    {
        self.entries.len()
    }

    pub fn is_empty(&self) -> (r: bool)
        ensures
            r == (self@.len() == 0),
    {
        self.entries.len() == 0
    }

    pub fn entry(&self, i: usize) -> (e: &(u8, T))
        requires
            i < self@.len(),
        ensures
            *e == self@[i as int],
    {
        &self.entries[i]
    }

    /// Scan for the first position whose key is `>= k`.
    fn find(&self, k: u8) -> (i: usize)
        ensures
            i as int == slot_pos(self@, k),
    {
        let ghost s = self.entries@;
        let mut i: usize = 0;
        let mut past: bool = false;
        while !past && i < self.entries.len()
            invariant
                self.entries@ == s,
                0 <= i <= s.len(),
                forall|m: int| 0 <= m < i ==> (#[trigger] s[m].0) < k,
                past ==> i < s.len() && s[i as int].0 >= k,
            decreases s.len() - i, (if past { 0int } else { 1int }),
        {
            let ek = self.entries[i].0;
            if ek >= k {
                past = true;
            } else {
                i += 1;
            }
        }
        proof {
            lemma_slot_pos(s, k);
            let j = slot_pos(s, k);
            if j < i {
                assert(s[j].0 < k);
            }
            if i < j as usize {
                assert(s[i as int].0 >= k);
            }
        }
        i
    }

    pub fn contains(&self, k: u8) -> (r: bool)
        ensures
            r == slots_has(self@, k),
    {
        let i = self.find(k);
        i < self.entries.len() && self.entries[i].0 == k
    }

    pub fn get(&self, k: u8) -> (r: Option<&T>)
        ensures
            match r {
                Some(v) => spec_get(self@, k) == Some(*v),
                None => spec_get(self@, k) is None,
            },
    {
        let i = self.find(k);
        if i < self.entries.len() && self.entries[i].0 == k {
            Some(&self.entries[i].1)
        } else {
            None
        }
    }

    pub fn insert(&mut self, k: u8, v: T)
        requires
            old(self).wf(),
        ensures
            final(self).wf(),
            final(self)@ == spec_put(old(self)@, k, v),
    {
        let ghost s = self.entries@;
        let i = self.find(k);
        proof {
            lemma_slot_pos(s, k);
            lemma_put_sorted(s, k, v);
        }
        if i < self.entries.len() && self.entries[i].0 == k {
            self.entries.remove(i);
            self.entries.insert(i, (k, v));
            proof {
                assert(self.entries@ =~= spec_put(s, k, v));
            }
        } else {
            self.entries.insert(i, (k, v));
        }
    }

    pub fn remove(&mut self, k: u8) -> (r: Option<T>)
        requires
            old(self).wf(),
        ensures
            final(self).wf(),
            final(self)@ == spec_del(old(self)@, k),
            r == spec_get(old(self)@, k),
    {
        let ghost s = self.entries@;
        let i = self.find(k);
        proof {
            lemma_del_sorted(s, k);
        }
        if i < self.entries.len() && self.entries[i].0 == k {
            let e = self.entries.remove(i);
            Some(e.1)
        } else {
            None
        }
    }

    pub fn clear(&mut self)
        ensures
            final(self)@ == Seq::<(u8, T)>::empty(),
            final(self).wf(),
    {
        self.entries.clear();
    }
}

} // verus!
