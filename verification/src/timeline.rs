use vstd::prelude::*;

use crate::Channel;
use crate::Time;

verus! {

/// Strict order on timeline keys: by time first, then by channel.
pub open spec fn key_lt(a: (Time, Channel), b: (Time, Channel)) -> bool {
    a.0 < b.0 || (a.0 == b.0 && a.1 < b.1)
}

/// Non-strict order on timeline keys.
pub open spec fn key_le(a: (Time, Channel), b: (Time, Channel)) -> bool {
    !key_lt(b, a)
}

/// Entries are ordered by key; equal keys are allowed and keep insertion order.
pub open spec fn entries_sorted<T>(s: Seq<((Time, Channel), T)>) -> bool {
    forall|i: int, j: int| #![trigger s[i], s[j]] 0 <= i < j < s.len() ==> key_le(s[i].0, s[j].0)
}

/// The position where an entry with key `k` is inserted: the first position
/// whose key is greater than `k`, so that equal keys keep arrival order.
pub open spec fn slot_for<T>(s: Seq<((Time, Channel), T)>, k: (Time, Channel)) -> int
    decreases s.len(),
{
    if s.len() == 0 {
        0
    } else if key_lt(k, s[0].0) {
        0
    } else {
        1 + slot_for(s.drop_first(), k)
    }
}

/// What `Timeline::insert` does to the entry sequence.
pub open spec fn spec_insert<T>(
    s: Seq<((Time, Channel), T)>,
    k: (Time, Channel),
    v: T,
) -> Seq<((Time, Channel), T)> {
    s.insert(slot_for(s, k), (k, v))
}

pub proof fn lemma_slot_for<T>(s: Seq<((Time, Channel), T)>, k: (Time, Channel))
    ensures
        0 <= slot_for(s, k) <= s.len(),
        forall|m: int| 0 <= m < slot_for(s, k) ==> key_le(#[trigger] s[m].0, k),
        slot_for(s, k) < s.len() ==> key_lt(k, s[slot_for(s, k)].0),
    decreases s.len(),
{
    if s.len() > 0 && !key_lt(k, s[0].0) {
        lemma_slot_for(s.drop_first(), k);
        assert forall|m: int| 0 <= m < slot_for(s, k) implies key_le(#[trigger] s[m].0, k) by {
            if m > 0 {
                assert(s.drop_first()[m - 1] == s[m]);
            }
        }
        if slot_for(s, k) < s.len() {
            assert(s.drop_first()[slot_for(s, k) - 1] == s[slot_for(s, k)]);
        }
    }
}

pub proof fn lemma_insert_sorted<T>(s: Seq<((Time, Channel), T)>, k: (Time, Channel), v: T)
    requires
        entries_sorted(s),
    ensures
        entries_sorted(spec_insert(s, k, v)),
{
    lemma_slot_for(s, k);
    let j = slot_for(s, k);
    let t = s.insert(j, (k, v));
    assert forall|p: int, q: int| #![trigger t[p], t[q]] 0 <= p < q < t.len() implies key_le(
        t[p].0,
        t[q].0,
    ) by {
        if p < j {
            assert(t[p] == s[p]);
        } else if p > j {
            assert(t[p] == s[p - 1]);
        }
        if q < j {
            assert(t[q] == s[q]);
        } else if q > j {
            assert(t[q] == s[q - 1]);
        }
    }
}

/// How `spec_insert` places entries: the old ones keep their order around
/// the new one, which lands at `slot_for`.
pub proof fn lemma_insert_index<T>(s: Seq<((Time, Channel), T)>, k: (Time, Channel), v: T)
    ensures
        spec_insert(s, k, v).len() == s.len() + 1,
        forall|p: int| 0 <= p < slot_for(s, k) ==> #[trigger] spec_insert(s, k, v)[p] == s[p],
        spec_insert(s, k, v)[slot_for(s, k)] == (k, v),
        forall|p: int|
            slot_for(s, k) < p < s.len() + 1 ==> #[trigger] spec_insert(s, k, v)[p] == s[p - 1],
{
    lemma_slot_for(s, k);
}

/// A sequence of values stamped with (time, channel) keys, kept ordered by
/// key; entries with equal keys stay in the order they were inserted.
pub struct Timeline<T> {
    entries: Vec<((Time, Channel), T)>,
}

impl<T> View for Timeline<T> {
    type V = Seq<((Time, Channel), T)>;

    closed spec fn view(&self) -> Seq<((Time, Channel), T)> {
        self.entries@
    }
}

impl<T> Timeline<T> {
    pub open spec fn wf(&self) -> bool {
        entries_sorted(self@)
    }

    pub fn new() -> (r: Self)
        ensures
            r@ == Seq::<((Time, Channel), T)>::empty(),
            r.wf(),
    {
        Timeline { entries: Vec::new() }
    }

    pub fn len(&self) -> (n: usize)
        ensures
            n == self@.len(),
    {
        self.entries.len()
    }

    pub fn entry(&self, i: usize) -> (e: &((Time, Channel), T))
        requires
            i < self@.len(),
        ensures
            *e == self@[i as int],
    {
        &self.entries[i]
    }

    /// The whole entry list, for callers that walk or compare it.
    pub fn entries(&self) -> (r: &Vec<((Time, Channel), T)>)
        ensures
            r@ == self@,
    {
        &self.entries
    }

    pub fn insert(&mut self, at: Time, ch: Channel, v: T)
        requires
            old(self).wf(),
        ensures
            final(self).wf(),
            final(self)@ == spec_insert(old(self)@, (at, ch), v),
    {
        let ghost s = self.entries@;
        let mut i: usize = 0;
        let mut past: bool = false;
        while !past && i < self.entries.len()
            invariant
                self.entries@ == s,
                0 <= i <= s.len(),
                forall|m: int| 0 <= m < i ==> !key_lt((at, ch), #[trigger] s[m].0),
                past ==> i < s.len() && key_lt((at, ch), s[i as int].0),
            decreases s.len() - i, (if past { 0int } else { 1int }),
        {
            let ek = self.entries[i].0;
            if at < ek.0 || (at == ek.0 && ch < ek.1) {
                past = true;
            } else {
                i += 1;
            }
        }
        proof {
            lemma_slot_for(s, (at, ch));
            assert(i as int == slot_for(s, (at, ch))) by {
                let j = slot_for(s, (at, ch));
                if j < i {
                    assert(!key_lt((at, ch), s[j].0));
                }
                if i < j as usize {
                    assert(key_le(s[i as int].0, (at, ch)));
                }
            }
            lemma_insert_sorted(s, (at, ch), v);
        }
        self.entries.insert(i, ((at, ch), v));
    }
}

} // verus!
