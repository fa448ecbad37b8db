use vstd::prelude::*;

use crate::grouper::Merged;
use crate::mixer::has_ch;
use crate::rules::Rule;
use crate::slots::Slots;
use crate::slots::lemma_put_has;
use crate::slots::lemma_slots_has;
use crate::slots::slots_has;
use crate::Note;
use crate::PlaySet;
use crate::Play;
use crate::Time;
use crate::Channel;

verus! {

/// The most ops one transmitted batch can hold.
pub const MAX_OPS: usize = 59;

/// The longest one op may sound, in milliseconds.
pub const MAX_OP_MS: u64 = 2550;

/// A batch reduced to what the device protocol takes: note and duration
/// per op. A batch over the hardware limits cannot be transmitted and
/// comes back as `None`.
pub fn ops(set: &PlaySet) -> (r: Option<Vec<(Note, Time)>>)
    ensures
        match r {
            Some(v) => set.plays@.len() <= MAX_OPS && (forall|i: int|
                0 <= i < set.plays@.len() ==> (#[trigger] set.plays@[i]).len <= MAX_OP_MS) && v@
                == set.plays@.map_values(|p: Play| (p.note, p.len)),
            None => set.plays@.len() > MAX_OPS || exists|i: int|
                0 <= i < set.plays@.len() && (#[trigger] set.plays@[i]).len > MAX_OP_MS,
        },
{
    let n = set.plays.len();
    if n > MAX_OPS {
        return None;
    }
    let mut v: Vec<(Note, Time)> = Vec::new();
    let mut i: usize = 0;
    while i < n
        invariant
            0 <= i <= n,
            n == set.plays@.len(),
            forall|m: int| 0 <= m < i ==> (#[trigger] set.plays@[m]).len <= MAX_OP_MS,
            v@ == set.plays@.take(i as int).map_values(|p: Play| (p.note, p.len)),
        decreases n - i,
    {
        let p = set.plays[i];
        if p.len > MAX_OP_MS {
            return None;
        }
        v.push((p.note, p.len));
        proof {
            assert(v@ =~= set.plays@.take(i as int + 1).map_values(|p: Play| (p.note, p.len)));
        }
        i += 1;
    }
    proof {
        assert(set.plays@.take(n as int) =~= set.plays@);
    }
    Some(v)
}

/// The channels a grouped timeline addresses, each once, in rising order.
pub fn channels(m: &Merged) -> (r: Vec<Channel>)
    ensures
        forall|i: int, j: int| 0 <= i < j < r@.len() ==> r@[i] < r@[j],
        forall|c: Channel|
            #[trigger] r@.contains(c) <==> exists|k: int|
                0 <= k < m.0@.len() && (#[trigger] m.0@[k]).0.1 == c,
{
    let n = m.0.len();
    let mut seen: Slots<bool> = Slots::new();
    let mut i: usize = 0;
    while i < n
        invariant
            0 <= i <= n,
            n == m.0@.len(),
            seen.wf(),
            forall|c: Channel|
                #[trigger] slots_has(seen@, c) <==> exists|k: int|
                    0 <= k < i && (#[trigger] m.0@[k]).0.1 == c,
        decreases n - i,
    {
        let ghost seen0 = seen@;
        let ch = m.0.entry(i).0.1;
        seen.insert(ch, true);
        proof {
            assert forall|c: Channel| #[trigger] slots_has(seen@, c) <==> exists|k: int|
                0 <= k < i + 1 && (#[trigger] m.0@[k]).0.1 == c by {
                lemma_put_has(seen0, ch, true, c);
                if slots_has(seen@, c) {
                    if c == ch {
                        assert(m.0@[i as int].0.1 == c);
                    }
                }
                if exists|k: int| 0 <= k < i + 1 && (#[trigger] m.0@[k]).0.1 == c {
                    let k = choose|k: int| 0 <= k < i + 1 && (#[trigger] m.0@[k]).0.1 == c;
                    if k < i {
                        assert(slots_has(seen0, c));
                    }
                }
            }
        }
        i += 1;
    }
    let sn = seen.len();
    let mut r: Vec<Channel> = Vec::new();
    let mut j: usize = 0;
    while j < sn
        invariant
            0 <= j <= sn,
            sn == seen@.len(),
            seen.wf(),
            r@.len() == j,
            forall|q: int| 0 <= q < j ==> r@[q] == (#[trigger] seen@[q]).0,
        decreases sn - j,
    {
        let e = *seen.entry(j);
        r.push(e.0);
        j += 1;
    }
    proof {
        assert forall|i: int, j: int| 0 <= i < j < r@.len() implies r@[i] < r@[j] by {
            assert(seen@[i].0 < seen@[j].0);
        }
        assert forall|c: Channel| #[trigger] r@.contains(c) <==> slots_has(seen@, c) by {
            lemma_slots_has(seen@, c);
            if r@.contains(c) {
                let q = choose|q: int| 0 <= q < r@.len() && r@[q] == c;
                assert(seen@[q].0 == c);
            }
            if exists|mm: int| 0 <= mm < seen@.len() && (#[trigger] seen@[mm].0) == c {
                let mm = choose|mm: int| 0 <= mm < seen@.len() && (#[trigger] seen@[mm].0) == c;
                assert(r@[mm] == c);
            }
        }
    }
    r
}

/// The running sum of the listed channels, kept within one byte.
pub open spec fn sum_mod(s: Seq<u8>) -> int
    decreases s.len(),
{
    if s.len() == 0 {
        0
    } else {
        (sum_mod(s.drop_last()) + s.last()) % 256
    }
}

/// The code a device's indicator colour is derived from: the summed
/// sources of the rule writing its channel, or the channel itself when no
/// rule does.
pub open spec fn spec_code(rules: Seq<Rule>, i: u8) -> int
    decreases rules.len(),
{
    if rules.len() == 0 {
        i as int
    } else if rules[0].as_ch == i {
        sum_mod(rules[0].chs@)
    } else {
        spec_code(rules.drop_first(), i)
    }
}

pub fn channel_code(rules: &Vec<Rule>, i: u8) -> (r: u8)
    ensures
        r as int == spec_code(rules@, i),
{
    let n = rules.len();
    let mut k: usize = 0;
    proof {
        assert(rules@.skip(0) =~= rules@);
    }
    while k < n
        invariant
            0 <= k <= n,
            n == rules@.len(),
            spec_code(rules@.skip(k as int), i) == spec_code(rules@, i),
        decreases n - k,
    {
        proof {
            assert(rules@.skip(k as int)[0] == rules@[k as int]);
            assert(rules@.skip(k as int).drop_first() =~= rules@.skip(k as int + 1));
        }
        if rules[k].as_ch == i {
            let chs = &rules[k].chs;
            let m = chs.len();
            let mut c: u32 = 0;
            let mut q: usize = 0;
            proof {
                assert(chs@.take(0) =~= Seq::<u8>::empty());
            }
            while q < m
                invariant
                    0 <= q <= m,
                    m == chs@.len(),
                    c as int == sum_mod(chs@.take(q as int)),
                    c < 256,
                decreases m - q,
            {
                proof {
                    assert(chs@.take(q as int + 1).drop_last() =~= chs@.take(q as int));
                    assert(chs@.take(q as int + 1).last() == chs@[q as int]);
                }
                c = (c + (chs[q] as u32)) % 256;
                q += 1;
            }
            proof {
                assert(chs@.take(m as int) =~= chs@);
            }
            return c as u8;
        }
        k += 1;
    }
    proof {
        assert(rules@.skip(n as int) =~= Seq::<Rule>::empty());
    }
    i
}

/// The indicator colour for code `p`: three bits of `p mod 7 + 1` drive
/// the three lamps, so the light is never fully dark.
pub fn indicator_rgb(p: u8) -> (rgb: (u8, u8, u8))
    ensures
        ({
            let k = ((p % 7 + 1) as u8);
            rgb.0 == (k & 1) * 255 && rgb.1 == ((k >> 1) & 1) * 255 && rgb.2 == ((k >> 2) & 1)
                * 255
        }),
        !(rgb.0 == 0 && rgb.1 == 0 && rgb.2 == 0),
{
    let k = p % 7 + 1;
    proof {
        assert(1 <= k <= 7);
        assert(!((k & 1) == 0 && (k >> 1 & 1) == 0 && (k >> 2 & 1) == 0)) by (bit_vector)
            requires
                1 <= k <= 7,
        ;
        assert((k & 1) <= 1 && (k >> 1 & 1) <= 1 && (k >> 2 & 1) <= 1) by (bit_vector);
    }
    ((k & 1) * 255, (k >> 1 & 1) * 255, (k >> 2 & 1) * 255)
}

/// The first source channel a rule names that the stream does not carry,
/// if any: a rule referring to an absent channel is a configuration error.
pub fn missing_source(rules: &Vec<Rule>, have: &Vec<Channel>) -> (r: Option<Channel>)
    ensures
        match r {
            None => forall|i: int, j: int|
                #![trigger rules@[i].chs@[j]]
                0 <= i < rules@.len() && 0 <= j < rules@[i].chs@.len() ==> have@.contains(
                    rules@[i].chs@[j],
                ),
            Some(c) => !have@.contains(c) && exists|i: int, j: int|
                #![trigger rules@[i].chs@[j]]
                0 <= i < rules@.len() && 0 <= j < rules@[i].chs@.len() && rules@[i].chs@[j] == c,
        },
{
    let n = rules.len();
    let mut i: usize = 0;
    while i < n
        invariant
            0 <= i <= n,
            n == rules@.len(),
            forall|a: int, b: int|
                #![trigger rules@[a].chs@[b]]
                0 <= a < i && 0 <= b < rules@[a].chs@.len() ==> have@.contains(rules@[a].chs@[b]),
        decreases n - i,
    {
        let chs = &rules[i].chs;
        let m = chs.len();
        let mut j: usize = 0;
        while j < m
            invariant
                0 <= i < n,
                0 <= j <= m,
                n == rules@.len(),
                m == rules@[i as int].chs@.len(),
                chs@ == rules@[i as int].chs@,
                forall|b: int| 0 <= b < j ==> have@.contains(#[trigger] rules@[i as int].chs@[b]),
            decreases m - j,
        {
            let c = chs[j];
            if !has_ch(have, c) {
                return Some(c);
            }
            j += 1;
        }
        i += 1;
    }
    None
}

} // verus!
