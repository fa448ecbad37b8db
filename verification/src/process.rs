use vstd::arithmetic::mul::lemma_mul_inequality;
use vstd::prelude::*;

use crate::grouper::Merged;
use crate::grouper::set_ok;
use crate::grouper::sets_view;
use crate::grouper::spec_merged;
use crate::mixer::rules_view;
use crate::mixer::spec_mixed;
use crate::slots::spec_del;
use crate::slots::spec_put;
use crate::tempo::spec_tempoed;
use crate::timeline::Timeline;
use crate::timeline::lemma_insert_index;
use crate::timeline::slot_for;
use crate::timeline::spec_insert;
use crate::tracker::Raw;
use crate::tracker::active_note;
use crate::tracker::spec_transitions;
use crate::Channel;
use crate::Event;
use crate::Note;
use crate::Play;
use crate::Tempo;
use crate::Time;
use crate::note_wf;
use crate::plays_apart;
use crate::spec_note_key;
use crate::SILENCE_KEY;

verus! {

/// The tick base substituted when a header declares a format the player
/// does not support.
pub const FALLBACK_TIME_BASE: u64 = 480;

/// A meta record, as the stream hands it over: a tempo change with its
/// payload, or anything else.
#[derive(Clone, Copy, Debug, PartialEq, Eq, Structural)]
pub enum MetaKind {
    SetTempo,
    Other,
}

/// A channel-voice record: a key pressed, a key released, or anything else.
#[derive(Clone, Copy, Debug, PartialEq, Eq, Structural)]
pub enum MidiKind {
    NoteOn { note: u8, velocity: u8 },
    NoteOff { note: u8 },
    Other,
}

/// A byte string read as a big-endian integer.
pub open spec fn be_value(data: Seq<u8>) -> int
    decreases data.len(),
{
    if data.len() == 0 {
        0
    } else {
        be_value(data.drop_last()) * 256 + data.last()
    }
}

pub open spec fn pow256(n: nat) -> nat
    decreases n,
{
    if n == 0 {
        1
    } else {
        256 * pow256((n - 1) as nat)
    }
}

proof fn lemma_be_bound(data: Seq<u8>)
    ensures
        0 <= be_value(data) < pow256(data.len() as nat),
    decreases data.len(),
{
    if data.len() > 0 {
        lemma_be_bound(data.drop_last());
        lemma_mul_inequality(be_value(data.drop_last()), pow256((data.len() - 1) as nat) - 1, 256);
    }
}

/// Read a tempo payload: big-endian microseconds per beat. The standard
/// payload is three bytes; up to seven keep the value within range.
pub fn decode_tempo(data: &Vec<u8>) -> (t: u64)
    requires
        data@.len() <= 7,
    ensures
        t as int == be_value(data@),
{
    proof {
        assert(pow256(0) == 1);
        assert(pow256(1) == 256);
        assert(pow256(2) == 0x10000);
        assert(pow256(3) == 0x1000000);
        assert(pow256(4) == 0x100000000);
        assert(pow256(5) == 0x10000000000);
        assert(pow256(6) == 0x1000000000000);
        assert(pow256(7) == 0x100000000000000);
    }
    let n = data.len();
    let mut t: u64 = 0;
    let mut i: usize = 0;
    proof {
        assert(data@.take(0) =~= Seq::<u8>::empty());
    }
    while i < n
        invariant
            0 <= i <= n,
            n == data@.len(),
            n <= 7,
            t as int == be_value(data@.take(i as int)),
            (t as int) < pow256(i as nat),
            pow256(7) == 0x100000000000000,
        decreases n - i,
    {
        proof {
            assert(data@.take(i as int + 1).drop_last() =~= data@.take(i as int));
            assert(data@.take(i as int + 1).last() == data@[i as int]);
            lemma_be_bound(data@.take(i as int));
            lemma_mul_inequality(t as int, pow256(i as nat) - 1, 256);
            assert(pow256((i + 1) as nat) == 256 * pow256(i as nat));
            assert(pow256(i as nat) <= pow256(7)) by {
                assert(pow256(0) <= pow256(1) <= pow256(2) <= pow256(3) <= pow256(4) <= pow256(5)
                    <= pow256(6) <= pow256(7));
            }
        }
        t = t * 256 + (data[i] as u64);
        i += 1;
    }
    proof {
        assert(data@.take(n as int) =~= data@);
    }
    t
}

/// The note a key number voices: the stream's key numbers sit twelve above
/// the playable tone numbers, and the one past the top tone is silence.
pub open spec fn spec_tone(note: u8) -> Note {
    if note - 12 == SILENCE_KEY {
        Note::NoSound
    } else {
        Note::Tone((note - 12) as u8)
    }
}

fn note_of(note: u8) -> (r: Note)
    requires
        12 <= note <= 140,
    ensures
        r == spec_tone(note),
        note_wf(r),
{
    let x = note - 12;
    if x == SILENCE_KEY {
        Note::NoSound
    } else {
        Note::Tone(x)
    }
}

/// Whether a timeline of plays keeps the play-interval invariant; the
/// mixer's output is screened with this before grouping.
pub fn plays_apart_check(t: &Timeline<Play>) -> (r: bool)
    ensures
        r == plays_apart(t@),
{
    let n = t.len();
    let mut i: usize = 0;
    while i < n
        invariant
            0 <= i <= n,
            n == t@.len(),
            forall|m: int| 0 <= m < i ==> (#[trigger] t@[m]).1.at + t@[m].1.len <= u64::MAX,
        decreases n - i,
    {
        let e = *t.entry(i);
        if e.1.at > u64::MAX - e.1.len {
            return false;
        }
        i += 1;
    }
    let mut a: usize = 0;
    while a < n
        invariant
            0 <= a <= n,
            n == t@.len(),
            forall|m: int| 0 <= m < n ==> (#[trigger] t@[m]).1.at + t@[m].1.len <= u64::MAX,
            forall|x: int, y: int|
                #![trigger t@[x], t@[y]]
                0 <= x < a && x < y < n && t@[x].1.ch == t@[y].1.ch ==> t@[x].1.at + t@[x].1.len
                    <= t@[y].1.at,
        decreases n - a,
    {
        let pa = *t.entry(a);
        let mut b: usize = a + 1;
        while b < n
            invariant
                0 <= a < b <= n,
                n == t@.len(),
                pa == t@[a as int],
                forall|m: int| 0 <= m < n ==> (#[trigger] t@[m]).1.at + t@[m].1.len <= u64::MAX,
                forall|y: int|
                    a < y < b && t@[y].1.ch == pa.1.ch ==> pa.1.at + pa.1.len <= (#[trigger] t@[y]).1.at,
            decreases n - b,
        {
            let pb = *t.entry(b);
            if pa.1.ch == pb.1.ch && pa.1.at + pa.1.len > pb.1.at {
                return false;
            }
            b += 1;
        }
        a += 1;
    }
    true
}

/// Every timeline entry of an insert keeps channels at or below `c` when
/// the old entries and the new key do.
proof fn lemma_insert_ch_bound(
    s: Seq<((Time, Channel), Event)>,
    k: (Time, Channel),
    v: Event,
    c: Channel,
)
    requires
        forall|i: int| 0 <= i < s.len() ==> (#[trigger] s[i]).0.1 <= c,
        k.1 <= c,
    ensures
        forall|i: int|
            0 <= i < spec_insert(s, k, v).len() ==> (#[trigger] spec_insert(s, k, v)[i]).0.1 <= c,
{
    crate::timeline::lemma_slot_for(s, k);
    lemma_insert_index(s, k, v);
    let j = slot_for(s, k);
    let t = spec_insert(s, k, v);
    assert forall|i: int| 0 <= i < t.len() implies (#[trigger] t[i]).0.1 <= c by {
        if i < j {
            assert(t[i] == s[i]);
        } else if i > j {
            assert(t[i] == s[i - 1]);
        }
    }
}

/// Feeds the decoded record stream, one track per channel, through the
/// note tracker, and finishes by converting, mixing and grouping.
pub struct Processor {
    /// Ticks per beat, from the stream's header.
    pub time_base: u64,
    /// The channel the records now arriving belong to.
    pub ch: Channel,
    /// The note tracker.
    pub raw: Raw,
}

impl Processor {
    /// The processor's standing between records: the tracker is in step
    /// with the current channel and no transition sits on a later one.
    pub open spec fn wf(&self) -> bool {
        &&& self.raw.wf()
        &&& self.raw.synced(self.ch)
        &&& forall|i: int|
            0 <= i < self.raw.events@.len() ==> (#[trigger] self.raw.events@[i]).0.1 <= self.ch
    }

    pub fn new() -> (r: Processor)
        ensures
            r.wf(),
            r.time_base == 0,
            r.ch == 0,
            r.raw.at == 0,
            r.raw.notes@ == Seq::<(u8, Time)>::empty(),
            r.raw.events@ == Seq::<((Time, Channel), Event)>::empty(),
    {
        Processor { time_base: 0, ch: 0, raw: Raw::new() }
    }

    /// Take the tick base from the stream header; a header with the top
    /// bit set declares a format the player does not support, and the
    /// fallback base is substituted.
    pub fn header(&mut self, time_base: u16)
        requires
            old(self).wf(),
        ensures
            final(self).wf(),
            final(self).ch == old(self).ch,
            final(self).raw == old(self).raw,
            final(self).time_base == (if time_base >= 0x8000 {
                FALLBACK_TIME_BASE as u64
            } else {
                time_base as u64
            }),
    {
        proof {
            assert((time_base & 0x8000 > 0) == (time_base >= 0x8000)) by (bit_vector);
        }
        if time_base & 0x8000 > 0 {
            self.time_base = FALLBACK_TIME_BASE;
        } else {
            self.time_base = time_base as u64;
        }
    }

    /// A meta record: a tempo change is decoded and emitted at its tick;
    /// anything else only advances the clock.
    pub fn meta_event(&mut self, delta: u32, kind: &MetaKind, data: &Vec<u8>)
        requires
            old(self).wf(),
            old(self).raw.at + delta <= u64::MAX,
            data@.len() <= 7,
        ensures
            final(self).wf(),
            final(self).time_base == old(self).time_base,
            final(self).ch == old(self).ch,
            final(self).raw.at == old(self).raw.at + delta,
            final(self).raw.notes@ == old(self).raw.notes@,
            final(self).raw.events@ == (match *kind {
                MetaKind::SetTempo => spec_insert(
                    old(self).raw.events@,
                    (((old(self).raw.at + delta) as Time, old(self).ch)),
                    Event::Tempo(Tempo { ch: old(self).ch, tempo: be_value(data@) as u64 }),
                ),
                MetaKind::Other => old(self).raw.events@,
            }),
    {
        match kind {
            MetaKind::SetTempo => {
                let t = decode_tempo(data);
                self.raw.tempo(self.ch, delta as u64, t);
                proof {
                    lemma_be_bound(data@);
                    lemma_insert_ch_bound(
                        old(self).raw.events@,
                        (((old(self).raw.at + delta) as Time, old(self).ch)),
                        Event::Tempo(Tempo { ch: old(self).ch, tempo: be_value(data@) as u64 }),
                        old(self).ch,
                    );
                }
            },
            MetaKind::Other => {
                self.raw.update(delta as u64);
            },
        }
    }

    /// A channel-voice record: a press with velocity joins the held notes,
    /// a press without velocity or a release leaves them; the tracker emits
    /// whatever transitions the change of active note calls for.
    pub fn midi_event(&mut self, delta: u32, event: &MidiKind)
        requires
            old(self).wf(),
            old(self).raw.at + delta <= u64::MAX,
            match *event {
                MidiKind::NoteOn { note, velocity: _ } => 12 <= note <= 140,
                MidiKind::NoteOff { note } => 12 <= note <= 140,
                MidiKind::Other => true,
            },
        ensures
            final(self).wf(),
            final(self).time_base == old(self).time_base,
            final(self).ch == old(self).ch,
            final(self).raw.at == old(self).raw.at + delta,
            final(self).raw.notes@ == (match *event {
                MidiKind::NoteOn { note, velocity } => if velocity > 0 {
                    spec_put(
                        old(self).raw.notes@,
                        spec_note_key(spec_tone(note)),
                        ((old(self).raw.at + delta) as Time),
                    )
                } else {
                    spec_del(old(self).raw.notes@, spec_note_key(spec_tone(note)))
                },
                MidiKind::NoteOff { note } => spec_del(
                    old(self).raw.notes@,
                    spec_note_key(spec_tone(note)),
                ),
                MidiKind::Other => old(self).raw.notes@,
            }),
            final(self).raw.events@ == (match *event {
                MidiKind::Other => old(self).raw.events@,
                _ => spec_transitions(
                    old(self).raw.events@,
                    ((old(self).raw.at + delta) as Time),
                    old(self).ch,
                    active_note(old(self).raw.notes@),
                    active_note(final(self).raw.notes@),
                ),
            }),
    {
        let ghost at2 = (old(self).raw.at + delta) as Time;
        match event {
            MidiKind::NoteOn { note, velocity } => {
                let n = note_of(*note);
                if *velocity > 0 {
                    self.raw.on(self.ch, delta as u64, n);
                } else {
                    self.raw.off(self.ch, delta as u64, n);
                }
            },
            MidiKind::NoteOff { note } => {
                let n = note_of(*note);
                self.raw.off(self.ch, delta as u64, n);
            },
            MidiKind::Other => {
                self.raw.update(delta as u64);
            },
        }
        proof {
            if !(self.raw.events@ == old(self).raw.events@) {
                let was = active_note(old(self).raw.notes@);
                let now = active_note(self.raw.notes@);
                if was != now {
                    let mid = if was is Some {
                        spec_insert(
                            old(self).raw.events@,
                            ((at2, old(self).ch)),
                            Event::Stop(crate::Stop { ch: old(self).ch }),
                        )
                    } else {
                        old(self).raw.events@
                    };
                    if was is Some {
                        lemma_insert_ch_bound(
                            old(self).raw.events@,
                            ((at2, old(self).ch)),
                            Event::Stop(crate::Stop { ch: old(self).ch }),
                            old(self).ch,
                        );
                    }
                    match now {
                        Some(nn) => {
                            lemma_insert_ch_bound(
                                mid,
                                ((at2, old(self).ch)),
                                Event::Start(crate::Start { ch: old(self).ch, note: nn }),
                                old(self).ch,
                            );
                        },
                        None => {},
                    }
                }
            }
        }
    }

    /// A system-exclusive record only advances the clock.
    pub fn sys_ex_event(&mut self, delta: u32)
        requires
            old(self).wf(),
            old(self).raw.at + delta <= u64::MAX,
        ensures
            final(self).wf(),
            final(self).time_base == old(self).time_base,
            final(self).ch == old(self).ch,
            final(self).raw.at == old(self).raw.at + delta,
            final(self).raw.notes@ == old(self).raw.notes@,
            final(self).raw.events@ == old(self).raw.events@,
    {
        self.raw.update(delta as u64);
    }

    /// A track ends: close whatever still sounds, reset the clock, and
    /// aim the records that follow at the next channel.
    pub fn track_change(&mut self)
        requires
            old(self).wf(),
            old(self).ch < 255,
        ensures
            final(self).wf(),
            final(self).time_base == old(self).time_base,
            final(self).ch == old(self).ch + 1,
            final(self).raw.at == 0,
            final(self).raw.notes@ == Seq::<(u8, Time)>::empty(),
            final(self).raw.events@ == (if old(self).raw.notes@.len() > 0 {
                spec_insert(
                    old(self).raw.events@,
                    ((old(self).raw.at, old(self).ch)),
                    Event::Stop(crate::Stop { ch: old(self).ch }),
                )
            } else {
                old(self).raw.events@
            }),
    {
        proof {
            if old(self).raw.notes@.len() > 0 {
                lemma_insert_ch_bound(
                    old(self).raw.events@,
                    ((old(self).raw.at, old(self).ch)),
                    Event::Stop(crate::Stop { ch: old(self).ch }),
                    old(self).ch,
                );
            }
        }
        self.raw.end(self.ch);
        self.ch = self.ch + 1;
    }

    /// Convert and group the whole stream for playback, one output channel
    /// per input channel.
    pub fn finalize(&self, size: usize, maxlen: Time) -> (r: Merged)
        requires
            self.raw.wf(),
            self.time_base > 0,
            size >= 1,
            maxlen >= 1,
        ensures
            r.wf(),
            sets_view(r.0@) == spec_merged(
                spec_tempoed(self.raw.events@, self.time_base as int),
                size as int,
                maxlen,
            ),
            forall|i: int|
                0 <= i < r.0@.len() ==> set_ok((#[trigger] r.0@[i]).1@, size as int, maxlen),
    {
        let t = self.raw.tempoed(self.time_base);
        t.merged(size, maxlen)
    }

    /// Convert, mix source channels onto destinations by the given rules,
    /// and group for playback. Mixing that leaves two plays overlapping on
    /// one channel - rules writing one destination twice can do that -
    /// cannot be grouped and comes back as `None`.
    pub fn finalize_mixed(
        &self,
        size: usize,
        maxlen: Time,
        unit: u64,
        rules: &[(u8, Vec<u8>)],
    ) -> (r: Option<Merged>)
        requires
            self.raw.wf(),
            self.time_base > 0,
            size >= 1,
            maxlen >= 1,
            unit > 0,
        ensures
            match r {
                Some(m) => plays_apart(
                    spec_mixed(
                        spec_tempoed(self.raw.events@, self.time_base as int),
                        unit,
                        rules_view(rules@),
                    ),
                ) && m.wf() && (forall|i: int|
                    0 <= i < m.0@.len() ==> set_ok((#[trigger] m.0@[i]).1@, size as int, maxlen))
                    && sets_view(m.0@) == spec_merged(
                    spec_mixed(
                        spec_tempoed(self.raw.events@, self.time_base as int),
                        unit,
                        rules_view(rules@),
                    ),
                    size as int,
                    maxlen,
                ),
                None => !plays_apart(
                    spec_mixed(
                        spec_tempoed(self.raw.events@, self.time_base as int),
                        unit,
                        rules_view(rules@),
                    ),
                ),
            },
    {
        let t = self.raw.tempoed(self.time_base);
        let x = t.mixed(unit, rules);
        if plays_apart_check(&x.0) {
            Some(x.merged(size, maxlen))
        } else {
            None
        }
    }
}

} // verus!
