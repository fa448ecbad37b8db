use vstd::prelude::*;

use crate::slots::Slots;
use crate::slots::lemma_del_index;
use crate::slots::lemma_put_index;
use crate::slots::spec_del;
use crate::slots::spec_put;
use crate::timeline::Timeline;
use crate::timeline::entries_sorted;
use crate::timeline::key_le;
use crate::timeline::key_lt;
use crate::timeline::lemma_insert_index;
use crate::timeline::lemma_insert_sorted;
use crate::timeline::lemma_slot_for;
use crate::timeline::slot_for;
use crate::timeline::spec_insert;
use crate::Channel;
use crate::Event;
use crate::Note;
use crate::Start;
use crate::Stop;
use crate::Tempo;
use crate::Time;
use crate::note_key;
use crate::note_wf;
use crate::spec_key_note;
use crate::spec_note_key;
use crate::SILENCE_KEY;

verus! {

/// The held-note entry with the smallest press tick; among equally old
/// entries, the one with the lowest note key. `None` when nothing is held.
pub open spec fn active_slot(s: Seq<(u8, Time)>) -> Option<(u8, Time)>
    decreases s.len(),
{
    if s.len() == 0 {
        None
    } else {
        match active_slot(s.drop_last()) {
            None => Some(s.last()),
            Some(m) => if s.last().1 < m.1 {
                Some(s.last())
            } else {
                Some(m)
            },
        }
    }
}

/// The note sounding while `s` is the held-note table: the earliest-pressed
/// note wins; a later press does not displace it.
pub open spec fn active_note(s: Seq<(u8, Time)>) -> Option<Note> {
    match active_slot(s) {
        None => None,
        Some(e) => Some(spec_key_note(e.0)),
    }
}

/// The transitions a change of active note from `was` to `now` emits at
/// tick `at` on channel `ch`: a stop if a note was sounding, then a start
/// if one sounds now; nothing when the active note did not change.
pub open spec fn spec_transitions(
    ev: Seq<((Time, Channel), Event)>,
    at: Time,
    ch: Channel,
    was: Option<Note>,
    now: Option<Note>,
) -> Seq<((Time, Channel), Event)> {
    if was == now {
        ev
    } else {
        let stopped = if was is Some {
            spec_insert(ev, (at, ch), Event::Stop(Stop { ch }))
        } else {
            ev
        };
        match now {
            Some(n) => spec_insert(stopped, (at, ch), Event::Start(Start { ch, note: n })),
            None => stopped,
        }
    }
}

/// The transitions of channel `c`, in timeline order.
pub open spec fn ch_events(s: Seq<((Time, Channel), Event)>, c: Channel) -> Seq<Event>
    decreases s.len(),
{
    if s.len() == 0 {
        Seq::empty()
    } else if s[0].0.1 == c {
        seq![s[0].1] + ch_events(s.drop_first(), c)
    } else {
        ch_events(s.drop_first(), c)
    }
}

/// `s` is a well-nested run of one channel's transitions: a note sounds at
/// the outset iff `open0`; every start happens while no note sounds and
/// every stop while one does; a note sounds at the end iff `open1`.
pub open spec fn run_wf(s: Seq<Event>, open0: bool, open1: bool) -> bool
    decreases s.len(),
{
    if s.len() == 0 {
        open0 == open1
    } else {
        match s[0] {
            Event::Start(_) => !open0 && run_wf(s.drop_first(), true, open1),
            Event::Stop(_) => open0 && run_wf(s.drop_first(), false, open1),
            Event::Tempo(_) => run_wf(s.drop_first(), open0, open1),
        }
    }
}

pub open spec fn count_starts(s: Seq<Event>) -> int
    decreases s.len(),
{
    if s.len() == 0 {
        0
    } else {
        (if s[0] is Start {
            1int
        } else {
            0int
        }) + count_starts(s.drop_first())
    }
}

pub open spec fn count_stops(s: Seq<Event>) -> int
    decreases s.len(),
{
    if s.len() == 0 {
        0
    } else {
        (if s[0] is Stop {
            1int
        } else {
            0int
        }) + count_stops(s.drop_first())
    }
}

/// In a well-nested run, starts and stops pair off: their counts differ
/// only by the openness at the two ends. A run that begins and ends with
/// silence has exactly one stop for every start - no unmatched opens.
pub proof fn lemma_run_matched(s: Seq<Event>, open0: bool, open1: bool)
    requires
        run_wf(s, open0, open1),
    ensures
        count_starts(s) + (if open0 {
            1int
        } else {
            0int
        }) == count_stops(s) + (if open1 {
            1int
        } else {
            0int
        }),
    decreases s.len(),
{
    if s.len() > 0 {
        match s[0] {
            Event::Start(_) => lemma_run_matched(s.drop_first(), true, open1),
            Event::Stop(_) => lemma_run_matched(s.drop_first(), false, open1),
            Event::Tempo(_) => lemma_run_matched(s.drop_first(), open0, open1),
        }
    }
}

/// Extending a well-nested run by one fitting transition keeps it well
/// nested and moves its end state as the transition says.
pub proof fn lemma_run_push(s: Seq<Event>, open0: bool, open1: bool, e: Event, open2: bool)
    requires
        run_wf(s, open0, open1),
        match e {
            Event::Start(_) => !open1 && open2,
            Event::Stop(_) => open1 && !open2,
            Event::Tempo(_) => open1 == open2,
        },
    ensures
        run_wf(s.push(e), open0, open2),
    decreases s.len(),
{
    if s.len() == 0 {
        assert(s.push(e)[0] == e);
        assert(s.push(e).drop_first() =~= Seq::<Event>::empty());
        match e {
            Event::Start(_) => assert(run_wf(s.push(e).drop_first(), true, open2)),
            Event::Stop(_) => assert(run_wf(s.push(e).drop_first(), false, open2)),
            Event::Tempo(_) => assert(run_wf(s.push(e).drop_first(), open0, open2)),
        }
        assert(run_wf(s.push(e), open0, open2));
    } else {
        assert(s.push(e).drop_first() =~= s.drop_first().push(e));
        assert(s.push(e)[0] == s[0]);
        match s[0] {
            Event::Start(_) => {
                lemma_run_push(s.drop_first(), true, open1, e, open2);
                assert(run_wf(s.push(e).drop_first(), true, open2));
                assert(run_wf(s.push(e), open0, open2));
            },
            Event::Stop(_) => {
                lemma_run_push(s.drop_first(), false, open1, e, open2);
                assert(run_wf(s.push(e).drop_first(), false, open2));
                assert(run_wf(s.push(e), open0, open2));
            },
            Event::Tempo(_) => {
                lemma_run_push(s.drop_first(), open0, open1, e, open2);
                assert(run_wf(s.push(e).drop_first(), open0, open2));
                assert(run_wf(s.push(e), open0, open2));
            },
        }
    }
}

/// Every start the tracker has emitted on a channel is matched by a stop,
/// except the one still pending while a note is held: the held-note table
/// is the single pending start.
pub proof fn lemma_tracker_matched(r: Raw, c: Channel)
    requires
        r.synced(c),
    ensures
        count_starts(ch_events(r.events@, c)) == count_stops(ch_events(r.events@, c)) + (
        if r.notes@.len() > 0 {
            1int
        } else {
            0int
        }),
{
    lemma_run_matched(ch_events(r.events@, c), false, r.notes@.len() > 0);
}

/// A sequence without channel-`c` entries contributes nothing to channel `c`.
proof fn lemma_ch_events_none(s: Seq<((Time, Channel), Event)>, c: Channel)
    requires
        forall|i: int| 0 <= i < s.len() ==> (#[trigger] s[i]).0.1 != c,
    ensures
        ch_events(s, c) == Seq::<Event>::empty(),
    decreases s.len(),
{
    if s.len() > 0 {
        lemma_ch_events_none(s.drop_first(), c);
    }
}

/// Inserting an entry of another channel leaves channel `c`'s run alone.
proof fn lemma_ch_events_other(
    s: Seq<((Time, Channel), Event)>,
    j: int,
    x: ((Time, Channel), Event),
    c: Channel,
)
    requires
        0 <= j <= s.len(),
        x.0.1 != c,
    ensures
        ch_events(s.insert(j, x), c) == ch_events(s, c),
    decreases s.len(),
{
    if j == 0 {
        assert(s.insert(0, x).drop_first() =~= s);
        assert(s.insert(0, x)[0] == x);
    } else {
        lemma_ch_events_other(s.drop_first(), j - 1, x, c);
        assert(s.insert(j, x).drop_first() =~= s.drop_first().insert(j - 1, x));
        assert(s.insert(j, x)[0] == s[0]);
    }
}

/// Inserting a channel-`c` entry behind every existing channel-`c` entry
/// appends its transition to channel `c`'s run.
proof fn lemma_ch_events_push(
    s: Seq<((Time, Channel), Event)>,
    j: int,
    x: ((Time, Channel), Event),
    c: Channel,
)
    requires
        0 <= j <= s.len(),
        x.0.1 == c,
        forall|i: int| j <= i < s.len() ==> (#[trigger] s[i]).0.1 != c,
    ensures
        ch_events(s.insert(j, x), c) == ch_events(s, c).push(x.1),
    decreases s.len(),
{
    if j == 0 {
        lemma_ch_events_none(s, c);
        assert(s.insert(0, x).drop_first() =~= s);
        assert(s.insert(0, x)[0] == x);
        assert(seq![x.1] + ch_events(s, c) =~= ch_events(s, c).push(x.1));
    } else {
        lemma_ch_events_push(s.drop_first(), j - 1, x, c);
        assert(s.insert(j, x).drop_first() =~= s.drop_first().insert(j - 1, x));
        assert(s.insert(j, x)[0] == s[0]);
        if s[0].0.1 == c {
            assert(seq![s[0].1] + ch_events(s.drop_first(), c).push(x.1) =~= (seq![s[0].1]
                + ch_events(s.drop_first(), c)).push(x.1));
        }
    }
}

/// Channel `c`'s transitions all sit at ticks up to `at`.
pub open spec fn ticks_bounded(s: Seq<((Time, Channel), Event)>, c: Channel, at: Time) -> bool {
    forall|i: int| 0 <= i < s.len() && (#[trigger] s[i]).0.1 == c ==> s[i].0.0 <= at
}

/// A timeline insert at the clock front of channel `c` appends to channel
/// `c`'s run and leaves every other channel's run alone.
proof fn lemma_insert_appends(s: Seq<((Time, Channel), Event)>, at: Time, c: Channel, e: Event)
    requires
        entries_sorted(s),
        ticks_bounded(s, c, at),
    ensures
        ch_events(spec_insert(s, (at, c), e), c) == ch_events(s, c).push(e),
        forall|c2: Channel|
            c2 != c ==> #[trigger] ch_events(spec_insert(s, (at, c), e), c2) == ch_events(s, c2),
        ticks_bounded(spec_insert(s, (at, c), e), c, at),
        forall|c2: Channel, b: Time|
            c2 != c && ticks_bounded(s, c2, b) ==> #[trigger] ticks_bounded(
                spec_insert(s, (at, c), e),
                c2,
                b,
            ),
{
    lemma_slot_for(s, (at, c));
    lemma_insert_index(s, (at, c), e);
    let j = slot_for(s, (at, c));
    assert forall|i: int| j <= i < s.len() implies (#[trigger] s[i]).0.1 != c by {
        if i == j {
            assert(key_lt((at, c), s[i].0));
        } else {
            assert(key_le(s[j].0, s[i].0));
            assert(key_lt((at, c), s[i].0));
        }
        if s[i].0.1 == c {
            assert(s[i].0.0 <= at);
        }
    }
    lemma_ch_events_push(s, j, ((at, c), e), c);
    assert forall|c2: Channel| c2 != c implies #[trigger] ch_events(
        spec_insert(s, (at, c), e),
        c2,
    ) == ch_events(s, c2) by {
        lemma_ch_events_other(s, j, ((at, c), e), c2);
    }
}

/// Tracks one channel's raw event stream and emits `Start`/`Stop`/`Tempo`
/// transitions in tick time, collapsing held chords to one active note.
pub struct Raw {
    /// The current tick position.
    pub at: Time,
    /// Held notes: note key -> tick it was pressed.
    pub notes: Slots<Time>,
    /// The transitions emitted so far, over all channels.
    pub events: Timeline<Event>,
}

/// A note is active exactly while some note is held.
pub proof fn lemma_active(s: Seq<(u8, Time)>)
    ensures
        active_slot(s) is Some <==> s.len() > 0,
{
}

impl Raw {
    pub open spec fn wf(&self) -> bool {
        &&& self.notes.wf()
        &&& self.events.wf()
        &&& forall|i: int|
            0 <= i < self.notes@.len() ==> (#[trigger] self.notes@[i]).0 <= SILENCE_KEY
    }

    /// The tracker's standing while channel `c` is the one being fed: `c`'s
    /// run is well nested and open exactly while a note is held, every other
    /// channel's run is complete, and `c`'s transitions sit at or before the
    /// tick clock. This is how at most one start is ever pending per channel.
    pub open spec fn synced(&self, c: Channel) -> bool {
        &&& self.wf()
        &&& ticks_bounded(self.events@, c, self.at)
        &&& run_wf(ch_events(self.events@, c), false, self.notes@.len() > 0)
        &&& forall|c2: Channel|
            c2 != c ==> run_wf(#[trigger] ch_events(self.events@, c2), false, false)
    }

    pub fn new() -> (r: Raw)
        ensures
            r.wf(),
            r.at == 0,
            r.notes@ == Seq::<(u8, Time)>::empty(),
            r.events@ == Seq::<((Time, Channel), Event)>::empty(),
            forall|c: Channel| r.synced(c),
    {
        let r = Raw { at: 0, notes: Slots::new(), events: Timeline::new() };
        proof {
            assert forall|c: Channel| r.synced(c) by {
                assert(ch_events(r.events@, c) =~= Seq::<Event>::empty());
                assert(run_wf(Seq::<Event>::empty(), false, false));
                assert forall|c2: Channel| c2 != c implies run_wf(
                    #[trigger] ch_events(r.events@, c2),
                    false,
                    false,
                ) by {
                    assert(ch_events(r.events@, c2) =~= Seq::<Event>::empty());
                }
            }
        }
        r
    }

    /// Advance the tick clock by `delta` without emitting anything.
    pub fn update(&mut self, delta: Time)
        requires
            old(self).wf(),
            old(self).at + delta <= u64::MAX,
        ensures
            final(self).wf(),
            final(self).at == old(self).at + delta,
            final(self).notes@ == old(self).notes@,
            final(self).events@ == old(self).events@,
            forall|c: Channel| #[trigger] old(self).synced(c) ==> final(self).synced(c),
    {
        self.at = self.at + delta;
    }

    /// The note sounding now: of all held notes, the earliest-pressed one.
    pub fn note(&self) -> (r: Option<Note>)
        ensures
            r == active_note(self.notes@),
    {
        let ghost s = self.notes@;
        let n = self.notes.len();
        let mut best: Option<(u8, Time)> = None;
        let mut i: usize = 0;
        while i < n
            invariant
                self.notes@ == s,
                n == s.len(),
                0 <= i <= n,
                best == active_slot(s.take(i as int)),
            decreases n - i,
        {
            let e = *self.notes.entry(i);
            proof {
                assert(s.take(i + 1).drop_last() =~= s.take(i as int));
                assert(s.take(i + 1).last() == s[i as int]);
            }
            match best {
                None => {
                    best = Some(e);
                },
                Some(b) => {
                    if e.1 < b.1 {
                        best = Some(e);
                    }
                },
            }
            i += 1;
        }
        proof {
            assert(s.take(n as int) =~= s);
        }
        match best {
            None => None,
            Some(b) => Some(
                if b.0 == SILENCE_KEY {
                    Note::NoSound
                } else {
                    Note::Tone(b.0)
                },
            ),
        }
    }

    /// Press or release `note` at the current tick and emit the transitions
    /// the change of active note calls for.
    fn onoff(&mut self, ch: Channel, note: Note, on: bool)
        requires
            old(self).wf(),
            note_wf(note),
        ensures
            final(self).wf(),
            final(self).at == old(self).at,
            final(self).notes@ == (if on {
                spec_put(old(self).notes@, spec_note_key(note), old(self).at)
            } else {
                spec_del(old(self).notes@, spec_note_key(note))
            }),
            final(self).events@ == spec_transitions(
                old(self).events@,
                old(self).at,
                ch,
                active_note(old(self).notes@),
                active_note(final(self).notes@),
            ),
            old(self).synced(ch) ==> final(self).synced(ch),
    {
        let was = self.note();
        let k = note_key(note);
        if on {
            self.notes.insert(k, self.at);
            proof {
                lemma_put_index(old(self).notes@, spec_note_key(note), old(self).at);
            }
        } else {
            self.notes.remove(k);
            proof {
                lemma_del_index(old(self).notes@, spec_note_key(note));
            }
        }
        let now = self.note();

        if !option_note_eq(&was, &now) {
            if was.is_some() {
                self.events.insert(self.at, ch, Event::Stop(Stop::new(ch)));
            }
            match now {
                Some(n) => {
                    self.events.insert(self.at, ch, Event::Start(Start::new(ch, n)));
                },
                None => {},
            }
        }
        proof {
            if old(self).synced(ch) {
                let s0 = old(self).events@;
                let at = old(self).at;
                let open0 = old(self).notes@.len() > 0;
                let open2 = self.notes@.len() > 0;
                lemma_active(old(self).notes@);
                lemma_active(self.notes@);
                if was == now {
                    assert(self.events@ == s0);
                    assert(open0 == open2);
                } else {
                    let s1 = if was is Some {
                        spec_insert(s0, (at, ch), Event::Stop(Stop { ch }))
                    } else {
                        s0
                    };
                    if was is Some {
                        lemma_insert_appends(s0, at, ch, Event::Stop(Stop { ch }));
                        lemma_insert_sorted(s0, (at, ch), Event::Stop(Stop { ch }));
                        lemma_run_push(ch_events(s0, ch), false, open0, Event::Stop(Stop { ch }), false);
                    }
                    assert(run_wf(ch_events(s1, ch), false, false));
                    assert(entries_sorted(s1));
                    assert(ticks_bounded(s1, ch, at));
                    match now {
                        Some(n) => {
                            lemma_insert_appends(s1, at, ch, Event::Start(Start { ch, note: n }));
                            lemma_run_push(
                                ch_events(s1, ch),
                                false,
                                false,
                                Event::Start(Start { ch, note: n }),
                                true,
                            );
                            assert(open2);
                        },
                        None => {
                            assert(!open2);
                        },
                    }
                    assert(run_wf(ch_events(self.events@, ch), false, open2));
                    assert forall|c2: Channel| c2 != ch implies run_wf(
                        #[trigger] ch_events(self.events@, c2),
                        false,
                        false,
                    ) by {}
                }
            }
        }
    }

    /// A note is pressed `delta` ticks after the previous record.
    pub fn on(&mut self, ch: Channel, delta: Time, note: Note)
        requires
            old(self).wf(),
            note_wf(note),
            old(self).at + delta <= u64::MAX,
        ensures
            final(self).wf(),
            final(self).at == old(self).at + delta,
            final(self).notes@ == spec_put(
                old(self).notes@,
                spec_note_key(note),
                (old(self).at + delta) as Time,
            ),
            final(self).events@ == spec_transitions(
                old(self).events@,
                (old(self).at + delta) as Time,
                ch,
                active_note(old(self).notes@),
                active_note(final(self).notes@),
            ),
            old(self).synced(ch) ==> final(self).synced(ch),
    {
        self.update(delta);
        self.onoff(ch, note, true);
    }

    /// A note is released `delta` ticks after the previous record.
    pub fn off(&mut self, ch: Channel, delta: Time, note: Note)
        requires
            old(self).wf(),
            note_wf(note),
            old(self).at + delta <= u64::MAX,
        ensures
            final(self).wf(),
            final(self).at == old(self).at + delta,
            final(self).notes@ == spec_del(old(self).notes@, spec_note_key(note)),
            final(self).events@ == spec_transitions(
                old(self).events@,
                (old(self).at + delta) as Time,
                ch,
                active_note(old(self).notes@),
                active_note(final(self).notes@),
            ),
            old(self).synced(ch) ==> final(self).synced(ch),
    {
        self.update(delta);
        self.onoff(ch, note, false);
    }

    /// The tempo changes `delta` ticks after the previous record.
    pub fn tempo(&mut self, ch: Channel, delta: Time, tempo: u64)
        requires
            old(self).wf(),
            old(self).at + delta <= u64::MAX,
        ensures
            final(self).wf(),
            final(self).at == old(self).at + delta,
            final(self).notes@ == old(self).notes@,
            final(self).events@ == spec_insert(
                old(self).events@,
                ((old(self).at + delta) as Time, ch),
                Event::Tempo(Tempo { ch, tempo }),
            ),
            old(self).synced(ch) ==> final(self).synced(ch),
    {
        self.update(delta);
        let ghost s0 = self.events@;
        let ghost at1 = self.at;
        self.events.insert(self.at, ch, Event::Tempo(Tempo::new(ch, tempo)));
        proof {
            if old(self).synced(ch) {
                let e = Event::Tempo(Tempo { ch, tempo });
                lemma_insert_appends(s0, at1, ch, e);
                lemma_run_push(
                    ch_events(s0, ch),
                    false,
                    self.notes@.len() > 0,
                    e,
                    self.notes@.len() > 0,
                );
            }
        }
    }

    /// The channel's stream ends: close any note still sounding, forget the
    /// held notes, and reset the tick clock for the next channel.
    pub fn end(&mut self, ch: Channel)
        requires
            old(self).wf(),
        ensures
            final(self).wf(),
            final(self).at == 0,
            final(self).notes@ == Seq::<(u8, Time)>::empty(),
            final(self).events@ == (if old(self).notes@.len() > 0 {
                spec_insert(old(self).events@, (old(self).at, ch), Event::Stop(Stop { ch }))
            } else {
                old(self).events@
            }),
            old(self).synced(ch) ==> forall|c2: Channel|
                run_wf(#[trigger] ch_events(final(self).events@, c2), false, false),
    {
        if !self.notes.is_empty() {
            self.events.insert(self.at, ch, Event::Stop(Stop::new(ch)));
            proof {
                if old(self).synced(ch) {
                    lemma_insert_appends(old(self).events@, old(self).at, ch, Event::Stop(Stop { ch }));
                    lemma_run_push(
                        ch_events(old(self).events@, ch),
                        false,
                        true,
                        Event::Stop(Stop { ch }),
                        false,
                    );
                }
            }
        }
        self.notes.clear();
        self.at = 0;
    }
}

/// Equality of two optional notes, usable from executable code.
pub fn option_note_eq(a: &Option<Note>, b: &Option<Note>) -> (r: bool)
    ensures
        r == (a == b),
{
    match (a, b) {
        (None, None) => true,
        (Some(x), Some(y)) => *x == *y,
        _ => false,
    }
}

} // verus!
