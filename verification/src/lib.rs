pub mod grouper;
pub mod mixer;
pub mod process;
pub mod rules;
pub mod schedule;
pub mod slots;
pub mod tempo;
pub mod tracker;
pub mod timeline;

use vstd::prelude::*;

verus! {

/// A logical output channel: one channel drives one device.
pub type Channel = u8;

/// Wall-clock or tick time, depending on context.
pub type Time = u64;

/// A note a device can sound, or silence.
#[derive(Clone, Copy, Debug, PartialEq, Eq, Structural)]
pub enum Note {
    Tone(u8),
    NoSound,
}

/// A sounding note carries a tone number below this; the value itself
/// stands for silence when a note is encoded as one byte.
pub const SILENCE_KEY: u8 = 128;

/// Notes a device can voice are numbered 0..=127.
pub open spec fn note_wf(n: Note) -> bool {
    match n {
        Note::Tone(x) => x < SILENCE_KEY,
        Note::NoSound => true,
    }
}

/// A note as one byte: the tone number, or `SILENCE_KEY` for silence.
pub open spec fn spec_note_key(n: Note) -> u8 {
    match n {
        Note::Tone(x) => x,
        Note::NoSound => SILENCE_KEY,
    }
}

/// The note a byte stands for.
pub open spec fn spec_key_note(k: u8) -> Note {
    if k == SILENCE_KEY {
        Note::NoSound
    } else {
        Note::Tone(k)
    }
}

pub fn note_key(n: Note) -> (k: u8)
    ensures
        k == spec_note_key(n),
{
    match n {
        Note::Tone(x) => x,
        Note::NoSound => SILENCE_KEY,
    }
}

/// One wall-clock sound span: `note` on channel `ch`, starting `at`
/// milliseconds, lasting `len` milliseconds.
#[derive(Clone, Copy, Debug, PartialEq, Eq, Structural)]
pub struct Play {
    pub ch: Channel,
    pub at: Time,
    pub len: Time,
    pub note: Note,
}

impl Play {
    pub fn new(ch: Channel, at: Time, len: Time, note: Note) -> (r: Play)
        ensures
            r == (Play { ch, at, len, note }),
    {
        Play { ch, at, len, note }
    }
}

/// A batch of plays transmitted to one device as a unit: back-to-back spans
/// starting at `at`, with `len` the sum of their lengths.
#[derive(Clone, Debug, PartialEq, Eq)]
pub struct PlaySet {
    pub ch: Channel,
    pub at: Time,
    pub len: Time,
    pub plays: Vec<Play>,
}

impl PlaySet {
    pub fn new(ch: Channel, at: Time) -> (r: PlaySet)
        ensures
            r.ch == ch,
            r.at == at,
            r.len == 0,
            r.plays@ == Seq::<Play>::empty(),
    {
        PlaySet { ch, at, len: 0, plays: Vec::new() }
    }
}

/// A note starts sounding on a channel.
#[derive(Clone, Copy, Debug, PartialEq, Eq, Structural)]
pub struct Start {
    pub ch: Channel,
    pub note: Note,
}

impl Start {
    pub fn new(ch: Channel, note: Note) -> (r: Start)
        ensures
            r == (Start { ch, note }),
    {
        Start { ch, note }
    }
}

/// The sounding note on a channel stops.
#[derive(Clone, Copy, Debug, PartialEq, Eq, Structural)]
pub struct Stop {
    pub ch: Channel,
}

impl Stop {
    pub fn new(ch: Channel) -> (r: Stop)
        ensures
            r == (Stop { ch }),
    {
        Stop { ch }
    }
}

/// The tempo changes to `tempo` microseconds per beat.
#[derive(Clone, Copy, Debug, PartialEq, Eq, Structural)]
pub struct Tempo {
    pub ch: Channel,
    pub tempo: u64,
}

impl Tempo {
    pub fn new(ch: Channel, tempo: u64) -> (r: Tempo)
        ensures
            r == (Tempo { ch, tempo }),
    {
        Tempo { ch, tempo }
    }
}

/// Plays of one channel neither overlap nor run backwards, and every
/// span fits the clock: the play-interval invariant of a timeline of plays.
pub open spec fn plays_apart(s: Seq<((Time, Channel), Play)>) -> bool {
    &&& forall|i: int| 0 <= i < s.len() ==> (#[trigger] s[i]).1.at + s[i].1.len <= u64::MAX
    &&& forall|i: int, j: int|
        #![trigger s[i], s[j]]
        0 <= i < j < s.len() && s[i].1.ch == s[j].1.ch ==> s[i].1.at + s[i].1.len <= s[j].1.at
}

/// Every play sits under its own start time and channel as its key.
pub open spec fn keys_match(s: Seq<((Time, Channel), Play)>) -> bool {
    forall|i: int|
        0 <= i < s.len() ==> (#[trigger] s[i]).0.0 == s[i].1.at && s[i].0.1 == s[i].1.ch
}

/// A tick-time transition emitted by the note tracker.
#[derive(Clone, Copy, Debug, PartialEq, Eq, Structural)]
pub enum Event {
    Start(Start),
    Stop(Stop),
    Tempo(Tempo),
}

} // verus!
