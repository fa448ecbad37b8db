use toio_midi::grouper::Merged;
use toio_midi::process::Processor;
use toio_midi::process::MetaKind;
use toio_midi::process::MidiKind;
use toio_midi::tempo::Tempoed;
use toio_midi::timeline::Timeline;
use toio_midi::tracker::Raw;
use toio_midi::Event;
use toio_midi::Note;
use toio_midi::Play;
use toio_midi::PlaySet;
use toio_midi::Start;
use toio_midi::Stop;
use toio_midi::Tempo;

const C3: Note = Note::Tone(36);
const D3: Note = Note::Tone(38);
const E3: Note = Note::Tone(40);

fn press_run(r: &mut Raw, ch: u8) {
    r.on(ch, 100, C3);
    r.on(ch, 200, D3);
    r.on(ch, 100, E3);
    r.off(ch, 300, C3);
    r.off(ch, 0, D3);
    r.off(ch, 0, E3);
}

#[test]
fn raw() {
    let mut r = Raw::new();
    press_run(&mut r, 0);

    // the earliest-held note stays active: the later presses surface only
    // when their predecessors are released, each change emitting a stop
    // and, while a note remains, a start
    let expected: Vec<((u64, u8), Event)> = vec![
        ((100, 0), Event::Start(Start::new(0, C3))),
        ((700, 0), Event::Stop(Stop::new(0))),
        ((700, 0), Event::Start(Start::new(0, D3))),
        ((700, 0), Event::Stop(Stop::new(0))),
        ((700, 0), Event::Start(Start::new(0, E3))),
        ((700, 0), Event::Stop(Stop::new(0))),
    ];
    assert_eq!(*r.events.entries(), expected);
}

#[test]
fn tempoed() {
    let mut r = Raw::new();
    r.tempo(0, 0, 500000);
    press_run(&mut r, 0);

    // 500000 us per beat at 100 ticks per beat: 5 ms per tick
    let t = r.tempoed(100);

    let expected: Vec<((u64, u8), Play)> = vec![
        ((500, 0), Play::new(0, 500, 3000, C3)),
        ((3500, 0), Play::new(0, 3500, 0, D3)),
        ((3500, 0), Play::new(0, 3500, 0, E3)),
    ];
    assert_eq!(*t.0.entries(), expected);
}

#[test]
fn merged() {
    let mut r = Raw::new();
    r.tempo(0, 0, 500000);
    for i in 0..3 {
        press_run(&mut r, i);
    }

    // 5 ms per tick; each channel holds one 3000 ms span, split at 2500 ms
    let t = r.tempoed(100).merged(1000, 2500);

    let expected: Vec<((u64, u8), PlaySet)> = (0..3u8)
        .map(|i| {
            let at = 500 + 3500 * (i as u64);
            (
                (at, i),
                PlaySet {
                    ch: i,
                    at,
                    len: 3000,
                    plays: vec![Play::new(i, at, 2500, C3), Play::new(i, at + 2500, 500, C3)],
                },
            )
        })
        .collect();
    assert_eq!(*t.0.entries(), expected);
}

#[test]
fn single_note_constant_tempo() {
    // one note held 437 ticks at the default 500000 us per beat, 480 ticks
    // per beat: floor(437 * 500000 / 1000 / 480) = 455, on the grid 450
    let mut r = Raw::new();
    r.on(0, 0, C3);
    r.off(0, 437, C3);
    let t = r.tempoed(480);
    let expected: Vec<((u64, u8), Play)> = vec![((0, 0), Play::new(0, 0, 450, C3))];
    assert_eq!(*t.0.entries(), expected);
}

#[test]
fn tracker_closes_at_stream_end() {
    let mut r = Raw::new();
    r.on(0, 0, C3);
    r.on(0, 10, D3);
    r.end(0);
    let expected: Vec<((u64, u8), Event)> = vec![
        ((0, 0), Event::Start(Start::new(0, C3))),
        ((10, 0), Event::Stop(Stop::new(0))),
    ];
    assert_eq!(*r.events.entries(), expected);
    assert_eq!(r.at, 0);
}

#[test]
fn tempo_split_round_trip() {
    // 480000 us per beat at 480 ticks per beat is exactly 1 ms per tick;
    // a boundary after 100 ticks sits exactly on the 10 ms grid, so the
    // split run reaches the same wall clock as the straight one
    let mut one = Raw::new();
    one.tempo(0, 0, 480000);
    one.on(0, 0, C3);
    one.off(0, 200, C3);
    let straight = one.tempoed(480);

    let mut two = Raw::new();
    two.tempo(0, 0, 480000);
    two.on(0, 0, C3);
    two.tempo(0, 100, 480000);
    two.off(0, 100, C3);
    let split = two.tempoed(480);

    assert_eq!(*straight.0.entries(), *split.0.entries());
    let expected: Vec<((u64, u8), Play)> = vec![((0, 0), Play::new(0, 0, 200, C3))];
    assert_eq!(*split.0.entries(), expected);
}

#[test]
fn wall_clock_monotonic() {
    // tick time rises, wall time never falls, across tempo changes too
    let mut r = Raw::new();
    r.on(0, 0, C3);
    r.tempo(0, 7, 123456);
    r.off(0, 9, C3);
    r.on(0, 1, D3);
    r.tempo(0, 3, 999999);
    r.off(0, 50, D3);
    let t = r.tempoed(13);
    let entries = t.0.entries();
    let mut last = 0u64;
    for e in entries.iter() {
        assert!(e.1.at >= last);
        assert!(e.1.at.checked_add(e.1.len).is_some());
        last = e.1.at + e.1.len;
    }
}

fn play_line(plays: &[(u8, u64, u64, Note)]) -> Tempoed {
    let mut tl: Timeline<Play> = Timeline::new();
    for &(ch, at, len, note) in plays {
        tl.insert(at, ch, Play::new(ch, at, len, note));
    }
    Tempoed(tl)
}

#[test]
fn mix_two_sources_alternate() {
    // two overlapping 200 ms notes on channels 1 and 2, unit 40: the
    // destination alternates 40 ms blocks, covering all 200 ms
    let t = play_line(&[(1, 0, 200, C3), (2, 0, 200, D3)]);
    let m = t.mixed(40, &[(0u8, vec![1u8, 2u8])]);
    let expected: Vec<((u64, u8), Play)> = vec![
        ((0, 0), Play::new(0, 0, 40, C3)),
        ((40, 0), Play::new(0, 40, 40, D3)),
        ((80, 0), Play::new(0, 80, 40, C3)),
        ((120, 0), Play::new(0, 120, 40, D3)),
        ((160, 0), Play::new(0, 160, 40, C3)),
    ];
    assert_eq!(*m.0.entries(), expected);
    let total: u64 = m.0.entries().iter().map(|e| e.1.len).sum();
    assert_eq!(total, 200);
}

#[test]
fn mix_deterministic_runs() {
    let t = play_line(&[(1, 0, 200, C3), (2, 20, 150, D3), (5, 30, 90, E3)]);
    let rules: Vec<(u8, Vec<u8>)> = vec![(0u8, vec![1u8, 2u8])];
    let a = t.mixed(40, &rules);
    let b = t.mixed(40, &rules);
    assert_eq!(*a.0.entries(), *b.0.entries());
}

#[test]
fn mix_single_source_relabels() {
    let t = play_line(&[(3, 10, 100, C3), (4, 50, 100, D3)]);
    let m = t.mixed(40, &[(0u8, vec![3u8])]);
    // channel 3 is relabelled to 0; channel 4 is undeclared and passes
    // through unchanged
    let expected: Vec<((u64, u8), Play)> = vec![
        ((10, 0), Play::new(0, 10, 100, C3)),
        ((50, 4), Play::new(4, 50, 100, D3)),
    ];
    assert_eq!(*m.0.entries(), expected);
}

#[test]
fn group_splits_long_interval() {
    // 6000 ms splits into 2550, 2550, 900
    let t = play_line(&[(0, 0, 6000, C3)]);
    let m = t.merged(59, 2550);
    let expected: Vec<((u64, u8), PlaySet)> = vec![(
        (0, 0),
        PlaySet {
            ch: 0,
            at: 0,
            len: 6000,
            plays: vec![
                Play::new(0, 0, 2550, C3),
                Play::new(0, 2550, 2550, C3),
                Play::new(0, 5100, 900, C3),
            ],
        },
    )];
    assert_eq!(*m.0.entries(), expected);
}

#[test]
fn group_fills_short_gap() {
    // a 30 ms gap is bridged by one silence op inside the same batch
    let t = play_line(&[(0, 0, 100, C3), (0, 130, 100, D3)]);
    let m = t.merged(59, 2550);
    let expected: Vec<((u64, u8), PlaySet)> = vec![(
        (0, 0),
        PlaySet {
            ch: 0,
            at: 0,
            len: 230,
            plays: vec![
                Play::new(0, 0, 100, C3),
                Play::new(0, 100, 30, Note::NoSound),
                Play::new(0, 130, 100, D3),
            ],
        },
    )];
    assert_eq!(*m.0.entries(), expected);
}

#[test]
fn group_breaks_on_long_gap() {
    // a 5000 ms gap starts a fresh batch instead of a silence op
    let t = play_line(&[(0, 0, 100, C3), (0, 5100, 100, D3)]);
    let m = t.merged(59, 2550);
    let expected: Vec<((u64, u8), PlaySet)> = vec![
        (
            (0, 0),
            PlaySet { ch: 0, at: 0, len: 100, plays: vec![Play::new(0, 0, 100, C3)] },
        ),
        (
            (5100, 0),
            PlaySet { ch: 0, at: 5100, len: 100, plays: vec![Play::new(0, 5100, 100, D3)] },
        ),
    ];
    assert_eq!(*m.0.entries(), expected);
}

#[test]
fn group_flushes_at_batch_limit() {
    // 59 back-to-back 1 ms ops flush exactly once at the 59th; a 60th op
    // opens a new batch
    let mut plays: Vec<(u8, u64, u64, Note)> = Vec::new();
    for k in 0..60u64 {
        plays.push((0, k, 1, C3));
    }
    let t = play_line(&plays);
    let m = t.merged(59, 2550);
    let entries = m.0.entries();
    assert_eq!(entries.len(), 2);
    assert_eq!(entries[0].0, (0, 0));
    assert_eq!(entries[0].1.plays.len(), 59);
    assert_eq!(entries[0].1.len, 59);
    assert_eq!(entries[1].0, (59, 0));
    assert_eq!(entries[1].1.plays.len(), 1);
    assert_eq!(entries[1].1.at, 59);
}

#[test]
fn regroup_keeps_valid_batches() {
    // re-grouping an already grouped stream with no fillable gaps yields
    // the same batches
    let t = play_line(&[(0, 0, 2550, C3), (0, 2550, 900, D3), (0, 9000, 40, E3)]);
    let m = t.merged(59, 2550);
    let mut back: Vec<(u8, u64, u64, Note)> = Vec::new();
    for e in m.0.entries().iter() {
        for p in e.1.plays.iter() {
            back.push((p.ch, p.at, p.len, p.note));
        }
    }
    let m2 = play_line(&back).merged(59, 2550);
    assert_eq!(*m.0.entries(), *m2.0.entries());
}

#[test]
fn processor_full_run() {
    let mut p = Processor::new();
    p.header(480);
    assert_eq!(p.time_base, 480);
    p.meta_event(0, &MetaKind::SetTempo, &vec![0x07, 0xA1, 0x20]);
    p.midi_event(0, &MidiKind::NoteOn { note: 48, velocity: 64 });
    p.midi_event(437, &MidiKind::NoteOff { note: 48 });
    p.track_change();
    assert_eq!(p.ch, 1);
    let m = p.finalize(59, 2550);
    let expected: Vec<((u64, u8), PlaySet)> = vec![(
        (0, 0),
        PlaySet { ch: 0, at: 0, len: 450, plays: vec![Play::new(0, 0, 450, C3)] },
    )];
    assert_eq!(*m.0.entries(), expected);
}

#[test]
fn processor_header_fallback() {
    let mut p = Processor::new();
    p.header(0x8000);
    assert_eq!(p.time_base, 480);
    p.header(0x8123);
    assert_eq!(p.time_base, 480);
    p.header(96);
    assert_eq!(p.time_base, 96);
}

#[test]
fn processor_mixed_run() {
    let mut p = Processor::new();
    p.header(100);
    p.meta_event(0, &MetaKind::SetTempo, &vec![0x07, 0xA1, 0x20]);
    // channel 0: one note, 40 ticks = 200 ms
    p.midi_event(0, &MidiKind::NoteOn { note: 48, velocity: 64 });
    p.midi_event(40, &MidiKind::NoteOff { note: 48 });
    p.track_change();
    // channel 1: another note over the same span
    p.midi_event(0, &MidiKind::NoteOn { note: 50, velocity: 64 });
    p.midi_event(40, &MidiKind::NoteOff { note: 50 });
    p.track_change();
    let m = p
        .finalize_mixed(59, 2550, 40, &[(0u8, vec![0u8, 1u8])])
        .expect("mixing two disjoint sources cannot overlap");
    let entries = m.0.entries();
    assert_eq!(entries.len(), 1);
    let set = &entries[0].1;
    assert_eq!(set.ch, 0);
    assert_eq!(set.len, 200);
    assert_eq!(set.plays.len(), 5);
    assert_eq!(set.plays[0], Play::new(0, 0, 40, C3));
    assert_eq!(set.plays[1], Play::new(0, 40, 40, D3));
}

#[test]
fn velocity_zero_releases() {
    let mut p = Processor::new();
    p.header(100);
    p.midi_event(0, &MidiKind::NoteOn { note: 48, velocity: 64 });
    p.midi_event(100, &MidiKind::NoteOn { note: 48, velocity: 0 });
    p.track_change();
    // default tempo 500000 at 100 ticks per beat: 5 ms per tick
    let m = p.finalize(59, 2550);
    let expected: Vec<((u64, u8), PlaySet)> = vec![(
        (0, 0),
        PlaySet { ch: 0, at: 0, len: 500, plays: vec![Play::new(0, 0, 500, C3)] },
    )];
    assert_eq!(*m.0.entries(), expected);
}

#[test]
fn tempo_events_are_emitted() {
    let mut r = Raw::new();
    r.tempo(0, 5, 250000);
    let expected: Vec<((u64, u8), Event)> = vec![((5, 0), Event::Tempo(Tempo::new(0, 250000)))];
    assert_eq!(*r.events.entries(), expected);
}

#[test]
fn mid_run_tempo_change_shifts_wall_clock() {
    // 100 ticks at 500000/100 = 5 ms per tick, then 100 ticks at
    // 250000/100 = 2.5 ms per tick: the note ends at 500 + 250 = 750 ms
    let mut r = Raw::new();
    r.on(0, 0, C3);
    r.tempo(0, 100, 250000);
    r.off(0, 100, C3);
    let t = r.tempoed(100);
    let expected: Vec<((u64, u8), Play)> = vec![((0, 0), Play::new(0, 0, 750, C3))];
    assert_eq!(*t.0.entries(), expected);
}

#[test]
fn mixing_onto_one_destination_twice_is_refused() {
    // two rules writing the same destination leave overlapping plays on
    // one channel, which cannot be grouped
    let mut p = Processor::new();
    p.header(100);
    p.midi_event(0, &MidiKind::NoteOn { note: 48, velocity: 64 });
    p.midi_event(40, &MidiKind::NoteOff { note: 48 });
    p.track_change();
    p.midi_event(0, &MidiKind::NoteOn { note: 50, velocity: 64 });
    p.midi_event(40, &MidiKind::NoteOff { note: 50 });
    p.track_change();
    let r = p.finalize_mixed(59, 2550, 40, &[(9u8, vec![0u8]), (9u8, vec![1u8])]);
    assert!(r.is_none());
}
