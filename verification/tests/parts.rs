use toio_midi::grouper::Merged;
use toio_midi::process::decode_tempo;
use toio_midi::rules::Rule;
use toio_midi::rules::RuleError;
use toio_midi::schedule::channel_code;
use toio_midi::schedule::channels;
use toio_midi::schedule::indicator_rgb;
use toio_midi::schedule::missing_source;
use toio_midi::schedule::ops;
use toio_midi::schedule::MAX_OPS;
use toio_midi::tempo::Tempoed;
use toio_midi::timeline::Timeline;
use toio_midi::Note;
use toio_midi::Play;
use toio_midi::PlaySet;

#[test]
fn rule_parses_well_formed() {
    let r = Rule::from_str("3=1,2").unwrap();
    assert_eq!(r.as_ch, 3);
    assert_eq!(r.chs, vec![1u8, 2u8]);

    let r = Rule::from_str("0=255").unwrap();
    assert_eq!(r.as_ch, 0);
    assert_eq!(r.chs, vec![255u8]);
}

#[test]
fn rule_rejects_missing_eq() {
    assert_eq!(Rule::from_str("abc"), Err(RuleError::MissingEq));
    assert_eq!(Rule::from_str(""), Err(RuleError::MissingEq));
}

#[test]
fn rule_rejects_bad_numbers() {
    assert_eq!(Rule::from_str("x=1"), Err(RuleError::BadNumber));
    assert_eq!(Rule::from_str("3=1,x"), Err(RuleError::BadNumber));
    assert_eq!(Rule::from_str("300=1"), Err(RuleError::BadNumber));
    assert_eq!(Rule::from_str("3=256"), Err(RuleError::BadNumber));
    assert_eq!(Rule::from_str("=1"), Err(RuleError::BadNumber));
    assert_eq!(Rule::from_str("3="), Err(RuleError::BadNumber));
    assert_eq!(Rule::from_str("3=1,,2"), Err(RuleError::BadNumber));
}

#[test]
fn tempo_payload_is_big_endian() {
    assert_eq!(decode_tempo(&vec![0x07, 0xA1, 0x20]), 500000);
    assert_eq!(decode_tempo(&vec![]), 0);
    assert_eq!(decode_tempo(&vec![0x01]), 1);
    assert_eq!(decode_tempo(&vec![0x01, 0x00]), 256);
}

#[test]
fn ops_within_limits() {
    let set = PlaySet {
        ch: 0,
        at: 0,
        len: 30,
        plays: vec![
            Play::new(0, 0, 10, Note::Tone(36)),
            Play::new(0, 10, 20, Note::NoSound),
        ],
    };
    let v = ops(&set).unwrap();
    assert_eq!(v, vec![(Note::Tone(36), 10u64), (Note::NoSound, 20u64)]);
}

#[test]
fn ops_rejects_over_limits() {
    let long = PlaySet {
        ch: 0,
        at: 0,
        len: 3000,
        plays: vec![Play::new(0, 0, 3000, Note::Tone(36))],
    };
    assert!(ops(&long).is_none());

    let mut many = PlaySet { ch: 0, at: 0, len: 0, plays: Vec::new() };
    for k in 0..(MAX_OPS as u64 + 1) {
        many.plays.push(Play::new(0, k, 1, Note::Tone(36)));
        many.len += 1;
    }
    assert!(ops(&many).is_none());
}

#[test]
fn channels_are_sorted_and_unique() {
    let mut tl: Timeline<PlaySet> = Timeline::new();
    for &(at, ch) in &[(30u64, 7u8), (0, 2), (10, 7), (20, 0)] {
        tl.insert(at, ch, PlaySet { ch, at, len: 1, plays: vec![Play::new(ch, at, 1, Note::Tone(36))] });
    }
    let m = Merged(tl);
    assert_eq!(channels(&m), vec![0u8, 2u8, 7u8]);
}

#[test]
fn indicator_is_never_dark() {
    for p in 0..=255u8 {
        let (r, g, b) = indicator_rgb(p);
        assert!(r == 255 || g == 255 || b == 255);
        assert!(r % 255 == 0 && g % 255 == 0 && b % 255 == 0);
    }
    assert_eq!(indicator_rgb(0), (255, 0, 0));
    assert_eq!(indicator_rgb(1), (0, 255, 0));
}

#[test]
fn channel_code_sums_rule_sources() {
    let rules = vec![Rule::new(vec![1, 2], 0), Rule::new(vec![200, 200], 1)];
    assert_eq!(channel_code(&rules, 0), 3);
    assert_eq!(channel_code(&rules, 1), (400 % 256) as u8);
    assert_eq!(channel_code(&rules, 5), 5);
}

#[test]
fn missing_source_is_reported() {
    let rules = vec![Rule::new(vec![1, 2], 0)];
    assert_eq!(missing_source(&rules, &vec![1u8, 2u8, 3u8]), None);
    assert_eq!(missing_source(&rules, &vec![1u8]), Some(2));
    assert_eq!(missing_source(&rules, &vec![]), Some(1));
}

#[test]
fn grouping_empty_stream_is_empty() {
    let t = Tempoed(Timeline::new());
    let m = t.merged(59, 2550);
    assert_eq!(m.0.entries().len(), 0);
}

#[test]
fn zero_length_plays_group_to_nothing() {
    let mut tl: Timeline<Play> = Timeline::new();
    tl.insert(100, 0, Play::new(0, 100, 0, Note::Tone(36)));
    let m = Tempoed(tl).merged(59, 2550);
    assert_eq!(m.0.entries().len(), 0);
}
