use vstd::arithmetic::div_mod::lemma_div_denominator;
use vstd::arithmetic::div_mod::lemma_div_is_ordered;
use vstd::arithmetic::div_mod::lemma_div_is_ordered_by_denominator;
use vstd::arithmetic::div_mod::lemma_div_pos_is_pos;
use vstd::arithmetic::div_mod::lemma_div_multiples_vanish;
use vstd::arithmetic::div_mod::lemma_fundamental_div_mod;
use vstd::arithmetic::div_mod::lemma_hoist_over_denominator;
use vstd::arithmetic::div_mod::lemma_mod_multiples_basic;
use vstd::arithmetic::mul::lemma_mul_inequality;
use vstd::prelude::*;

use crate::slots::Slots;
use crate::slots::lemma_del_index;
use crate::slots::lemma_del_unique;
use crate::slots::lemma_put_after_del;
use crate::slots::lemma_put_index;
use crate::slots::lemma_put_unique;
use crate::slots::lemma_slot_pos;
use crate::slots::slot_pos;
use crate::slots::slots_sorted;
use crate::slots::spec_del;
use crate::slots::spec_get;
use crate::slots::spec_put;
use crate::timeline::Timeline;
use crate::timeline::entries_sorted;
use crate::timeline::key_le;
use crate::timeline::spec_insert;
use crate::tracker::Raw;
use crate::timeline::key_lt;
use crate::timeline::lemma_insert_index;
use crate::timeline::lemma_insert_sorted;
use crate::timeline::lemma_slot_for;
use crate::timeline::slot_for;
use crate::Channel;
use crate::Event;
use crate::Note;
use crate::Play;
use crate::Time;
use crate::keys_match;
use crate::plays_apart;

verus! {

/// The tempo in force before any tempo change: 500000 microseconds per
/// beat, 120 beats per minute.
pub const DEFAULT_TEMPO: u64 = 500000;

/// Wall-clock milliseconds before quantization: `base` milliseconds were
/// reached at tick `seg`; since then `t - seg` ticks passed at `tempo`
/// microseconds per `tb` ticks' worth of beat.
pub open spec fn raw_ms(base: int, seg: int, tempo: int, tb: int, t: int) -> int {
    (t - seg) * tempo / 1000 / tb + base
}

/// Wall-clock milliseconds at tick `t`: the raw value, capped at what a
/// 64-bit count can hold, and rounded down to the 10 ms grid.
pub open spec fn wall_ms(base: int, seg: int, tempo: int, tb: int, t: int) -> int {
    (if raw_ms(base, seg, tempo, tb, t) > u64::MAX {
        u64::MAX as int
    } else {
        raw_ms(base, seg, tempo, tb, t)
    }) / 10 * 10
}

/// A well-formed wall-clock base: on the 10 ms grid and within range.
pub open spec fn base_wf(base: int) -> bool {
    0 <= base <= u64::MAX && base % 10 == 0
}

/// Rounding down to a multiple of 10 moves with its argument.
proof fn lemma_round10_ordered(a: int, b: int)
    requires
        a <= b,
    ensures
        a / 10 * 10 <= b / 10 * 10,
{
    lemma_div_is_ordered(a, b, 10);
}

/// A value on the 10 ms grid is its own rounding.
proof fn lemma_round10_exact(a: int)
    requires
        a % 10 == 0,
    ensures
        a / 10 * 10 == a,
{
    lemma_fundamental_div_mod(a, 10);
}

/// Wall time never runs backwards as ticks advance: the clock is monotonic
/// within one tempo segment.
pub proof fn lemma_wall_monotonic(base: int, seg: int, tempo: int, tb: int, t1: int, t2: int)
    requires
        tb > 0,
        tempo >= 0,
        seg <= t1 <= t2,
        base >= 0,
    ensures
        wall_ms(base, seg, tempo, tb, t1) <= wall_ms(base, seg, tempo, tb, t2),
{
    lemma_mul_inequality(t1 - seg, t2 - seg, tempo);
    lemma_div_is_ordered((t1 - seg) * tempo, (t2 - seg) * tempo, 1000);
    lemma_div_is_ordered((t1 - seg) * tempo / 1000, (t2 - seg) * tempo / 1000, tb);
    let r1 = raw_ms(base, seg, tempo, tb, t1);
    let r2 = raw_ms(base, seg, tempo, tb, t2);
    let c1: int = if r1 > u64::MAX {
        u64::MAX as int
    } else {
        r1
    };
    let c2: int = if r2 > u64::MAX {
        u64::MAX as int
    } else {
        r2
    };
    lemma_round10_ordered(c1, c2);
}

/// At its own segment start the clock reads exactly `base`.
pub proof fn lemma_wall_at_seg(base: int, seg: int, tempo: int, tb: int)
    requires
        tb > 0,
        tempo >= 0,
        base_wf(base),
    ensures
        wall_ms(base, seg, tempo, tb, seg) == base,
{
    assert((seg - seg) * tempo == 0) by (nonlinear_arith);
    assert(raw_ms(base, seg, tempo, tb, seg) == base);
    lemma_round10_exact(base);
}

/// The wall clock stays within range and on the 10 ms grid.
pub proof fn lemma_wall_bounds(base: int, seg: int, tempo: int, tb: int, t: int)
    requires
        tb > 0,
        tempo >= 0,
        seg <= t,
        base >= 0,
    ensures
        0 <= wall_ms(base, seg, tempo, tb, t) <= u64::MAX,
        wall_ms(base, seg, tempo, tb, t) % 10 == 0,
        base_wf(wall_ms(base, seg, tempo, tb, t)),
{
    let r = raw_ms(base, seg, tempo, tb, t);
    assert((t - seg) * tempo >= 0) by (nonlinear_arith)
        requires
            t >= seg && tempo >= 0,
    ;
    if (t - seg) * tempo > 0 {
        lemma_div_pos_is_pos((t - seg) * tempo, 1000);
    }
    if (t - seg) * tempo / 1000 > 0 {
        lemma_div_pos_is_pos((t - seg) * tempo / 1000, tb);
    }
    assert((t - seg) * tempo / 1000 / tb >= 0) by {
        if (t - seg) * tempo / 1000 == 0 {
        }
    }
    let c: int = if r > u64::MAX {
        u64::MAX as int
    } else {
        r
    };
    assert(0 <= c <= u64::MAX);
    lemma_fundamental_div_mod(c, 10);
    assert(c / 10 * 10 <= c);
    assert(c / 10 * 10 >= 0) by {
        lemma_div_is_ordered(0, c, 10);
    }
    assert(c / 10 * 10 % 10 == 0) by (nonlinear_arith);
}

/// The wall clock never falls below its base.
pub proof fn lemma_wall_ge_base(base: int, seg: int, tempo: int, tb: int, t: int)
    requires
        tb > 0,
        tempo >= 0,
        seg <= t,
        base_wf(base),
    ensures
        wall_ms(base, seg, tempo, tb, t) >= base,
{
    lemma_wall_at_seg(base, seg, tempo, tb);
    lemma_wall_monotonic(base, seg, tempo, tb, seg, t);
}

/// Round trip of the conversion through a tempo boundary: a constant-tempo
/// run of `t - seg` ticks reaches the same wall clock whether it is
/// converted in one piece or split at tick `m`, provided the elapsed time
/// up to `m` is exact and falls on the 10 ms grid (the divisibility
/// premise); splitting at an inexact boundary can round earlier and lose
/// time. Chains of boundaries follow by applying this lemma to each one.
pub proof fn lemma_segment_split(base: int, seg: int, tempo: int, tb: int, m: int, t: int)
    requires
        tb > 0,
        tempo >= 0,
        base_wf(base),
        seg <= m <= t,
        ((m - seg) * tempo) % (10000 * tb) == 0,
        raw_ms(base, seg, tempo, tb, t) <= u64::MAX,
    ensures
        wall_ms(wall_ms(base, seg, tempo, tb, m), m, tempo, tb, t) == wall_ms(
            base,
            seg,
            tempo,
            tb,
            t,
        ),
{
    let d = 1000 * tb;
    let big = (t - seg) * tempo;
    let fst = (m - seg) * tempo;
    let snd = (t - m) * tempo;
    assert(fst + snd == big) by (nonlinear_arith)
        requires
            fst == (m - seg) * tempo && snd == (t - m) * tempo && big == (t - seg) * tempo,
    ;
    assert(fst >= 0 && snd >= 0) by (nonlinear_arith)
        requires
            seg <= m <= t && tempo >= 0 && fst == (m - seg) * tempo && snd == (t - m) * tempo,
    ;
    // the first leg's elapsed time is exact and on the 10 ms grid
    let q = fst / (10000 * tb);
    lemma_fundamental_div_mod(fst, 10000 * tb);
    assert(fst == (10000 * tb) * q);
    let e = fst / d;
    assert((10000 * tb) * q == d * (10 * q)) by (nonlinear_arith)
        requires
            d == 1000 * tb,
    ;
    lemma_div_multiples_vanish(10 * q, d);
    assert(e == 10 * q);
    lemma_div_denominator(fst, 1000, tb);
    assert(fst / 1000 / tb == e);
    // raw values relate exactly: raw(t) from base == raw(t) from the split
    lemma_div_denominator(snd, 1000, tb);
    lemma_div_denominator(big, 1000, tb);
    lemma_hoist_over_denominator(snd, e, d as nat);
    assert(snd / d + e == (snd + e * d) / d);
    assert(snd + e * d == big) by (nonlinear_arith)
        requires
            e == 10 * q && fst == (10000 * tb) * q && d == 1000 * tb && fst + snd == big,
    ;
    let raw_m = raw_ms(base, seg, tempo, tb, m);
    let raw_t = raw_ms(base, seg, tempo, tb, t);
    assert(raw_m == e + base);
    // the boundary wall clock is the exact elapsed time plus the base
    lemma_mul_inequality(m - seg, t - seg, tempo);
    lemma_div_is_ordered(fst, big, 1000);
    lemma_div_is_ordered(fst / 1000, big / 1000, tb);
    assert(raw_m <= raw_t);
    assert((e + base) % 10 == 0) by {
        let b10 = base / 10;
        lemma_fundamental_div_mod(base, 10);
        assert(e + base == 10 * (q + b10));
        lemma_mod_multiples_basic(q + b10, 10);
        assert((10 * (q + b10)) % 10 == 0);
    }
    lemma_round10_exact(e + base);
    assert(wall_ms(base, seg, tempo, tb, m) == e + base);
    // the second leg lands on the same raw count, so the same wall clock
    assert(raw_ms(e + base, m, tempo, tb, t) == snd / 1000 / tb + e + base);
    assert(snd / 1000 / tb + e + base == raw_t);
}
pub ghost struct TempoState {
    /// Microseconds per beat now in force.
    pub tempo: int,
    /// The tick at which the current tempo took effect.
    pub seg: int,
    /// The wall clock, in ms, at that tick.
    pub base: int,
    /// The wall clock, in ms, of the last transition replayed.
    pub now: int,
    /// Per channel: the wall clock and note of a span opened and not yet
    /// closed.
    pub pending: Seq<(u8, (Time, Note))>,
    /// The spans already closed.
    pub out: Seq<((Time, Channel), Play)>,
}

pub open spec fn init_state() -> TempoState {
    TempoState {
        tempo: DEFAULT_TEMPO as int,
        seg: 0,
        base: 0,
        now: 0,
        pending: Seq::empty(),
        out: Seq::empty(),
    }
}

/// Close channel `c`'s pending span, if any, at wall clock `w`.
pub open spec fn close_play(
    out: Seq<((Time, Channel), Play)>,
    pending: Seq<(u8, (Time, Note))>,
    c: u8,
    w: int,
) -> Seq<((Time, Channel), Play)> {
    match spec_get(pending, c) {
        None => out,
        Some(p) => spec_insert(
            out,
            (p.0, c),
            (Play { ch: c, at: p.0, len: (w - p.0) as Time, note: p.1 }),
        ),
    }
}

/// One transition replayed: starts close the previous span and open a new
/// one, stops close, tempo changes move the conversion anchor and emit
/// nothing.
pub open spec fn tempo_step(st: TempoState, tb: int, key: (Time, Channel), ev: Event) -> TempoState {
    let w = wall_ms(st.base, st.seg, st.tempo, tb, key.0 as int);
    match ev {
        Event::Start(s) => TempoState {
            now: w,
            out: close_play(st.out, st.pending, s.ch, w),
            pending: spec_put(st.pending, s.ch, ((w as Time), s.note)),
            ..st
        },
        Event::Stop(s) => TempoState {
            now: w,
            out: close_play(st.out, st.pending, s.ch, w),
            pending: spec_del(st.pending, s.ch),
            ..st
        },
        Event::Tempo(t) => TempoState {
            now: w,
            base: w,
            seg: key.0 as int,
            tempo: t.tempo as int,
            ..st
        },
    }
}

pub open spec fn tempo_run(
    st: TempoState,
    tb: int,
    evs: Seq<((Time, Channel), Event)>,
) -> TempoState
    decreases evs.len(),
{
    if evs.len() == 0 {
        st
    } else {
        tempo_run(tempo_step(st, tb, evs[0].0, evs[0].1), tb, evs.drop_first())
    }
}

/// Close every span still pending at end of stream, at wall clock `now`,
/// lowest channel first.
pub open spec fn close_all(
    out: Seq<((Time, Channel), Play)>,
    pending: Seq<(u8, (Time, Note))>,
    now: int,
) -> Seq<((Time, Channel), Play)>
    decreases pending.len(),
{
    if pending.len() == 0 {
        out
    } else {
        let e = pending[0];
        close_all(
            spec_insert(
                out,
                (e.1.0, e.0),
                (Play { ch: e.0, at: e.1.0, len: (now - e.1.0) as Time, note: e.1.1 }),
            ),
            pending.drop_first(),
            now,
        )
    }
}

/// What the tempo converter produces from a transition stream: every span
/// a start opened, closed by the next transition on its channel or by the
/// end of the stream, with tick time translated to quantized wall time.
pub open spec fn spec_tempoed(evs: Seq<((Time, Channel), Event)>, tb: int) -> Seq<
    ((Time, Channel), Play),
> {
    let f = tempo_run(init_state(), tb, evs);
    close_all(f.out, f.pending, f.now)
}

/// What holds of the converter state after replaying transitions up to
/// tick `tp`.
pub open spec fn state_wf(st: TempoState, tb: int, tp: int) -> bool {
    &&& base_wf(st.base)
    &&& base_wf(st.now)
    &&& 0 <= st.tempo <= u64::MAX
    &&& 0 <= st.seg <= tp
    &&& st.now == wall_ms(st.base, st.seg, st.tempo, tb, tp)
    &&& slots_sorted(st.pending)
    &&& entries_sorted(st.out)
    &&& forall|i: int|
        0 <= i < st.pending.len() ==> (#[trigger] st.pending[i]).1.0 <= st.now
    &&& keys_match(st.out)
    &&& plays_apart(st.out)
    &&& forall|i: int|
        0 <= i < st.out.len() ==> (#[trigger] st.out[i]).1.at + st.out[i].1.len <= st.now
    &&& forall|pi: int, oi: int|
        #![trigger st.pending[pi], st.out[oi]]
        0 <= pi < st.pending.len() && 0 <= oi < st.out.len() && st.out[oi].1.ch
            == st.pending[pi].0 ==> st.out[oi].1.at + st.out[oi].1.len <= st.pending[pi].1.0
}

/// Closing a span keeps the play-interval invariant: the new play starts
/// where its opening start put it, after every span of its channel already
/// closed, and ends at the closing wall clock `w`.
pub proof fn lemma_close_keeps_apart(
    out: Seq<((Time, Channel), Play)>,
    c: Channel,
    start: Time,
    note: Note,
    w: int,
)
    requires
        entries_sorted(out),
        keys_match(out),
        plays_apart(out),
        start <= w <= u64::MAX,
        forall|i: int| 0 <= i < out.len() ==> (#[trigger] out[i]).1.at + out[i].1.len <= w,
        forall|i: int|
            0 <= i < out.len() && (#[trigger] out[i]).1.ch == c ==> out[i].1.at + out[i].1.len
                <= start,
    ensures
        keys_match(
            spec_insert(out, (start, c), (Play { ch: c, at: start, len: (w - start) as Time, note })),
        ),
        plays_apart(
            spec_insert(out, (start, c), (Play { ch: c, at: start, len: (w - start) as Time, note })),
        ),
        forall|i: int|
            0 <= i < spec_insert(
                out,
                (start, c),
                (Play { ch: c, at: start, len: (w - start) as Time, note }),
            ).len() ==> (#[trigger] spec_insert(
                out,
                (start, c),
                (Play { ch: c, at: start, len: (w - start) as Time, note }),
            )[i]).1.at + spec_insert(
                out,
                (start, c),
                (Play { ch: c, at: start, len: (w - start) as Time, note }),
            )[i].1.len <= w,
        forall|i: int|
            0 <= i < spec_insert(
                out,
                (start, c),
                (Play { ch: c, at: start, len: (w - start) as Time, note }),
            ).len() ==> ((#[trigger] spec_insert(
                out,
                (start, c),
                (Play { ch: c, at: start, len: (w - start) as Time, note }),
            )[i]).1.ch == c || exists|o0: int|
                0 <= o0 < out.len() && spec_insert(
                    out,
                    (start, c),
                    (Play { ch: c, at: start, len: (w - start) as Time, note }),
                )[i] == out[o0]),
{
    let p = Play { ch: c, at: start, len: (w - start) as Time, note };
    let k = (start, c);
    let t = spec_insert(out, k, p);
    let j = slot_for(out, k);
    lemma_slot_for(out, k);
    lemma_insert_index(out, k, p);
    // no play of channel c sits past the insertion point
    assert forall|i: int| j <= i < out.len() implies (#[trigger] out[i]).1.ch != c by {
        if i == j {
            assert(key_lt(k, out[i].0));
        } else {
            assert(key_le(out[j].0, out[i].0));
            assert(key_lt(k, out[i].0));
        }
        if out[i].1.ch == c {
            assert(out[i].0.1 == c);
            assert(out[i].0.0 == out[i].1.at);
            assert(out[i].1.at + out[i].1.len <= start);
        }
    }
    assert forall|i: int| 0 <= i < t.len() implies (#[trigger] t[i]).0.0 == t[i].1.at && t[i].0.1
        == t[i].1.ch by {
        if i < j {
            assert(t[i] == out[i]);
        } else if i > j {
            assert(t[i] == out[i - 1]);
        }
    }
    assert forall|i: int| 0 <= i < t.len() implies (#[trigger] t[i]).1.at + t[i].1.len <= w by {
        if i < j {
            assert(t[i] == out[i]);
        } else if i > j {
            assert(t[i] == out[i - 1]);
        }
    }
    assert forall|i: int| 0 <= i < t.len() implies ((#[trigger] t[i]).1.ch == c || exists|o0: int|
        0 <= o0 < out.len() && t[i] == out[o0]) by {
        if i < j {
            assert(t[i] == out[i]);
        } else if i > j {
            assert(t[i] == out[i - 1]);
        }
    }
    assert forall|a: int, b: int|
        #![trigger t[a], t[b]]
        0 <= a < b < t.len() && t[a].1.ch == t[b].1.ch implies t[a].1.at + t[a].1.len
        <= t[b].1.at by {
        if a < j {
            assert(t[a] == out[a]);
        } else if a > j {
            assert(t[a] == out[a - 1]);
        }
        if b < j {
            assert(t[b] == out[b]);
        } else if b > j {
            assert(t[b] == out[b - 1]);
        }
        if a == j {
            // the new play is the last of its channel: nothing of channel
            // `c` sits past `j`
            assert(t[b] == out[b - 1]);
            assert(out[b - 1].1.ch != c);
        }
        if b == j && t[a].1.ch == c {
            assert(t[a].1.at + t[a].1.len <= start);
        }
    }
}

/// Wall-clock plays, keyed by start time and channel.
pub struct Tempoed(pub Timeline<Play>);

impl Tempoed {
    pub open spec fn wf(&self) -> bool {
        self.0.wf()
    }
}

/// The converter state as the executable loop holds it.
pub open spec fn mk_state(
    tempo: u64,
    seg: u64,
    base: u64,
    now: u64,
    pending: Seq<(u8, (Time, Note))>,
    out: Seq<((Time, Channel), Play)>,
) -> TempoState {
    TempoState {
        tempo: tempo as int,
        seg: seg as int,
        base: base as int,
        now: now as int,
        pending,
        out,
    }
}

impl Raw {
    /// Replay the transition stream against the tempo curve: every span a
    /// start opened becomes one wall-clock play, closed by the next
    /// transition on its channel or by the end of the stream.
    pub fn tempoed(&self, time_base: u64) -> (r: Tempoed)
        requires
            self.wf(),
            time_base > 0,
        ensures
            r.wf(),
            r.0@ == spec_tempoed(self.events@, time_base as int),
            plays_apart(r.0@),
            keys_match(r.0@),
    {
        let ghost tb = time_base as int;
        let ghost evs = self.events@;
        let mut tempo: u64 = DEFAULT_TEMPO;
        let mut seg: Time = 0;
        let mut base: Time = 0;
        let mut now: Time = 0;
        let mut pending: Slots<(Time, Note)> = Slots::new();
        let mut out: Timeline<Play> = Timeline::new();
        let ghost mut tp: int = 0;
        let n = self.events.len();
        let mut i: usize = 0;
        proof {
            assert(evs.skip(0) =~= evs);
            lemma_wall_at_seg(0, 0, DEFAULT_TEMPO as int, tb);
        }
        while i < n
            invariant
                self.events@ == evs,
                n == evs.len(),
                0 <= i <= n,
                entries_sorted(evs),
                time_base > 0,
                tb == time_base as int,
                state_wf(mk_state(tempo, seg, base, now, pending@, out@), tb, tp),
                i < n ==> tp <= evs[i as int].0.0,
                tempo_run(mk_state(tempo, seg, base, now, pending@, out@), tb, evs.skip(i as int))
                    == tempo_run(init_state(), tb, evs),
            decreases n - i,
        {
            let e = *self.events.entry(i);
            let k = e.0;
            let ev = e.1;
            let ghost pre = mk_state(tempo, seg, base, now, pending@, out@);
            proof {
                assert(evs.skip(i as int)[0] == evs[i as int]);
                assert(evs.skip(i as int).drop_first() =~= evs.skip(i as int + 1));
                if i as int + 1 < n {
                    assert(key_le(evs[i as int].0, evs[i as int + 1].0));
                }
            }
            let w = wall_of(base, seg, tempo, time_base, k.0);
            proof {
                lemma_wall_bounds(base as int, seg as int, tempo as int, tb, k.0 as int);
                lemma_wall_monotonic(base as int, seg as int, tempo as int, tb, tp, k.0 as int);
                assert(now <= w);
            }
            match ev {
                Event::Start(st) => {
                    proof {
                        lemma_slot_pos(pre.pending, st.ch);
                    }
                    match pending.remove(st.ch) {
                        Some(p) => {
                            proof {
                                assert(p == pre.pending[slot_pos(pre.pending, st.ch)].1);
                                assert forall|oi: int|
                                    0 <= oi < pre.out.len() && (#[trigger] pre.out[oi]).1.ch
                                        == st.ch implies pre.out[oi].1.at + pre.out[oi].1.len
                                    <= p.0 by {
                                    assert(pre.pending[slot_pos(pre.pending, st.ch)]
                                        == (st.ch, p));
                                }
                                lemma_close_keeps_apart(pre.out, st.ch, p.0, p.1, w as int);
                                lemma_insert_sorted(pre.out, (p.0, st.ch), (Play {
                                    ch: st.ch,
                                    at: p.0,
                                    len: (w - p.0) as Time,
                                    note: p.1,
                                }));
                            }
                            out.insert(p.0, st.ch, Play::new(st.ch, p.0, w - p.0, p.1));
                        },
                        None => {},
                    }
                    pending.insert(st.ch, (w, st.note));
                    proof {
                        lemma_put_after_del(pre.pending, st.ch, ((w, st.note)));
                        lemma_put_index(spec_del(pre.pending, st.ch), st.ch, ((w, st.note)));
                        lemma_del_index(pre.pending, st.ch);
                        lemma_put_unique(pre.pending, st.ch, ((w, st.note)));
                        assert forall|ii: int| 0 <= ii < pending@.len() implies (#[trigger] pending@[ii]).1.0
                            <= w by {
                            if pending@[ii] != (st.ch, ((w as Time), st.note)) {
                                let q = choose|q: int|
                                    0 <= q < spec_del(pre.pending, st.ch).len() && pending@[ii]
                                        == spec_del(pre.pending, st.ch)[q];
                                assert(pending@[ii] == spec_del(pre.pending, st.ch)[q]);
                            }
                        }
                        assert forall|pi: int, oi: int|
                            #![trigger pending@[pi], out@[oi]]
                            0 <= pi < pending@.len() && 0 <= oi < out@.len() && out@[oi].1.ch
                                == pending@[pi].0 implies out@[oi].1.at + out@[oi].1.len
                            <= pending@[pi].1.0 by {
                            if pending@[pi].0 == st.ch {
                                assert(pending@[pi] == (st.ch, ((w as Time), st.note)));
                            } else {
                                let q = choose|q: int|
                                    0 <= q < spec_del(pre.pending, st.ch).len() && pending@[pi]
                                        == spec_del(pre.pending, st.ch)[q];
                                assert(pending@[pi] == spec_del(pre.pending, st.ch)[q]);
                                let q2 = choose|q2: int|
                                    0 <= q2 < pre.pending.len() && spec_del(
                                        pre.pending,
                                        st.ch,
                                    )[q] == pre.pending[q2];
                                assert(spec_del(pre.pending, st.ch)[q] == pre.pending[q2]);
                                if out@[oi].1.ch != st.ch {
                                    let o0 = choose|o0: int|
                                        0 <= o0 < pre.out.len() && out@[oi] == pre.out[o0];
                                    assert(out@[oi] == pre.out[o0]);
                                }
                            }
                        }
                    }
                },
                Event::Stop(sp) => {
                    proof {
                        lemma_slot_pos(pre.pending, sp.ch);
                    }
                    match pending.remove(sp.ch) {
                        Some(p) => {
                            proof {
                                assert(p == pre.pending[slot_pos(pre.pending, sp.ch)].1);
                                assert forall|oi: int|
                                    0 <= oi < pre.out.len() && (#[trigger] pre.out[oi]).1.ch
                                        == sp.ch implies pre.out[oi].1.at + pre.out[oi].1.len
                                    <= p.0 by {
                                    assert(pre.pending[slot_pos(pre.pending, sp.ch)]
                                        == (sp.ch, p));
                                }
                                lemma_close_keeps_apart(pre.out, sp.ch, p.0, p.1, w as int);
                                lemma_insert_sorted(pre.out, (p.0, sp.ch), (Play {
                                    ch: sp.ch,
                                    at: p.0,
                                    len: (w - p.0) as Time,
                                    note: p.1,
                                }));
                            }
                            out.insert(p.0, sp.ch, Play::new(sp.ch, p.0, w - p.0, p.1));
                        },
                        None => {},
                    }
                    proof {
                        lemma_del_index(pre.pending, sp.ch);
                        lemma_del_unique(pre.pending, sp.ch);
                        assert forall|ii: int| 0 <= ii < pending@.len() implies (#[trigger] pending@[ii]).1.0
                            <= w by {
                            let q = choose|q: int|
                                0 <= q < pre.pending.len() && pending@[ii] == pre.pending[q];
                            assert(pending@[ii] == pre.pending[q]);
                        }
                        assert forall|pi: int, oi: int|
                            #![trigger pending@[pi], out@[oi]]
                            0 <= pi < pending@.len() && 0 <= oi < out@.len() && out@[oi].1.ch
                                == pending@[pi].0 implies out@[oi].1.at + out@[oi].1.len
                            <= pending@[pi].1.0 by {
                            assert(pending@[pi].0 != sp.ch);
                            let q = choose|q: int|
                                0 <= q < pre.pending.len() && pending@[pi] == pre.pending[q];
                            assert(pending@[pi] == pre.pending[q]);
                            if out@[oi].1.ch != sp.ch {
                                let o0 = choose|o0: int|
                                    0 <= o0 < pre.out.len() && out@[oi] == pre.out[o0];
                                assert(out@[oi] == pre.out[o0]);
                            }
                        }
                    }
                },
                Event::Tempo(tc) => {
                    seg = k.0;
                    base = w;
                    tempo = tc.tempo;
                    proof {
                        lemma_wall_at_seg(w as int, k.0 as int, tc.tempo as int, tb);
                    }
                },
            }
            now = w;
            proof {
                tp = k.0 as int;
                assert(mk_state(tempo, seg, base, now, pending@, out@) == tempo_step(
                    pre,
                    tb,
                    evs[i as int].0,
                    evs[i as int].1,
                ));
            }
            i += 1;
        }
        let ghost f = tempo_run(init_state(), tb, evs);
        proof {
            assert(evs.skip(n as int) =~= Seq::<((Time, Channel), Event)>::empty());
            assert(mk_state(tempo, seg, base, now, pending@, out@) == f);
        }
        let m = pending.len();
        let mut j: usize = 0;
        proof {
            assert(pending@.skip(0) =~= pending@);
        }
        while j < m
            invariant
                m == pending@.len(),
                0 <= j <= m,
                pending.wf(),
                out.wf(),
                keys_match(out@),
                plays_apart(out@),
                forall|ii: int| 0 <= ii < pending@.len() ==> (#[trigger] pending@[ii]).1.0 <= now,
                forall|oi: int|
                    0 <= oi < out@.len() ==> (#[trigger] out@[oi]).1.at + out@[oi].1.len
                        <= now,
                forall|pi: int, oi: int|
                    #![trigger pending@[pi], out@[oi]]
                    j <= pi < pending@.len() && 0 <= oi < out@.len() && out@[oi].1.ch
                        == pending@[pi].0 ==> out@[oi].1.at + out@[oi].1.len
                        <= pending@[pi].1.0,
                close_all(out@, pending@.skip(j as int), now as int) == close_all(
                    f.out,
                    f.pending,
                    f.now,
                ),
            decreases m - j,
        {
            let e = *pending.entry(j);
            let ghost out0 = out@;
            proof {
                assert(pending@.skip(j as int)[0] == pending@[j as int]);
                assert(pending@.skip(j as int).drop_first() =~= pending@.skip(j as int + 1));
                assert forall|oi: int|
                    0 <= oi < out0.len() && (#[trigger] out0[oi]).1.ch == e.0 implies out0[oi].1.at
                    + out0[oi].1.len <= e.1.0 by {
                    assert(pending@[j as int] == e);
                }
                lemma_close_keeps_apart(out0, e.0, e.1.0, e.1.1, now as int);
                lemma_insert_sorted(out0, (e.1.0, e.0), (Play {
                    ch: e.0,
                    at: e.1.0,
                    len: (now - e.1.0) as Time,
                    note: e.1.1,
                }));
            }
            out.insert(e.1.0, e.0, Play::new(e.0, e.1.0, now - e.1.0, e.1.1));
            proof {
                assert forall|pi: int, oi: int|
                    #![trigger pending@[pi], out@[oi]]
                    j + 1 <= pi < pending@.len() && 0 <= oi < out@.len() && out@[oi].1.ch
                        == pending@[pi].0 implies out@[oi].1.at + out@[oi].1.len
                    <= pending@[pi].1.0 by {
                    assert(pending@[j as int].0 < pending@[pi].0);
                    if out@[oi].1.ch != e.0 {
                        let o0 = choose|o0: int| 0 <= o0 < out0.len() && out@[oi] == out0[o0];
                        assert(out@[oi] == out0[o0]);
                    }
                }
            }
            j += 1;
        }
        proof {
            assert(pending@.skip(m as int) =~= Seq::<(u8, (Time, Note))>::empty());
        }
        Tempoed(out)
    }
}

/// Compute the wall clock for tick `t`, exactly as `wall_ms` states it.
fn wall_of(base: u64, seg: u64, tempo: u64, time_base: u64, t: u64) -> (w: u64)
    requires
        time_base > 0,
        seg <= t,
    ensures
        w as int == wall_ms(base as int, seg as int, tempo as int, time_base as int, t as int),
{
    let delta: u64 = t - seg;
    proof {
        assert((delta as u128) * (tempo as u128) <= u128::MAX) by (nonlinear_arith)
            requires
                delta <= u64::MAX && tempo <= u64::MAX,
        ;
    }
    let scaled: u128 = (delta as u128) * (tempo as u128);
    let ms: u128 = scaled / 1000 / (time_base as u128);
    proof {
        lemma_div_is_ordered(ms as int, u128::MAX as int, 1);
        assert(ms + base <= u128::MAX) by {
            assert(scaled / 1000 <= u128::MAX / 1000) by {
                lemma_div_is_ordered(scaled as int, u128::MAX as int, 1000);
            }
            assert(ms <= scaled / 1000) by {
                lemma_div_is_ordered_by_denominator(scaled as int / 1000, 1, time_base as int);
            }
        }
    }
    let raw: u128 = ms + (base as u128);
    let capped: u64 = if raw > u64::MAX as u128 {
        u64::MAX
    } else {
        raw as u64
    };
    capped / 10 * 10
}

} // verus!
