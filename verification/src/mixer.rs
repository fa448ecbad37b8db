use vstd::prelude::*;

use crate::tempo::Tempoed;
use crate::timeline::Timeline;
use crate::timeline::spec_insert;
use crate::Channel;
use crate::Note;
use crate::Play;
use crate::Time;

verus! {

/// Every play's span fits the clock.
pub open spec fn bounded_plays(s: Seq<((Time, Channel), Play)>) -> bool {
    forall|i: int| 0 <= i < s.len() ==> (#[trigger] s[i]).1.at + s[i].1.len <= u64::MAX
}

/// A single-source rule only relabels: each source play reappears on the
/// destination channel, otherwise unchanged.
pub open spec fn relabel_run(
    mixed: Seq<((Time, Channel), Play)>,
    orig: Seq<((Time, Channel), Play)>,
    as_ch: Channel,
    chs: Seq<u8>,
) -> Seq<((Time, Channel), Play)>
    decreases orig.len(),
{
    if orig.len() == 0 {
        mixed
    } else {
        let e = orig[0];
        let m2 = if chs.contains(e.0.1) {
            spec_insert(
                mixed,
                (e.0.0, as_ch),
                (Play { ch: as_ch, at: e.1.at, len: e.1.len, note: e.1.note }),
            )
        } else {
            mixed
        };
        relabel_run(m2, orig.drop_first(), as_ch, chs)
    }
}

/// The source plays a multi-source rule scans: those of the rule's source
/// channels, in timeline order.
pub open spec fn srcs_of(s: Seq<((Time, Channel), Play)>, chs: Seq<u8>) -> Seq<Play>
    decreases s.len(),
{
    if s.len() == 0 {
        Seq::empty()
    } else {
        srcs_of(s.drop_last(), chs) + (if chs.contains(s.last().0.1) {
            seq![s.last().1]
        } else {
            Seq::empty()
        })
    }
}

/// The first moment by which every source play has ended.
pub open spec fn max_end(s: Seq<Play>) -> int
    decreases s.len(),
{
    if s.len() == 0 {
        0
    } else {
        let rest = max_end(s.drop_last());
        let e = s.last().at + s.last().len;
        if e > rest {
            e
        } else {
            rest
        }
    }
}

/// A play joins the on set before the first member of a higher channel,
/// so the set stays ordered by source channel.
pub open spec fn ins_by_ch(on: Seq<Play>, p: Play) -> Seq<Play>
    decreases on.len(),
{
    if on.len() == 0 {
        seq![p]
    } else if on[0].ch > p.ch {
        seq![p] + on
    } else {
        seq![on[0]] + ins_by_ch(on.drop_first(), p)
    }
}

/// The members still playing at `at`.
pub open spec fn keep_live(on: Seq<Play>, at: Time) -> Seq<Play>
    decreases on.len(),
{
    if on.len() == 0 {
        Seq::empty()
    } else {
        keep_live(on.drop_last(), at) + (if (at as int) < on.last().at + on.last().len {
            seq![on.last()]
        } else {
            Seq::empty()
        })
    }
}

/// The scanner's running state.
pub ghost struct MixState {
    /// How many source plays have been taken up.
    pub idx: int,
    /// The source plays overlapping the current moment, ordered by channel.
    pub on: Seq<Play>,
    /// The run of same-note slices being coalesced: start, length, note.
    pub last: Option<(Time, Time, Note)>,
    /// The destination timeline built so far.
    pub out: Seq<((Time, Channel), Play)>,
}

/// Take up every source play that has begun by `at`.
pub open spec fn activate(on: Seq<Play>, srcs: Seq<Play>, idx: int, at: Time) -> (Seq<Play>, int)
    decreases srcs.len() - idx,
{
    if 0 <= idx < srcs.len() && srcs[idx].at <= at {
        activate(ins_by_ch(on, srcs[idx]), srcs, idx + 1, at)
    } else {
        (on, idx)
    }
}

/// The coalesced run so far is flushed to the destination channel.
pub open spec fn flush_run(
    out: Seq<((Time, Channel), Play)>,
    last: Option<(Time, Time, Note)>,
    as_ch: Channel,
) -> Seq<((Time, Channel), Play)> {
    match last {
        None => out,
        Some(run) => spec_insert(
            out,
            (run.0, as_ch),
            (Play { ch: as_ch, at: run.0, len: run.1, note: run.2 }),
        ),
    }
}

/// One moment of the scan: take up plays that begin, drop plays that
/// ended, and if any play is on, emit a one-unit slice of the member
/// picked round-robin - index `(at / unit) mod |on|` - coalescing
/// consecutive slices of the same note.
pub open spec fn mix_step(
    srcs: Seq<Play>,
    st: MixState,
    at: Time,
    unit: u64,
    as_ch: Channel,
) -> MixState {
    let a = activate(st.on, srcs, st.idx, at);
    let on2 = keep_live(a.0, at);
    if on2.len() > 0 {
        let sel = ((at as int) / (unit as int)) % (on2.len() as int);
        let note = on2[sel].note;
        match st.last {
            Some(run) => if run.0 + run.1 == at && run.2 == note {
                MixState {
                    idx: a.1,
                    on: on2,
                    last: Some((run.0, (run.1 + 1) as Time, run.2)),
                    out: st.out,
                }
            } else {
                MixState {
                    idx: a.1,
                    on: on2,
                    last: Some((at, 1, note)),
                    out: flush_run(st.out, st.last, as_ch),
                }
            },
            None => MixState { idx: a.1, on: on2, last: Some((at, 1, note)), out: st.out },
        }
    } else {
        MixState { idx: a.1, on: on2, ..st }
    }
}

/// The whole scan, one moment at a time, and the final flush.
pub open spec fn mix_scan(
    srcs: Seq<Play>,
    st: MixState,
    at: Time,
    end: Time,
    unit: u64,
    as_ch: Channel,
) -> Seq<((Time, Channel), Play)>
    decreases end - at,
{
    if at >= end {
        flush_run(st.out, st.last, as_ch)
    } else {
        mix_scan(srcs, mix_step(srcs, st, at, unit, as_ch), (at + 1) as Time, end, unit, as_ch)
    }
}

/// What one rule adds to the mixed timeline: a single source is only
/// relabelled; several sources are interleaved round-robin, `unit`
/// moments per turn, onto the destination channel.
pub open spec fn spec_mix(
    mixed: Seq<((Time, Channel), Play)>,
    orig: Seq<((Time, Channel), Play)>,
    unit: u64,
    as_ch: Channel,
    chs: Seq<u8>,
) -> Seq<((Time, Channel), Play)> {
    if chs.len() == 1 {
        relabel_run(mixed, orig, as_ch, chs)
    } else {
        let srcs = srcs_of(orig, chs);
        let end = if max_end(srcs) > u64::MAX {
            u64::MAX as Time
        } else {
            max_end(srcs) as Time
        };
        mix_scan(srcs, (MixState { idx: 0, on: Seq::empty(), last: None, out: mixed }), 0, end, unit, as_ch)
    }
}

/// Mixing is deterministic: over fixed plays, rules and unit, any two
/// timelines that meet `mixed`'s contract are the same - the scan walks
/// nothing whose order could differ between runs.
pub proof fn lemma_mix_deterministic(
    a: Seq<((Time, Channel), Play)>,
    b: Seq<((Time, Channel), Play)>,
    orig: Seq<((Time, Channel), Play)>,
    unit: u64,
    rules: Seq<(u8, Seq<u8>)>,
)
    requires
        a == spec_mixed(orig, unit, rules),
        b == spec_mixed(orig, unit, rules),
    ensures
        a == b,
{
}

/// Whether `c` is one of the listed channels.
pub(crate) fn has_ch(chs: &Vec<u8>, c: u8) -> (r: bool)
    ensures
        r == chs@.contains(c),
{
    let n = chs.len();
    let mut i: usize = 0;
    let mut found = false;
    while !found && i < n
        invariant
            0 <= i <= n,
            n == chs@.len(),
            found ==> i < n && chs@[i as int] == c,
            !found ==> forall|m: int| 0 <= m < i ==> chs@[m] != c,
        decreases n - i, (if found { 0int } else { 1int }),
    {
        if chs[i] == c {
            found = true;
        } else {
            i += 1;
        }
    }
    found
}

/// Where a play joins the on set: right before the first member of a
/// higher channel.
proof fn lemma_ins_pos(s: Seq<Play>, p: Play, q: int)
    requires
        0 <= q <= s.len(),
        forall|m: int| 0 <= m < q ==> (#[trigger] s[m]).ch <= p.ch,
        q < s.len() ==> s[q].ch > p.ch,
    ensures
        ins_by_ch(s, p) == s.insert(q, p),
    decreases s.len(),
{
    if s.len() == 0 {
        assert(s.insert(0, p) =~= seq![p]);
    } else if q == 0 {
        assert(s.insert(0, p) =~= seq![p] + s);
    } else {
        assert forall|m: int| 0 <= m < q - 1 implies (#[trigger] s.drop_first()[m]).ch
            <= p.ch by {
            assert(s.drop_first()[m] == s[m + 1]);
        }
        if q - 1 < s.drop_first().len() {
            assert(s.drop_first()[q - 1] == s[q]);
        }
        lemma_ins_pos(s.drop_first(), p, q - 1);
        assert(s.insert(q, p) =~= seq![s[0]] + s.drop_first().insert(q - 1, p));
    }
}

/// Put a play into the on set, keeping it ordered by source channel.
fn insert_on(on: &mut Vec<Play>, p: Play)
    ensures
        final(on)@ == ins_by_ch(old(on)@, p),
{
    let ghost s = on@;
    let mut q: usize = 0;
    let mut past = false;
    while !past && q < on.len()
        invariant
            on@ == s,
            0 <= q <= s.len(),
            forall|m: int| 0 <= m < q ==> (#[trigger] s[m]).ch <= p.ch,
            past ==> q < s.len() && s[q as int].ch > p.ch,
        decreases s.len() - q, (if past { 0int } else { 1int }),
    {
        if on[q].ch > p.ch {
            past = true;
        } else {
            q += 1;
        }
    }
    proof {
        lemma_ins_pos(s, p, q as int);
    }
    on.insert(q, p);
}

/// Apply one rule to the mixed timeline, exactly as `spec_mix` states it.
fn mix(mixed: &mut Timeline<Play>, orig: &Timeline<Play>, unit: u64, as_ch: Channel, chs: &Vec<u8>)
    requires
        old(mixed).wf(),
        orig.wf(),
        unit > 0,
        bounded_plays(orig@),
    ensures
        final(mixed).wf(),
        final(mixed)@ == spec_mix(old(mixed)@, orig@, unit, as_ch, chs@),
{
    let ghost orig_s = orig@;
    let ghost mixed0 = old(mixed)@;
    let n = orig.len();
    if chs.len() == 1 {
        let mut i: usize = 0;
        proof {
            assert(orig_s.skip(0) =~= orig_s);
        }
        while i < n
            invariant
                orig@ == orig_s,
                n == orig_s.len(),
                0 <= i <= n,
                mixed.wf(),
                chs@.len() == 1,
                relabel_run(mixed@, orig_s.skip(i as int), as_ch, chs@) == relabel_run(
                    mixed0,
                    orig_s,
                    as_ch,
                    chs@,
                ),
            decreases n - i,
        {
            let e = *orig.entry(i);
            proof {
                assert(orig_s.skip(i as int)[0] == orig_s[i as int]);
                assert(orig_s.skip(i as int).drop_first() =~= orig_s.skip(i as int + 1));
            }
            if has_ch(chs, e.0.1) {
                mixed.insert(e.0.0, as_ch, Play::new(as_ch, e.1.at, e.1.len, e.1.note));
            }
            i += 1;
        }
        proof {
            assert(orig_s.skip(n as int) =~= Seq::<((Time, Channel), Play)>::empty());
        }
        return ;
    }
    // gather the source plays in timeline order
    let mut srcs: Vec<Play> = Vec::new();
    let mut i: usize = 0;
    proof {
        assert(orig_s.take(0) =~= Seq::<((Time, Channel), Play)>::empty());
    }
    while i < n
        invariant
            orig@ == orig_s,
            n == orig_s.len(),
            0 <= i <= n,
            bounded_plays(orig_s),
            srcs@ == srcs_of(orig_s.take(i as int), chs@),
            forall|q: int| 0 <= q < srcs@.len() ==> (#[trigger] srcs@[q]).at + srcs@[q].len <= u64::MAX,
        decreases n - i,
    {
        let e = *orig.entry(i);
        proof {
            assert(orig_s.take(i as int + 1).drop_last() =~= orig_s.take(i as int));
            assert(orig_s.take(i as int + 1).last() == orig_s[i as int]);
        }
        if has_ch(chs, e.0.1) {
            srcs.push(e.1);
        }
        i += 1;
    }
    proof {
        assert(orig_s.take(n as int) =~= orig_s);
    }
    // the moment by which every source play has ended
    let m = srcs.len();
    let mut end: Time = 0;
    let mut j: usize = 0;
    proof {
        assert(srcs@.take(0) =~= Seq::<Play>::empty());
    }
    while j < m
        invariant
            m == srcs@.len(),
            0 <= j <= m,
            forall|q: int| 0 <= q < srcs@.len() ==> (#[trigger] srcs@[q]).at + srcs@[q].len <= u64::MAX,
            end as int == max_end(srcs@.take(j as int)),
        decreases m - j,
    {
        let pl = srcs[j];
        proof {
            assert(srcs@.take(j as int + 1).drop_last() =~= srcs@.take(j as int));
            assert(srcs@.take(j as int + 1).last() == srcs@[j as int]);
        }
        let e = pl.at + pl.len;
        if e > end {
            end = e;
        }
        j += 1;
    }
    proof {
        assert(srcs@.take(m as int) =~= srcs@);
        assert(max_end(srcs@) <= u64::MAX);
    }
    // the scan itself
    let mut idx: usize = 0;
    let mut on: Vec<Play> = Vec::new();
    let mut last: Option<(Time, Time, Note)> = None;
    let mut at: Time = 0;
    while at < end
        invariant
            unit > 0,
            m == srcs@.len(),
            0 <= idx <= m,
            end <= u64::MAX,
            mixed.wf(),
            forall|q: int| 0 <= q < srcs@.len() ==> (#[trigger] srcs@[q]).at + srcs@[q].len <= u64::MAX,
            forall|q: int| 0 <= q < on@.len() ==> (#[trigger] on@[q]).at + on@[q].len <= u64::MAX,
            match last {
                Some(run) => run.0 + run.1 <= u64::MAX,
                None => true,
            },
            mix_scan(
                srcs@,
                (MixState { idx: idx as int, on: on@, last, out: mixed@ }),
                at,
                end,
                unit,
                as_ch,
            ) == mix_scan(
                srcs@,
                (MixState { idx: 0, on: Seq::empty(), last: None, out: mixed0 }),
                0,
                end,
                unit,
                as_ch,
            ),
        decreases end - at,
    {
        let ghost pre = MixState { idx: idx as int, on: on@, last, out: mixed@ };
        // take up the plays that have begun
        while idx < srcs.len() && srcs[idx].at <= at
            invariant
                m == srcs@.len(),
                0 <= idx <= m,
                forall|q: int| 0 <= q < srcs@.len() ==> (#[trigger] srcs@[q]).at + srcs@[q].len <= u64::MAX,
                forall|q: int| 0 <= q < on@.len() ==> (#[trigger] on@[q]).at + on@[q].len <= u64::MAX,
                activate(on@, srcs@, idx as int, at) == activate(pre.on, srcs@, pre.idx, at),
            decreases m - idx,
        {
            let p = srcs[idx];
            let ghost onb = on@;
            insert_on(&mut on, p);
            proof {
                assert forall|q: int| 0 <= q < on@.len() implies (#[trigger] on@[q]).at
                    + on@[q].len <= u64::MAX by {
                    lemma_ins_elems(onb, srcs@, idx as int, at, on@, q);
                }
            }
            idx += 1;
        }
        let ghost act = activate(pre.on, srcs@, pre.idx, at);
        proof {
            assert((on@, idx as int) == act);
        }
        // drop the plays that have ended
        let mut kept: Vec<Play> = Vec::new();
        let mut q: usize = 0;
        proof {
            assert(on@.take(0) =~= Seq::<Play>::empty());
        }
        while q < on.len()
            invariant
                0 <= q <= on@.len(),
                on@ == act.0,
                forall|r: int| 0 <= r < on@.len() ==> (#[trigger] on@[r]).at + on@[r].len <= u64::MAX,
                forall|r: int| 0 <= r < kept@.len() ==> (#[trigger] kept@[r]).at + kept@[r].len <= u64::MAX,
                kept@ == keep_live(on@.take(q as int), at),
            decreases on@.len() - q,
        {
            let pl = on[q];
            proof {
                assert(on@.take(q as int + 1).drop_last() =~= on@.take(q as int));
                assert(on@.take(q as int + 1).last() == on@[q as int]);
            }
            if at < pl.at + pl.len {
                kept.push(pl);
            }
            q += 1;
        }
        proof {
            assert(on@.take(on@.len() as int) =~= on@);
        }
        on = kept;
        // emit one slice of the member picked round-robin
        if on.len() > 0 {
            let sel = ((at / unit) % (on.len() as u64)) as usize;
            let note = on[sel].note;
            match last {
                Some(run) => {
                    if run.0 + run.1 == at && run.2 == note {
                        last = Some((run.0, run.1 + 1, run.2));
                    } else {
                        mixed.insert(run.0, as_ch, Play::new(as_ch, run.0, run.1, run.2));
                        last = Some((at, 1, note));
                    }
                },
                None => {
                    last = Some((at, 1, note));
                },
            }
        }
        proof {
            assert((MixState { idx: idx as int, on: on@, last, out: mixed@ }) == mix_step(
                srcs@,
                pre,
                at,
                unit,
                as_ch,
            ));
        }
        at = at + 1;
    }
    // flush the final coalesced run
    match last {
        Some(run) => {
            mixed.insert(run.0, as_ch, Play::new(as_ch, run.0, run.1, run.2));
        },
        None => {},
    }
}

/// Rule lists as contracts see them: destination channel and source
/// channels.
pub open spec fn rules_view(rs: Seq<(u8, Vec<u8>)>) -> Seq<(u8, Seq<u8>)> {
    rs.map_values(|r: (u8, Vec<u8>)| (r.0, r.1@))
}

/// Whether some rule takes channel `c` as a source.
pub open spec fn declared(rules: Seq<(u8, Seq<u8>)>, c: u8) -> bool {
    exists|i: int| 0 <= i < rules.len() && (#[trigger] rules[i]).1.contains(c)
}

/// Channels no rule takes as a source pass through unchanged.
pub open spec fn passthrough_run(
    mixed: Seq<((Time, Channel), Play)>,
    orig: Seq<((Time, Channel), Play)>,
    rules: Seq<(u8, Seq<u8>)>,
) -> Seq<((Time, Channel), Play)>
    decreases orig.len(),
{
    if orig.len() == 0 {
        mixed
    } else {
        let e = orig[0];
        let m2 = if !declared(rules, e.0.1) {
            spec_insert(mixed, e.0, e.1)
        } else {
            mixed
        };
        passthrough_run(m2, orig.drop_first(), rules)
    }
}

/// Each rule is applied in order.
pub open spec fn rules_run(
    mixed: Seq<((Time, Channel), Play)>,
    orig: Seq<((Time, Channel), Play)>,
    unit: u64,
    rules: Seq<(u8, Seq<u8>)>,
) -> Seq<((Time, Channel), Play)>
    decreases rules.len(),
{
    if rules.len() == 0 {
        mixed
    } else {
        rules_run(spec_mix(mixed, orig, unit, rules[0].0, rules[0].1), orig, unit, rules.drop_first())
    }
}

/// What mixing produces: undeclared channels pass through, then every rule
/// writes its destination channel.
pub open spec fn spec_mixed(
    orig: Seq<((Time, Channel), Play)>,
    unit: u64,
    rules: Seq<(u8, Seq<u8>)>,
) -> Seq<((Time, Channel), Play)> {
    rules_run(passthrough_run(Seq::empty(), orig, rules), orig, unit, rules)
}

/// Whether some rule takes channel `c` as a source.
fn is_declared(rules: &[(u8, Vec<u8>)], c: u8) -> (r: bool)
    ensures
        r == declared(rules_view(rules@), c),
{
    let n = rules.len();
    let mut i: usize = 0;
    let mut found = false;
    while !found && i < n
        invariant
            0 <= i <= n,
            n == rules@.len(),
            found ==> declared(rules_view(rules@), c),
            !found ==> forall|m: int|
                0 <= m < i ==> !(#[trigger] rules_view(rules@)[m]).1.contains(c),
        decreases n - i, (if found { 0int } else { 1int }),
    {
        proof {
            assert(rules_view(rules@)[i as int] == (rules@[i as int].0, rules@[i as int].1@));
        }
        if has_ch(&rules[i].1, c) {
            found = true;
            proof {
                assert(rules_view(rules@)[i as int].1.contains(c));
            }
        } else {
            i += 1;
        }
    }
    found
}

impl Tempoed {
    /// Collapse source channels onto destinations: a channel no rule uses
    /// passes through unchanged; a single-source rule relabels; several
    /// sources take round-robin turns of `unit` ms each on the destination.
    pub fn mixed(&self, unit: u64, rules: &[(u8, Vec<u8>)]) -> (r: Tempoed)
        requires
            self.wf(),
            unit > 0,
            bounded_plays(self.0@),
        ensures
            r.wf(),
            r.0@ == spec_mixed(self.0@, unit, rules_view(rules@)),
    {
        let ghost orig_s = self.0@;
        let mut mixed: Timeline<Play> = Timeline::new();
        let ghost empty_tl = mixed@;
        let n = self.0.len();
        let mut i: usize = 0;
        proof {
            assert(orig_s.skip(0) =~= orig_s);
            assert(empty_tl =~= Seq::<((Time, Channel), Play)>::empty());
        }
        while i < n
            invariant
                self.0@ == orig_s,
                n == orig_s.len(),
                0 <= i <= n,
                mixed.wf(),
                passthrough_run(mixed@, orig_s.skip(i as int), rules_view(rules@))
                    == passthrough_run(
                    Seq::<((Time, Channel), Play)>::empty(),
                    orig_s,
                    rules_view(rules@),
                ),
            decreases n - i,
        {
            let e = *self.0.entry(i);
            proof {
                assert(orig_s.skip(i as int)[0] == orig_s[i as int]);
                assert(orig_s.skip(i as int).drop_first() =~= orig_s.skip(i as int + 1));
            }
            if !is_declared(rules, e.0.1) {
                mixed.insert(e.0.0, e.0.1, e.1);
            }
            i += 1;
        }
        proof {
            assert(orig_s.skip(n as int) =~= Seq::<((Time, Channel), Play)>::empty());
        }
        let ghost base = mixed@;
        let rn = rules.len();
        let mut k: usize = 0;
        proof {
            assert(rules_view(rules@).skip(0) =~= rules_view(rules@));
        }
        while k < rn
            invariant
                self.0@ == orig_s,
                rn == rules@.len(),
                0 <= k <= rn,
                unit > 0,
                bounded_plays(orig_s),
                self.0.wf(),
                mixed.wf(),
                rules_run(mixed@, orig_s, unit, rules_view(rules@).skip(k as int)) == rules_run(
                    base,
                    orig_s,
                    unit,
                    rules_view(rules@),
                ),
            decreases rn - k,
        {
            proof {
                assert(rules_view(rules@).skip(k as int)[0] == rules_view(rules@)[k as int]);
                assert(rules_view(rules@)[k as int] == (rules@[k as int].0, rules@[k as int].1@));
                assert(rules_view(rules@).skip(k as int).drop_first() =~= rules_view(
                    rules@,
                ).skip(k as int + 1));
            }
            let dest = rules[k].0;
            mix(&mut mixed, &self.0, unit, dest, &rules[k].1);
            k += 1;
        }
        proof {
            assert(rules_view(rules@).skip(rn as int) =~= Seq::<(u8, Seq<u8>)>::empty());
        }
        Tempoed(mixed)
    }
}

/// Activating keeps every member's span bounded: the set gains only plays
/// from the bounded sources.
proof fn lemma_ins_elems(on0: Seq<Play>, srcs: Seq<Play>, idx: int, at: Time, on2: Seq<Play>, q: int)
    requires
        0 <= idx < srcs.len(),
        srcs[idx].at + srcs[idx].len <= u64::MAX,
        forall|r: int| 0 <= r < on0.len() ==> (#[trigger] on0[r]).at + on0[r].len <= u64::MAX,
        on2 == ins_by_ch(on0, srcs[idx]),
        0 <= q < on2.len(),
    ensures
        on2[q].at + on2[q].len <= u64::MAX,
    decreases on0.len(),
{
    let p = srcs[idx];
    if on0.len() == 0 {
    } else if on0[0].ch > p.ch {
        assert(on2 == seq![p] + on0);
        if q > 0 {
            assert(on2[q] == on0[q - 1]);
        }
    } else {
        assert(on2 == seq![on0[0]] + ins_by_ch(on0.drop_first(), p));
        if q > 0 {
            assert forall|r: int| 0 <= r < on0.drop_first().len() implies (#[trigger] on0.drop_first()[r]).at
                + on0.drop_first()[r].len <= u64::MAX by {
                assert(on0.drop_first()[r] == on0[r + 1]);
            }
            lemma_ins_elems(on0.drop_first(), srcs, idx, at, ins_by_ch(on0.drop_first(), p), q - 1);
        }
    }
}

} // verus!
