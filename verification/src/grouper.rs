use vstd::prelude::*;

use crate::slots::Slots;
use crate::slots::lemma_del_index;
use crate::slots::lemma_put_after_del;
use crate::slots::lemma_put_index;
use crate::slots::lemma_slot_pos;
use crate::slots::slot_pos;
use crate::slots::slots_has;
use crate::slots::slots_sorted;
use crate::slots::spec_del;
use crate::slots::spec_get;
use crate::slots::spec_put;
use crate::tempo::Tempoed;
use crate::timeline::Timeline;
use crate::timeline::key_lt;
use crate::timeline::lemma_insert_index;
use crate::timeline::lemma_slot_for;
use crate::timeline::slot_for;
use crate::timeline::spec_insert;
use crate::Channel;
use crate::Note;
use crate::Play;
use crate::PlaySet;
use crate::plays_apart;
use crate::Time;

verus! {

/// What a `PlaySet` holds, for specification: the batch's channel, start,
/// total length, and plays.
pub ghost struct SetView {
    pub ch: Channel,
    pub at: Time,
    pub len: Time,
    pub plays: Seq<Play>,
}

impl View for PlaySet {
    type V = SetView;

    open spec fn view(&self) -> SetView {
        SetView { ch: self.ch, at: self.at, len: self.len, plays: self.plays@ }
    }
}

/// Accumulator tables and batch timelines, seen through `SetView`.
pub open spec fn slots_view(s: Seq<(u8, PlaySet)>) -> Seq<(u8, SetView)> {
    s.map_values(|e: (u8, PlaySet)| (e.0, e.1@))
}

pub open spec fn sets_view(s: Seq<((Time, Channel), PlaySet)>) -> Seq<((Time, Channel), SetView)> {
    s.map_values(|e: ((Time, Channel), PlaySet)| (e.0, e.1@))
}

/// The grouper's running state: one open accumulator per active channel,
/// and the batches already flushed.
pub ghost struct GroupState {
    pub chs: Seq<(u8, SetView)>,
    pub merged: Seq<((Time, Channel), SetView)>,
}

/// An accumulator opened at `at` on channel `ch`, holding nothing yet.
pub open spec fn fresh_set(ch: Channel, at: Time) -> SetView {
    SetView { ch, at, len: 0, plays: Seq::empty() }
}

/// One more play appended to a batch; the batch length grows with it.
pub open spec fn push_op(s: SetView, at: Time, len: Time, note: Note) -> SetView {
    SetView {
        ch: s.ch,
        at: s.at,
        len: (s.len + len) as Time,
        plays: s.plays.push(Play { ch: s.ch, at, len, note }),
    }
}

/// One hardware-sized op lands on its channel's accumulator: a gap longer
/// than `maxlen` flushes the accumulator first; a shorter gap is bridged
/// with one silence op; and a batch grown to `size` ops flushes at once.
pub open spec fn op_step(
    st: GroupState,
    ch: Channel,
    op_at: Time,
    len: Time,
    note: Note,
    size: int,
    maxlen: Time,
) -> GroupState {
    let got = spec_get(st.chs, ch);
    let staged = match got {
        None => (st.merged, fresh_set(ch, op_at)),
        Some(s) => {
            let end = s.at + s.len;
            if op_at > end {
                if op_at - end > maxlen {
                    (spec_insert(st.merged, ((s.at, s.ch)), s), fresh_set(ch, op_at))
                } else {
                    let filled = push_op(s, end as Time, (op_at - end) as Time, Note::NoSound);
                    if filled.plays.len() == size {
                        (
                            spec_insert(st.merged, ((filled.at, filled.ch)), filled),
                            fresh_set(ch, op_at),
                        )
                    } else {
                        (st.merged, filled)
                    }
                }
            } else {
                (st.merged, s)
            }
        },
    };
    let acc = push_op(staged.1, op_at, len, note);
    if acc.plays.len() == size {
        GroupState { chs: spec_del(st.chs, ch), merged: spec_insert(staged.0, ((acc.at, acc.ch)), acc) }
    } else {
        GroupState { chs: spec_put(st.chs, ch, acc), merged: staged.0 }
    }
}

/// A play split into consecutive ops of at most `maxlen` ms each.
pub open spec fn split_steps(
    st: GroupState,
    ch: Channel,
    op_at: Time,
    rem: Time,
    note: Note,
    size: int,
    maxlen: Time,
) -> GroupState
    decreases rem,
{
    if rem <= 0 || maxlen <= 0 {
        st
    } else {
        let l: Time = if rem < maxlen {
            rem
        } else {
            maxlen
        };
        split_steps(
            op_step(st, ch, op_at, l, note, size, maxlen),
            ch,
            (op_at + l) as Time,
            (rem - l) as Time,
            note,
            size,
            maxlen,
        )
    }
}

pub open spec fn group_run(
    st: GroupState,
    plays: Seq<((Time, Channel), Play)>,
    size: int,
    maxlen: Time,
) -> GroupState
    decreases plays.len(),
{
    if plays.len() == 0 {
        st
    } else {
        let p = plays[0].1;
        group_run(
            split_steps(st, p.ch, p.at, p.len, p.note, size, maxlen),
            plays.drop_first(),
            size,
            maxlen,
        )
    }
}

/// Every accumulator still open at end of stream is flushed, lowest
/// channel first.
pub open spec fn flush_all(
    merged: Seq<((Time, Channel), SetView)>,
    chs: Seq<(u8, SetView)>,
) -> Seq<((Time, Channel), SetView)>
    decreases chs.len(),
{
    if chs.len() == 0 {
        merged
    } else {
        flush_all(spec_insert(merged, ((chs[0].1.at, chs[0].1.ch)), chs[0].1), chs.drop_first())
    }
}

/// What the grouper produces from ordered plays: per channel, batches of
/// back-to-back ops, each op at most `maxlen` ms, each batch at most
/// `size` ops, short gaps bridged with silence and long gaps starting a
/// fresh batch.
pub open spec fn spec_merged(
    plays: Seq<((Time, Channel), Play)>,
    size: int,
    maxlen: Time,
) -> Seq<((Time, Channel), SetView)> {
    let f = group_run(
        GroupState { chs: Seq::empty(), merged: Seq::empty() },
        plays,
        size,
        maxlen,
    );
    flush_all(f.merged, f.chs)
}

/// A batch fit for transmission: between one and `size` ops, each lasting
/// one millisecond to `maxlen`, the batch length their exact sum.
pub open spec fn set_ok(v: SetView, size: int, maxlen: Time) -> bool {
    &&& 1 <= v.plays.len() <= size
    &&& v.len as int == lens_sum(v.plays)
    &&& forall|i: int| 0 <= i < v.plays.len() ==> 1 <= (#[trigger] v.plays[i]).len <= maxlen
}

/// An accumulator still open also has room for at least one more op.
pub open spec fn acc_ok(v: SetView, size: int, maxlen: Time) -> bool {
    set_ok(v, size, maxlen) && v.plays.len() < size
}

/// The summed lengths of a run of ops.
pub open spec fn lens_sum(ops: Seq<Play>) -> int
    decreases ops.len(),
{
    if ops.len() == 0 {
        0
    } else {
        lens_sum(ops.drop_last()) + ops.last().len
    }
}

/// A batch the grouper itself could have produced: ops of one channel,
/// each between one millisecond and the op limit, back to back from `at0`,
/// and no more of them than a batch may hold.
pub open spec fn batch_wf(
    ops: Seq<Play>,
    c: Channel,
    at0: Time,
    size: int,
    maxlen: Time,
) -> bool {
    &&& 0 < ops.len() <= size
    &&& forall|i: int| 0 <= i < ops.len() ==> (#[trigger] ops[i]).ch == c
    &&& forall|i: int| 0 <= i < ops.len() ==> 1 <= (#[trigger] ops[i]).len <= maxlen
    &&& forall|i: int|
        0 <= i < ops.len() ==> (#[trigger] ops[i]).at == at0 + lens_sum(ops.take(i))
    &&& at0 + lens_sum(ops) <= u64::MAX
}

/// The ops of a batch laid out as a timeline of plays.
pub open spec fn ops_timeline(ops: Seq<Play>) -> Seq<((Time, Channel), Play)> {
    ops.map_values(|p: Play| ((p.at, p.ch), p))
}

/// The batch itself, as the grouper's output states it.
pub open spec fn batch_view(ops: Seq<Play>, c: Channel, at0: Time) -> SetView {
    SetView { ch: c, at: at0, len: lens_sum(ops) as Time, plays: ops }
}

proof fn lemma_lens_nonneg(ops: Seq<Play>)
    ensures
        lens_sum(ops) >= 0,
    decreases ops.len(),
{
    if ops.len() > 0 {
        lemma_lens_nonneg(ops.drop_last());
    }
}

proof fn lemma_lens_grow(ops: Seq<Play>)
    ensures
        forall|m: int| 0 <= m < ops.len() ==> lens_sum(ops.take(m)) + (#[trigger] ops[m]).len
            == lens_sum(ops.take(m + 1)),
{
    assert forall|m: int| 0 <= m < ops.len() implies lens_sum(ops.take(m)) + (#[trigger] ops[m]).len
        == lens_sum(ops.take(m + 1)) by {
        assert(ops.take(m + 1).drop_last() =~= ops.take(m));
        assert(ops.take(m + 1).last() == ops[m]);
    }
}

/// Appending one op adds its length to the sum.
proof fn lemma_lens_push(p: Seq<Play>, x: Play)
    ensures
        lens_sum(p.push(x)) == lens_sum(p) + x.len,
{
    assert(p.push(x).drop_last() =~= p);
    assert(p.push(x).last() == x);
}

/// Every key of `m` is below `k`: new batches land at the end.
pub open spec fn keys_below(m: Seq<((Time, Channel), SetView)>, k: (Time, Channel)) -> bool {
    forall|i: int| 0 <= i < m.len() ==> key_lt((#[trigger] m[i]).0, k)
}

/// Inserting behind every present key appends.
proof fn lemma_insert_at_end(m: Seq<((Time, Channel), SetView)>, k: (Time, Channel), v: SetView)
    requires
        keys_below(m, k),
    ensures
        spec_insert(m, k, v) == m.push((k, v)),
{
    lemma_slot_for(m, k);
    if slot_for(m, k) < m.len() {
        assert(key_lt(k, m[slot_for(m, k)].0));
        assert(key_lt(m[slot_for(m, k)].0, k));
        assert(false);
    }
    assert(m.insert(m.len() as int, (k, v)) =~= m.push((k, v)));
}

/// Grouping the ops of one well-formed batch, over batches already
/// flushed, keeps the flushed ones and ends with this one open or - when
/// it holds exactly `size` ops - flushed after them.
spec fn batch_state(
    ops: Seq<Play>,
    c: Channel,
    at0: Time,
    i: int,
    m0: Seq<((Time, Channel), SetView)>,
) -> GroupState {
    GroupState {
        chs: seq![
            (c, SetView { ch: c, at: at0, len: lens_sum(ops.take(i)) as Time, plays: ops.take(i) }),
        ],
        merged: m0,
    }
}

spec fn batch_target(
    ops: Seq<Play>,
    c: Channel,
    at0: Time,
    size: int,
    m0: Seq<((Time, Channel), SetView)>,
) -> GroupState {
    if ops.len() == size {
        GroupState { chs: Seq::empty(), merged: m0.push(((at0, c), batch_view(ops, c, at0))) }
    } else {
        GroupState { chs: seq![(c, batch_view(ops, c, at0))], merged: m0 }
    }
}

/// One batch op lands on the open accumulator without gap or split.
proof fn lemma_batch_step(
    ops: Seq<Play>,
    c: Channel,
    at0: Time,
    size: int,
    maxlen: Time,
    i: int,
    m0: Seq<((Time, Channel), SetView)>,
)
    requires
        maxlen >= 1,
        batch_wf(ops, c, at0, size, maxlen),
        keys_below(m0, (at0, c)),
        1 <= i < ops.len(),
    ensures
        split_steps(
            batch_state(ops, c, at0, i, m0),
            c,
            ops[i].at,
            ops[i].len,
            ops[i].note,
            size,
            maxlen,
        ) == (if i + 1 == size {
            GroupState {
                chs: Seq::empty(),
                merged: m0.push(((at0, c), batch_view(ops.take(i + 1), c, at0))),
            }
        } else {
            batch_state(ops, c, at0, i + 1, m0)
        }),
{
    let st = batch_state(ops, c, at0, i, m0);
    let partial = st.chs[0].1;
    lemma_lens_grow(ops);
    lemma_lens_nonneg(ops.take(i));
    assert(lens_sum(ops.take(i)) + ops[i].len == lens_sum(ops.take(i + 1)));
    assert(lens_sum(ops.take(i + 1)) <= lens_sum(ops)) by {
        lemma_batch_prefix(ops, i + 1);
    }
    // the accumulator is found under its channel
    assert(slot_pos(st.chs, c) == 0);
    assert(slots_has(st.chs, c));
    assert(spec_get(st.chs, c) == Some(partial));
    // the op starts exactly where the accumulator ends
    assert(partial.at + partial.len == ops[i].at);
    let acc = push_op(partial, ops[i].at, ops[i].len, ops[i].note);
    assert(acc.plays =~= ops.take(i + 1)) by {
        assert(ops.take(i + 1).drop_last() =~= ops.take(i));
        assert(ops.take(i + 1).last() == ops[i]);
        assert((Play { ch: partial.ch, at: ops[i].at, len: ops[i].len, note: ops[i].note })
            == ops[i]);
    }
    assert(acc == (SetView {
        ch: c,
        at: at0,
        len: lens_sum(ops.take(i + 1)) as Time,
        plays: ops.take(i + 1),
    }));
    // one op_step, then the split loop is done
    assert(ops[i].len <= maxlen);
    let st2 = op_step(st, c, ops[i].at, ops[i].len, ops[i].note, size, maxlen);
    if i + 1 == size {
        assert(spec_del(st.chs, c) =~= Seq::<(u8, SetView)>::empty());
        lemma_insert_at_end(m0, (at0, c), acc);
    } else {
        assert(spec_put(st.chs, c, acc) =~= seq![(c, acc)]);
    }
    assert(split_steps(
        st2,
        c,
        (ops[i].at + ops[i].len) as Time,
        (ops[i].len - ops[i].len) as Time,
        ops[i].note,
        size,
        maxlen,
    ) == st2);
}

proof fn lemma_batch_prefix(ops: Seq<Play>, i: int)
    requires
        0 <= i <= ops.len(),
        forall|m: int| 0 <= m < ops.len() ==> 1 <= (#[trigger] ops[m]).len,
    ensures
        lens_sum(ops.take(i)) <= lens_sum(ops),
    decreases ops.len() - i,
{
    if i < ops.len() {
        assert(ops.take(i + 1).drop_last() =~= ops.take(i));
        assert(ops.take(i + 1).last() == ops[i]);
        lemma_batch_prefix(ops, i + 1);
    } else {
        assert(ops.take(i) =~= ops);
    }
}

/// The first op of a batch opens a fresh accumulator; an accumulator
/// still open from the batch before - which then stands more than
/// `maxlen` ms back - is flushed behind the batches already flushed.
proof fn lemma_batch_first(
    ops: Seq<Play>,
    c: Channel,
    at0: Time,
    size: int,
    maxlen: Time,
    chs0: Seq<(u8, SetView)>,
    m0: Seq<((Time, Channel), SetView)>,
) -> (st: GroupState)
    requires
        maxlen >= 1,
        batch_wf(ops, c, at0, size, maxlen),
        keys_below(m0, (at0, c)),
        chs0.len() <= 1,
        chs0.len() == 1 ==> chs0[0].0 == c && chs0[0].1.ch == c && keys_below(
            m0,
            (chs0[0].1.at, c),
        ) && chs0[0].1.at + chs0[0].1.len + maxlen < at0,
    ensures
        st == (if 1 == size {
            GroupState {
                chs: Seq::empty(),
                merged: flushed_front(chs0, m0).push(((at0, c), batch_view(ops.take(1), c, at0))),
            }
        } else {
            batch_state(ops, c, at0, 1, flushed_front(chs0, m0))
        }),
        split_steps(
            (GroupState { chs: chs0, merged: m0 }),
            c,
            ops[0].at,
            ops[0].len,
            ops[0].note,
            size,
            maxlen,
        ) == st,
{
    let init = GroupState { chs: chs0, merged: m0 };
    let m1 = flushed_front(chs0, m0);
    lemma_lens_grow(ops);
    assert(ops.take(0) =~= Seq::<Play>::empty());
    assert(ops[0].at == at0);
    if chs0.len() == 0 {
        assert(spec_get(chs0, c) is None);
        assert(spec_del(chs0, c) =~= Seq::<(u8, SetView)>::empty());
    } else {
        assert(slot_pos(chs0, c) == 0);
        assert(slots_has(chs0, c));
        assert(spec_get(chs0, c) == Some(chs0[0].1));
        // the old accumulator ends too far back: it is flushed whole
        assert(at0 > chs0[0].1.at + chs0[0].1.len);
        assert(at0 - (chs0[0].1.at + chs0[0].1.len) > maxlen);
        lemma_insert_at_end(m0, (chs0[0].1.at, c), chs0[0].1);
        assert(spec_del(chs0, c) =~= Seq::<(u8, SetView)>::empty());
    }
    let acc = push_op(fresh_set(c, at0), ops[0].at, ops[0].len, ops[0].note);
    assert(acc.plays =~= ops.take(1)) by {
        assert(ops.take(1).drop_last() =~= Seq::<Play>::empty());
        assert(ops.take(1).last() == ops[0]);
        assert((Play { ch: c, at: ops[0].at, len: ops[0].len, note: ops[0].note }) == ops[0]);
    }
    assert(lens_sum(ops.take(1)) == ops[0].len);
    assert(acc == (SetView {
        ch: c,
        at: at0,
        len: lens_sum(ops.take(1)) as Time,
        plays: ops.take(1),
    }));
    lemma_lens_nonneg(ops.take(1));
    let st2 = op_step(init, c, ops[0].at, ops[0].len, ops[0].note, size, maxlen);
    if 1 == size {
        lemma_insert_at_end(m1, (at0, c), acc);
    } else {
        if chs0.len() == 0 {
            assert(spec_put(chs0, c, acc) =~= seq![(c, acc)]);
        } else {
            assert(spec_put(chs0, c, acc) =~= seq![(c, acc)]);
        }
    }
    assert(split_steps(
        st2,
        c,
        (ops[0].at + ops[0].len) as Time,
        (ops[0].len - ops[0].len) as Time,
        ops[0].note,
        size,
        maxlen,
    ) == st2);
    st2
}

/// What a gap flush leaves behind: the open accumulator, if any, joins
/// the flushed batches.
spec fn flushed_front(
    chs0: Seq<(u8, SetView)>,
    m0: Seq<((Time, Channel), SetView)>,
) -> Seq<((Time, Channel), SetView)> {
    if chs0.len() == 0 {
        m0
    } else {
        m0.push(((chs0[0].1.at, chs0[0].1.ch), chs0[0].1))
    }
}

/// The ops from the second on, one after another.
proof fn lemma_batch_rest(
    ops: Seq<Play>,
    c: Channel,
    at0: Time,
    size: int,
    maxlen: Time,
    i: int,
    m0: Seq<((Time, Channel), SetView)>,
)
    requires
        maxlen >= 1,
        batch_wf(ops, c, at0, size, maxlen),
        keys_below(m0, (at0, c)),
        1 <= i < ops.len(),
    ensures
        group_run(
            batch_state(ops, c, at0, i, m0),
            ops_timeline(ops).skip(i),
            size,
            maxlen,
        ) == batch_target(ops, c, at0, size, m0),
    decreases ops.len() - i,
{
    let tl = ops_timeline(ops);
    assert(tl.skip(i)[0] == tl[i]);
    assert(tl[i] == ((ops[i].at, ops[i].ch), ops[i]));
    assert(tl.skip(i).drop_first() =~= tl.skip(i + 1));
    assert(ops[i].ch == c);
    lemma_batch_step(ops, c, at0, size, maxlen, i, m0);
    let st2 = if i + 1 == size {
        GroupState {
            chs: Seq::empty(),
            merged: m0.push(((at0, c), batch_view(ops.take(i + 1), c, at0))),
        }
    } else {
        batch_state(ops, c, at0, i + 1, m0)
    };
    assert(group_run(batch_state(ops, c, at0, i, m0), tl.skip(i), size, maxlen) == group_run(
        st2,
        tl.skip(i + 1),
        size,
        maxlen,
    ));
    if i + 1 == ops.len() {
        assert(tl.skip(i + 1) =~= Seq::<((Time, Channel), Play)>::empty());
        assert(group_run(st2, tl.skip(i + 1), size, maxlen) == st2);
        assert(ops.take(i + 1) =~= ops);
        assert(st2 == batch_target(ops, c, at0, size, m0));
    } else {
        assert(i + 1 < size);
        lemma_batch_rest(ops, c, at0, size, maxlen, i + 1, m0);
    }
}

/// One whole batch processed, from a batch boundary to the next.
proof fn lemma_batch_whole(
    ops: Seq<Play>,
    c: Channel,
    at0: Time,
    size: int,
    maxlen: Time,
    chs0: Seq<(u8, SetView)>,
    m0: Seq<((Time, Channel), SetView)>,
)
    requires
        maxlen >= 1,
        batch_wf(ops, c, at0, size, maxlen),
        keys_below(m0, (at0, c)),
        chs0.len() <= 1,
        chs0.len() == 1 ==> chs0[0].0 == c && chs0[0].1.ch == c && keys_below(
            m0,
            (chs0[0].1.at, c),
        ) && chs0[0].1.at + chs0[0].1.len + maxlen < at0,
    ensures
        group_run((GroupState { chs: chs0, merged: m0 }), ops_timeline(ops), size, maxlen)
            == batch_target(ops, c, at0, size, flushed_front(chs0, m0)),
{
    let tl = ops_timeline(ops);
    let m1 = flushed_front(chs0, m0);
    assert(tl.len() == ops.len());
    assert(tl[0] == ((ops[0].at, ops[0].ch), ops[0]));
    assert(tl.drop_first() =~= tl.skip(1));
    assert(ops[0].ch == c);
    assert(keys_below(m1, (at0, c))) by {
        if chs0.len() == 1 {
            assert forall|q: int| 0 <= q < m1.len() implies key_lt(
                (#[trigger] m1[q]).0,
                (at0, c),
            ) by {
                if q < m0.len() {
                    assert(m1[q] == m0[q]);
                } else {
                    assert(m1[q] == ((chs0[0].1.at, chs0[0].1.ch), chs0[0].1));
                }
            }
        }
    }
    let st1 = lemma_batch_first(ops, c, at0, size, maxlen, chs0, m0);
    assert(group_run((GroupState { chs: chs0, merged: m0 }), tl, size, maxlen) == group_run(
        st1,
        tl.skip(1),
        size,
        maxlen,
    ));
    if ops.len() == 1 {
        assert(tl.skip(1) =~= Seq::<((Time, Channel), Play)>::empty());
        assert(ops.take(1) =~= ops);
        assert(st1 == batch_target(ops, c, at0, size, m1));
    } else {
        lemma_batch_rest(ops, c, at0, size, maxlen, 1, m1);
    }
}

/// Grouping the ops of one well-formed batch returns exactly that batch:
/// with nothing to split, no gap to bridge and the op count within the
/// batch limit, re-grouping already-grouped output changes nothing.
pub proof fn lemma_regroup_batch(ops: Seq<Play>, c: Channel, at0: Time, size: int, maxlen: Time)
    requires
        maxlen >= 1,
        batch_wf(ops, c, at0, size, maxlen),
    ensures
        spec_merged(ops_timeline(ops), size, maxlen) == seq![
            ((at0, c), batch_view(ops, c, at0)),
        ],
{
    lemma_batch_whole(ops, c, at0, size, maxlen, Seq::empty(), Seq::empty());
    lemma_flush_target(ops, c, at0, size, Seq::empty());
    assert(Seq::<((Time, Channel), SetView)>::empty().push(((at0, c), batch_view(ops, c, at0)))
        =~= seq![((at0, c), batch_view(ops, c, at0))]);
}

/// Flushing after the last batch puts it behind the flushed ones.
proof fn lemma_flush_target(
    ops: Seq<Play>,
    c: Channel,
    at0: Time,
    size: int,
    m0: Seq<((Time, Channel), SetView)>,
)
    requires
        keys_below(m0, (at0, c)),
    ensures
        flush_all(
            batch_target(ops, c, at0, size, m0).merged,
            batch_target(ops, c, at0, size, m0).chs,
        ) == m0.push(((at0, c), batch_view(ops, c, at0))),
{
    let st = batch_target(ops, c, at0, size, m0);
    if ops.len() == size {
        assert(flush_all(st.merged, st.chs) == st.merged);
    } else {
        assert(st.chs.drop_first() =~= Seq::<(u8, SetView)>::empty());
        lemma_insert_at_end(m0, (at0, c), batch_view(ops, c, at0));
        assert(flush_all(st.merged, st.chs) == flush_all(
            m0.push(((at0, c), batch_view(ops, c, at0))),
            st.chs.drop_first(),
        ));
    }
}

/// A channel's stream of batches, each starting at its first op.
pub open spec fn bstart(b: Seq<Play>) -> Time {
    b[0].at
}

pub open spec fn bend(b: Seq<Play>) -> int {
    bstart(b) + lens_sum(b)
}

/// A well-formed chain of batches on one channel: every batch well formed
/// in itself; after a partly filled batch the next starts more than
/// `maxlen` ms past its end (an unfillable gap), and after an exactly
/// full batch it merely starts later.
pub open spec fn chain_wf(bs: Seq<Seq<Play>>, c: Channel, size: int, maxlen: Time) -> bool {
    &&& forall|k: int|
        0 <= k < bs.len() ==> batch_wf(#[trigger] bs[k], c, bstart(bs[k]), size, maxlen)
    &&& forall|k: int|
        0 <= k < bs.len() - 1 ==> (if (#[trigger] bs[k]).len() == size {
            bstart(bs[k]) < bstart(bs[k + 1])
        } else {
            bend(bs[k]) + maxlen < bstart(bs[k + 1])
        })
}

/// The chain's ops, batch after batch, as one timeline.
pub open spec fn chain_timeline(bs: Seq<Seq<Play>>) -> Seq<((Time, Channel), Play)>
    decreases bs.len(),
{
    if bs.len() == 0 {
        Seq::empty()
    } else {
        ops_timeline(bs[0]) + chain_timeline(bs.drop_first())
    }
}

/// The chain itself, as the grouper's output states it.
pub open spec fn chain_out(bs: Seq<Seq<Play>>, c: Channel) -> Seq<((Time, Channel), SetView)>
    decreases bs.len(),
{
    if bs.len() == 0 {
        Seq::empty()
    } else {
        chain_out(bs.drop_last(), c).push(
            ((bstart(bs.last()), c), batch_view(bs.last(), c, bstart(bs.last()))),
        )
    }
}

/// Batch starts rise along the chain.
proof fn lemma_chain_starts(bs: Seq<Seq<Play>>, c: Channel, size: int, maxlen: Time, j: int, k: int)
    requires
        chain_wf(bs, c, size, maxlen),
        0 <= j < k < bs.len(),
    ensures
        bstart(bs[j]) < bstart(bs[k]),
    decreases k - j,
{
    lemma_lens_nonneg(bs[j]);
    if j + 1 < k {
        lemma_chain_starts(bs, c, size, maxlen, j + 1, k);
    }
}

/// A run split at any point is the run of the first part continued over
/// the second.
proof fn lemma_group_run_concat(
    st: GroupState,
    a: Seq<((Time, Channel), Play)>,
    b: Seq<((Time, Channel), Play)>,
    size: int,
    maxlen: Time,
)
    ensures
        group_run(st, a + b, size, maxlen) == group_run(group_run(st, a, size, maxlen), b, size, maxlen),
    decreases a.len(),
{
    if a.len() == 0 {
        assert(a + b =~= b);
    } else {
        assert((a + b)[0] == a[0]);
        assert((a + b).drop_first() =~= a.drop_first() + b);
        lemma_group_run_concat(
            split_steps(st, a[0].1.ch, a[0].1.at, a[0].1.len, a[0].1.note, size, maxlen),
            a.drop_first(),
            b,
            size,
            maxlen,
        );
    }
}

/// The boundary state before batch `k` of the chain is processed.
spec fn chain_state(bs: Seq<Seq<Play>>, c: Channel, size: int, k: int) -> GroupState {
    if k == 0 {
        GroupState { chs: Seq::empty(), merged: Seq::empty() }
    } else if bs[k - 1].len() == size {
        GroupState { chs: Seq::empty(), merged: chain_out(bs.take(k), c) }
    } else {
        GroupState {
            chs: seq![(c, batch_view(bs[k - 1], c, bstart(bs[k - 1])))],
            merged: chain_out(bs.take(k - 1), c),
        }
    }
}

/// From each batch boundary the rest of the chain groups to the whole.
#[verifier::rlimit(100)]
proof fn lemma_chain_run(bs: Seq<Seq<Play>>, c: Channel, size: int, maxlen: Time, k: int)
    requires
        maxlen >= 1,
        chain_wf(bs, c, size, maxlen),
        0 <= k < bs.len(),
    ensures
        group_run(chain_state(bs, c, size, k), chain_timeline(bs.skip(k)), size, maxlen)
            == chain_state(bs, c, size, bs.len() as int),
    decreases bs.len() - k,
{
    let st = chain_state(bs, c, size, k);
    let ops = bs[k];
    let at0 = bstart(ops);
    assert(batch_wf(ops, c, at0, size, maxlen));
    // the flushed batches all sit before this one
    assert(keys_below(st.merged, (at0, c))) by {
        lemma_chain_keys(bs, c, size, maxlen, k);
    }
    // a still-open accumulator sits an unfillable gap back
    if k > 0 && bs[k - 1].len() != size {
        assert(bend(bs[k - 1]) + maxlen < bstart(bs[k]));
        assert(keys_below(st.merged, (bstart(bs[k - 1]), c))) by {
            lemma_chain_keys(bs, c, size, maxlen, k - 1);
            assert(bs.take(k - 1) =~= bs.take(k).take(k - 1));
        }
        // the open accumulator's recorded length is its ops' length
        assert(batch_wf(bs[k - 1], c, bstart(bs[k - 1]), size, maxlen));
        lemma_lens_nonneg(bs[k - 1]);
        assert(st.chs[0].1.len as int == lens_sum(bs[k - 1]));
        assert(st.chs[0].1.at + st.chs[0].1.len + maxlen < at0);
    }
    assert(chain_timeline(bs.skip(k)) =~= ops_timeline(ops) + chain_timeline(bs.skip(k + 1)))
        by {
        assert(bs.skip(k)[0] == bs[k]);
        assert(bs.skip(k).drop_first() =~= bs.skip(k + 1));
    }
    lemma_group_run_concat(st, ops_timeline(ops), chain_timeline(bs.skip(k + 1)), size, maxlen);
    lemma_batch_whole(ops, c, at0, size, maxlen, st.chs, st.merged);
    let after = batch_target(ops, c, at0, size, flushed_front(st.chs, st.merged));
    assert(after == chain_state(bs, c, size, k + 1)) by {
        lemma_chain_state_next(bs, c, size, k);
    }
    if k + 1 < bs.len() {
        lemma_chain_run(bs, c, size, maxlen, k + 1);
    } else {
        assert(chain_timeline(bs.skip(k + 1)) =~= Seq::<((Time, Channel), Play)>::empty());
        assert(bs.skip(k + 1).len() == 0);
    }
}

/// The flushed batches' keys sit before batch `k`'s start.
proof fn lemma_chain_keys(bs: Seq<Seq<Play>>, c: Channel, size: int, maxlen: Time, k: int)
    requires
        chain_wf(bs, c, size, maxlen),
        0 <= k < bs.len(),
    ensures
        keys_below(chain_state(bs, c, size, k).merged, (bstart(bs[k]), c)),
        forall|j: int|
            0 <= j < chain_out(bs.take(k), c).len() ==> key_lt(
                (#[trigger] chain_out(bs.take(k), c)[j]).0,
                (bstart(bs[k]), c),
            ),
{
    lemma_chain_out_keys(bs, c, size, maxlen, k);
    if k > 0 && bs[k - 1].len() != size {
        lemma_chain_out_keys(bs, c, size, maxlen, k - 1);
        assert forall|j: int| 0 <= j < chain_out(bs.take(k - 1), c).len() implies key_lt(
            (#[trigger] chain_out(bs.take(k - 1), c)[j]).0,
            (bstart(bs[k]), c),
        ) by {
            lemma_chain_starts(bs, c, size, maxlen, k - 1, k);
        }
    }
}

/// Every key of the first `k` flushed batches is the start of one of
/// them, which rises toward batch `k`.
proof fn lemma_chain_out_keys(bs: Seq<Seq<Play>>, c: Channel, size: int, maxlen: Time, k: int)
    requires
        chain_wf(bs, c, size, maxlen),
        0 <= k < bs.len(),
    ensures
        forall|j: int|
            0 <= j < chain_out(bs.take(k), c).len() ==> key_lt(
                (#[trigger] chain_out(bs.take(k), c)[j]).0,
                (bstart(bs[k]), c),
            ),
    decreases k,
{
    let m = chain_out(bs.take(k), c);
    if k > 0 {
        lemma_chain_out_keys(bs, c, size, maxlen, k - 1);
        assert(bs.take(k).drop_last() =~= bs.take(k - 1));
        assert(bs.take(k).last() == bs[k - 1]);
        assert forall|j: int| 0 <= j < m.len() implies key_lt(
            (#[trigger] m[j]).0,
            (bstart(bs[k]), c),
        ) by {
            if j < chain_out(bs.take(k - 1), c).len() {
                assert(m[j] == chain_out(bs.take(k - 1), c)[j]);
                lemma_chain_starts(bs, c, size, maxlen, k - 1, k);
            } else {
                assert(m[j] == ((bstart(bs[k - 1]), c), batch_view(
                    bs[k - 1],
                    c,
                    bstart(bs[k - 1]),
                )));
                lemma_chain_starts(bs, c, size, maxlen, k - 1, k);
            }
        }
    }
}

/// One batch moves the boundary state one batch on.
proof fn lemma_chain_state_next(bs: Seq<Seq<Play>>, c: Channel, size: int, k: int)
    requires
        0 <= k < bs.len(),
    ensures
        batch_target(
            bs[k],
            c,
            bstart(bs[k]),
            size,
            flushed_front(chain_state(bs, c, size, k).chs, chain_state(bs, c, size, k).merged),
        ) == chain_state(bs, c, size, k + 1),
{
    let st = chain_state(bs, c, size, k);
    let m1 = flushed_front(st.chs, st.merged);
    assert(m1 == chain_out(bs.take(k), c)) by {
        if k == 0 {
            assert(bs.take(0) =~= Seq::<Seq<Play>>::empty());
        } else if bs[k - 1].len() == size {
        } else {
            assert(bs.take(k).drop_last() =~= bs.take(k - 1));
            assert(bs.take(k).last() == bs[k - 1]);
        }
    }
    if bs[k].len() == size {
        assert(bs.take(k + 1).drop_last() =~= bs.take(k));
        assert(bs.take(k + 1).last() == bs[k]);
    }
}

/// Re-grouping a whole well-formed chain of batches on one channel
/// returns exactly that chain: grouping is idempotent on its own output
/// when no gap is fillable.
pub proof fn lemma_regroup_chain(bs: Seq<Seq<Play>>, c: Channel, size: int, maxlen: Time)
    requires
        maxlen >= 1,
        bs.len() > 0,
        chain_wf(bs, c, size, maxlen),
    ensures
        spec_merged(chain_timeline(bs), size, maxlen) == chain_out(bs, c),
{
    assert(bs.skip(0) =~= bs);
    lemma_chain_run(bs, c, size, maxlen, 0);
    let fin = chain_state(bs, c, size, bs.len() as int);
    let n = bs.len() as int;
    assert(bs.take(n) =~= bs);
    if bs[n - 1].len() == size {
        assert(flush_all(fin.merged, fin.chs) == fin.merged);
    } else {
        assert(fin.chs.drop_first() =~= Seq::<(u8, SetView)>::empty());
        assert(keys_below(chain_out(bs.take(n - 1), c), (bstart(bs[n - 1]), c))) by {
            lemma_chain_out_keys(bs, c, size, maxlen, n - 1);
        }
        lemma_insert_at_end(
            chain_out(bs.take(n - 1), c),
            (bstart(bs[n - 1]), c),
            batch_view(bs[n - 1], c, bstart(bs[n - 1])),
        );
        assert(flush_all(fin.merged, fin.chs) == flush_all(
            chain_out(bs.take(n - 1), c).push(
                ((bstart(bs[n - 1]), c), batch_view(bs[n - 1], c, bstart(bs[n - 1]))),
            ),
            fin.chs.drop_first(),
        ));
        assert(bs.take(n).drop_last() =~= bs.take(n - 1));
        assert(bs.take(n).last() == bs[n - 1]);
    }
}

/// `slot_pos` looks only at keys, which the view keeps.
proof fn lemma_view_slot_pos(s: Seq<(u8, PlaySet)>, k: u8)
    ensures
        slot_pos(slots_view(s), k) == slot_pos(s, k),
    decreases s.len(),
{
    if s.len() > 0 {
        lemma_view_slot_pos(s.drop_first(), k);
        assert(slots_view(s).drop_first() =~= slots_view(s.drop_first()));
        assert(slots_view(s)[0] == (s[0].0, s[0].1@));
    }
}

proof fn lemma_view_get(s: Seq<(u8, PlaySet)>, k: u8)
    ensures
        spec_get(slots_view(s), k) == match spec_get(s, k) {
            Some(v) => Some(v@),
            None => None::<SetView>,
        },
{
    lemma_view_slot_pos(s, k);
    lemma_slot_pos(s, k);
    assert(slots_view(s).len() == s.len());
    let j = slot_pos(s, k);
    if j < s.len() {
        assert(slots_view(s)[j] == (s[j].0, s[j].1@));
    }
}

proof fn lemma_view_put(s: Seq<(u8, PlaySet)>, k: u8, v: PlaySet)
    ensures
        slots_view(spec_put(s, k, v)) == spec_put(slots_view(s), k, v@),
{
    lemma_view_slot_pos(s, k);
    lemma_slot_pos(s, k);
    let j = slot_pos(s, k);
    if j < s.len() {
        assert(slots_view(s)[j] == (s[j].0, s[j].1@));
    }
    assert(slots_view(spec_put(s, k, v)) =~= spec_put(slots_view(s), k, v@)) by {
        let a = slots_view(spec_put(s, k, v));
        let b = spec_put(slots_view(s), k, v@);
        assert forall|p: int| 0 <= p < a.len() implies a[p] == b[p] by {
            assert(a[p] == (spec_put(s, k, v)[p].0, spec_put(s, k, v)[p].1@));
        }
    }
}

proof fn lemma_view_del(s: Seq<(u8, PlaySet)>, k: u8)
    ensures
        slots_view(spec_del(s, k)) == spec_del(slots_view(s), k),
{
    lemma_view_slot_pos(s, k);
    lemma_slot_pos(s, k);
    let j = slot_pos(s, k);
    if j < s.len() {
        assert(slots_view(s)[j] == (s[j].0, s[j].1@));
    }
    assert(slots_view(spec_del(s, k)) =~= spec_del(slots_view(s), k)) by {
        let a = slots_view(spec_del(s, k));
        let b = spec_del(slots_view(s), k);
        assert forall|p: int| 0 <= p < a.len() implies a[p] == b[p] by {
            assert(a[p] == (spec_del(s, k)[p].0, spec_del(s, k)[p].1@));
        }
    }
}

proof fn lemma_view_slot_for(s: Seq<((Time, Channel), PlaySet)>, k: (Time, Channel))
    ensures
        slot_for(sets_view(s), k) == slot_for(s, k),
    decreases s.len(),
{
    if s.len() > 0 {
        lemma_view_slot_for(s.drop_first(), k);
        assert(sets_view(s).drop_first() =~= sets_view(s.drop_first()));
        assert(sets_view(s)[0] == (s[0].0, s[0].1@));
    }
}

proof fn lemma_view_insert(s: Seq<((Time, Channel), PlaySet)>, k: (Time, Channel), v: PlaySet)
    ensures
        sets_view(spec_insert(s, k, v)) == spec_insert(sets_view(s), k, v@),
{
    lemma_view_slot_for(s, k);
    lemma_slot_for(s, k);
    assert(sets_view(spec_insert(s, k, v)) =~= spec_insert(sets_view(s), k, v@)) by {
        let a = sets_view(spec_insert(s, k, v));
        let b = spec_insert(sets_view(s), k, v@);
        assert forall|p: int| 0 <= p < a.len() implies a[p] == b[p] by {
            assert(a[p] == (spec_insert(s, k, v)[p].0, spec_insert(s, k, v)[p].1@));
        }
    }
}

/// Hardware-grouped batches, keyed by start time and channel.
pub struct Merged(pub Timeline<PlaySet>);

impl Merged {
    pub open spec fn wf(&self) -> bool {
        self.0.wf()
    }
}

/// The view keeps keys, so it keeps the table's order.
proof fn lemma_view_sorted(s: Seq<(u8, PlaySet)>)
    requires
        slots_sorted(s),
    ensures
        slots_sorted(slots_view(s)),
{
    assert forall|p: int, q: int|
        #![trigger slots_view(s)[p], slots_view(s)[q]]
        0 <= p < q < slots_view(s).len() implies slots_view(s)[p].0 < slots_view(s)[q].0 by {
        assert(slots_view(s)[p] == (s[p].0, s[p].1@));
        assert(slots_view(s)[q] == (s[q].0, s[q].1@));
        assert(s[p].0 < s[q].0);
    }
}

/// Accumulators sit under their own channel key.
pub open spec fn accs_labelled(s: Seq<(u8, PlaySet)>) -> bool {
    forall|q: int| 0 <= q < s.len() ==> (#[trigger] s[q]).0 == s[q].1.ch
}

/// Land one op on its channel's accumulator, exactly as `op_step` says;
/// batches flushed and accumulators kept stay fit for transmission.
fn op_push(
    chs: &mut Slots<PlaySet>,
    merged: &mut Timeline<PlaySet>,
    ch: Channel,
    op_at: Time,
    l: Time,
    note: Note,
    size: usize,
    maxlen: Time,
)
    requires
        old(chs).wf(),
        old(merged).wf(),
        accs_labelled(old(chs)@),
        size >= 1,
        1 <= l <= maxlen,
        op_at + l <= u64::MAX,
        forall|q: int|
            0 <= q < old(chs)@.len() ==> (#[trigger] old(chs)@[q]).1.at + old(chs)@[q].1.len
                <= u64::MAX,
        forall|q: int|
            0 <= q < old(chs)@.len() && (#[trigger] old(chs)@[q]).1.ch == ch
                ==> old(chs)@[q].1.at + old(chs)@[q].1.len <= op_at,
        forall|q: int|
            0 <= q < old(chs)@.len() ==> acc_ok((#[trigger] old(chs)@[q]).1@, size as int, maxlen),
        forall|q: int|
            0 <= q < old(merged)@.len() ==> set_ok(
                (#[trigger] old(merged)@[q]).1@,
                size as int,
                maxlen,
            ),
    ensures
        final(chs).wf(),
        final(merged).wf(),
        accs_labelled(final(chs)@),
        (GroupState { chs: slots_view(final(chs)@), merged: sets_view(final(merged)@) })
            == op_step(
            (GroupState { chs: slots_view(old(chs)@), merged: sets_view(old(merged)@) }),
            ch,
            op_at,
            l,
            note,
            size as int,
            maxlen,
        ),
        forall|q: int|
            0 <= q < final(chs)@.len() ==> (((#[trigger] final(chs)@[q]).0 == ch
                && final(chs)@[q].1.at + final(chs)@[q].1.len <= op_at + l) || (exists|q0: int|
                0 <= q0 < old(chs)@.len() && final(chs)@[q] == old(chs)@[q0])),
        forall|q: int|
            0 <= q < final(chs)@.len() ==> acc_ok(
                (#[trigger] final(chs)@[q]).1@,
                size as int,
                maxlen,
            ),
        forall|q: int|
            0 <= q < final(merged)@.len() ==> set_ok(
                (#[trigger] final(merged)@[q]).1@,
                size as int,
                maxlen,
            ),
{
    let ghost chs0 = old(chs)@;
    let ghost merged0 = old(merged)@;
    proof {
        lemma_view_get(chs0, ch);
        lemma_view_del(chs0, ch);
        lemma_view_sorted(chs0);
        lemma_slot_pos(chs0, ch);
        lemma_del_index(chs0, ch);
    }
    let mut acc: PlaySet;
    match chs.remove(ch) {
        None => {
            acc = PlaySet::new(ch, op_at);
            proof {
                assert(acc@ == fresh_set(ch, op_at));
            }
        },
        Some(s) => {
            proof {
                assert(chs0[slot_pos(chs0, ch)].0 == ch);
                assert(s.ch == ch);
                assert(s.at + s.len <= u64::MAX);
                assert(acc_ok(s@, size as int, maxlen)) by {
                    assert(s == chs0[slot_pos(chs0, ch)].1);
                }
            }
            let end = s.at + s.len;
            if op_at > end {
                if op_at - end > maxlen {
                    let sat = s.at;
                    let sch = s.ch;
                    let ghost sv = s;
                    merged.insert(sat, sch, s);
                    proof {
                        lemma_view_insert(merged0, ((sat, sch)), sv);
                        lemma_merged_elems(merged0, ((sat, sch)), sv, size as int, maxlen);
                    }
                    acc = PlaySet::new(ch, op_at);
                } else {
                    let fill_len = op_at - end;
                    let mut f = s;
                    let fch = f.ch;
                    let ghost before = f@;
                    f.len = f.len + fill_len;
                    f.plays.push(Play::new(fch, end, fill_len, Note::NoSound));
                    proof {
                        lemma_lens_push(
                            before.plays,
                            (Play { ch: fch, at: end, len: fill_len, note: Note::NoSound }),
                        );
                        assert(set_ok(f@, size as int, maxlen)) by {
                            assert forall|i: int| 0 <= i < f@.plays.len() implies 1 <= (
                            #[trigger] f@.plays[i]).len <= maxlen by {
                                if i < f@.plays.len() - 1 {
                                    assert(f@.plays[i] == before.plays[i]);
                                }
                            }
                        }
                    }
                    if f.plays.len() == size {
                        let fat = f.at;
                        let ghost fv = f;
                        merged.insert(fat, fch, f);
                        proof {
                            lemma_view_insert(merged0, ((fat, fch)), fv);
                            lemma_merged_elems(merged0, ((fat, fch)), fv, size as int, maxlen);
                        }
                        acc = PlaySet::new(ch, op_at);
                    } else {
                        acc = f;
                    }
                }
            } else {
                acc = s;
            }
        },
    }
    let ghost merged1 = merged@;
    let ghost acc1 = acc@;
    proof {
        // whatever the gap handling left: room for the op and sums intact
        assert(acc1.plays.len() < size);
        assert(acc1.len as int == lens_sum(acc1.plays));
        assert(forall|i: int|
            0 <= i < acc1.plays.len() ==> 1 <= (#[trigger] acc1.plays[i]).len <= maxlen);
        assert(forall|q: int|
            0 <= q < merged1.len() ==> set_ok((#[trigger] merged1[q]).1@, size as int, maxlen));
    }
    let ach = acc.ch;
    let aat = acc.at;
    acc.len = acc.len + l;
    acc.plays.push(Play::new(ach, op_at, l, note));
    proof {
        lemma_lens_push(acc1.plays, (Play { ch: ach, at: op_at, len: l, note }));
        assert(set_ok(acc@, size as int, maxlen)) by {
            assert forall|i: int| 0 <= i < acc@.plays.len() implies 1 <= (
            #[trigger] acc@.plays[i]).len <= maxlen by {
                if i < acc@.plays.len() - 1 {
                    assert(acc@.plays[i] == acc1.plays[i]);
                }
            }
        }
    }
    if acc.plays.len() == size {
        let ghost av = acc;
        merged.insert(aat, ach, acc);
        proof {
            lemma_view_insert(merged1, ((aat, ach)), av);
            lemma_merged_elems(merged1, ((aat, ach)), av, size as int, maxlen);
        }
    } else {
        let ghost av = acc;
        let ghost chs1 = chs@;
        chs.insert(ch, acc);
        proof {
            lemma_view_put(chs1, ch, av);
            lemma_put_after_del(slots_view(chs0), ch, av@);
            lemma_put_index(chs1, ch, av);
            assert forall|q: int| 0 <= q < chs@.len() implies acc_ok(
                (#[trigger] chs@[q]).1@,
                size as int,
                maxlen,
            ) by {
                if chs@[q] != (ch, av) {
                    let q0 = choose|q0: int| 0 <= q0 < chs1.len() && chs@[q] == chs1[q0];
                    assert(chs@[q] == chs1[q0]);
                    let q1 = choose|q1: int| 0 <= q1 < chs0.len() && chs1[q0] == chs0[q1];
                    assert(chs1[q0] == chs0[q1]);
                }
            }
        }
    }
}

/// Inserting a fit batch into a timeline of fit batches keeps them all fit.
proof fn lemma_merged_elems(
    m: Seq<((Time, Channel), PlaySet)>,
    k: (Time, Channel),
    v: PlaySet,
    size: int,
    maxlen: Time,
)
    requires
        forall|q: int| 0 <= q < m.len() ==> set_ok((#[trigger] m[q]).1@, size, maxlen),
        set_ok(v@, size, maxlen),
    ensures
        forall|q: int|
            0 <= q < spec_insert(m, k, v).len() ==> set_ok(
                (#[trigger] spec_insert(m, k, v)[q]).1@,
                size,
                maxlen,
            ),
{
    lemma_slot_for(m, k);
    lemma_insert_index(m, k, v);
    let j = slot_for(m, k);
    let t = spec_insert(m, k, v);
    assert forall|q: int| 0 <= q < t.len() implies set_ok((#[trigger] t[q]).1@, size, maxlen) by {
        if q < j {
            assert(t[q] == m[q]);
        } else if q > j {
            assert(t[q] == m[q - 1]);
        }
    }
}

impl Tempoed {
    /// Pack each channel's plays into hardware batches: every op at most
    /// `maxlen` ms, every batch at most `size` ops, a gap of up to
    /// `maxlen` ms bridged by one silence op, a longer gap flushing the
    /// open batch and starting a fresh one at the next op.
    pub fn merged(&self, size: usize, maxlen: Time) -> (r: Merged)
        requires
            self.wf(),
            size >= 1,
            maxlen >= 1,
            plays_apart(self.0@),
        ensures
            r.wf(),
            sets_view(r.0@) == spec_merged(self.0@, size as int, maxlen),
            forall|i: int|
                0 <= i < r.0@.len() ==> set_ok((#[trigger] r.0@[i]).1@, size as int, maxlen),
    {
        let ghost plays = self.0@;
        let ghost sz = size as int;
        let ghost goal = group_run(
            (GroupState { chs: Seq::empty(), merged: Seq::empty() }),
            plays,
            sz,
            maxlen,
        );
        let mut chs: Slots<PlaySet> = Slots::new();
        let mut merged: Timeline<PlaySet> = Timeline::new();
        let n = self.0.len();
        let mut i: usize = 0;
        proof {
            assert(plays.skip(0) =~= plays);
            assert(slots_view(chs@) =~= Seq::<(u8, SetView)>::empty());
            assert(sets_view(merged@) =~= Seq::<((Time, Channel), SetView)>::empty());
        }
        while i < n
            invariant
                self.0@ == plays,
                n == plays.len(),
                0 <= i <= n,
                maxlen >= 1,
                size >= 1,
                sz == size as int,
                plays_apart(plays),
                chs.wf(),
                merged.wf(),
                accs_labelled(chs@),
                forall|q: int|
                    0 <= q < chs@.len() ==> (#[trigger] chs@[q]).1.at + chs@[q].1.len
                        <= u64::MAX,
                forall|q: int|
                    0 <= q < chs@.len() ==> acc_ok((#[trigger] chs@[q]).1@, sz, maxlen),
                forall|q: int|
                    0 <= q < merged@.len() ==> set_ok((#[trigger] merged@[q]).1@, sz, maxlen),
                forall|q: int, j: int|
                    #![trigger chs@[q], plays[j]]
                    0 <= q < chs@.len() && i <= j < n && chs@[q].1.ch == plays[j].1.ch
                        ==> chs@[q].1.at + chs@[q].1.len <= plays[j].1.at,
                group_run(
                    (GroupState { chs: slots_view(chs@), merged: sets_view(merged@) }),
                    plays.skip(i as int),
                    sz,
                    maxlen,
                ) == goal,
            decreases n - i,
        {
            let e = *self.0.entry(i);
            let p = e.1;
            let mut op_at: Time = p.at;
            let mut rem: Time = p.len;
            proof {
                assert(plays.skip(i as int)[0] == plays[i as int]);
                assert(plays.skip(i as int).drop_first() =~= plays.skip(i as int + 1));
                assert(plays[i as int].1.at + plays[i as int].1.len <= u64::MAX);
            }
            while rem > 0
                invariant
                    maxlen >= 1,
                    size >= 1,
                    sz == size as int,
                    n == plays.len(),
                    0 <= i < n,
                    p == plays[i as int].1,
                    plays_apart(plays),
                    op_at + rem == p.at + p.len,
                    p.at + p.len <= u64::MAX,
                    chs.wf(),
                    merged.wf(),
                    accs_labelled(chs@),
                    forall|q: int|
                        0 <= q < chs@.len() ==> (#[trigger] chs@[q]).1.at + chs@[q].1.len
                            <= u64::MAX,
                    forall|q: int|
                        0 <= q < chs@.len() ==> acc_ok((#[trigger] chs@[q]).1@, sz, maxlen),
                    forall|q: int|
                        0 <= q < merged@.len() ==> set_ok((#[trigger] merged@[q]).1@, sz, maxlen),
                    forall|q: int|
                        0 <= q < chs@.len() && (#[trigger] chs@[q]).1.ch == p.ch
                            ==> chs@[q].1.at + chs@[q].1.len <= op_at,
                    forall|q: int, j: int|
                        #![trigger chs@[q], plays[j]]
                        0 <= q < chs@.len() && i < j < n && chs@[q].1.ch == plays[j].1.ch
                            ==> chs@[q].1.at + chs@[q].1.len <= plays[j].1.at,
                    group_run(
                        split_steps(
                            (GroupState { chs: slots_view(chs@), merged: sets_view(merged@) }),
                            p.ch,
                            op_at,
                            rem,
                            p.note,
                            sz,
                            maxlen,
                        ),
                        plays.skip(i as int + 1),
                        sz,
                        maxlen,
                    ) == goal,
                decreases rem,
            {
                let l: Time = if rem < maxlen {
                    rem
                } else {
                    maxlen
                };
                let ghost chs0 = chs@;
                op_push(&mut chs, &mut merged, p.ch, op_at, l, p.note, size, maxlen);
                proof {
                    assert forall|q: int, j: int|
                        #![trigger chs@[q], plays[j]]
                        0 <= q < chs@.len() && i < j < n && chs@[q].1.ch == plays[j].1.ch
                            implies chs@[q].1.at + chs@[q].1.len <= plays[j].1.at by {
                        if !(chs@[q].0 == p.ch && chs@[q].1.at + chs@[q].1.len <= op_at + l) {
                            let q0 = choose|q0: int|
                                0 <= q0 < chs0.len() && chs@[q] == chs0[q0];
                            assert(chs@[q] == chs0[q0]);
                        } else {
                            assert(chs@[q].1.ch == p.ch);
                            assert(op_at + l <= p.at + p.len);
                            assert(plays[i as int].1.at + plays[i as int].1.len
                                <= plays[j].1.at);
                        }
                    }
                    assert forall|q: int|
                        0 <= q < chs@.len() && (#[trigger] chs@[q]).1.ch == p.ch
                            implies chs@[q].1.at + chs@[q].1.len <= op_at + l by {
                        if !(chs@[q].0 == p.ch && chs@[q].1.at + chs@[q].1.len <= op_at + l) {
                            let q0 = choose|q0: int|
                                0 <= q0 < chs0.len() && chs@[q] == chs0[q0];
                            assert(chs@[q] == chs0[q0]);
                        }
                    }
                }
                op_at = op_at + l;
                rem = rem - l;
            }
            i += 1;
        }
        let ghost fstate = group_run(
            (GroupState { chs: Seq::empty(), merged: Seq::empty() }),
            plays,
            sz,
            maxlen,
        );
        proof {
            assert(plays.skip(n as int) =~= Seq::<((Time, Channel), Play)>::empty());
        }
        while chs.len() > 0
            invariant
                maxlen >= 1,
                size >= 1,
                sz == size as int,
                chs.wf(),
                merged.wf(),
                accs_labelled(chs@),
                forall|q: int|
                    0 <= q < chs@.len() ==> acc_ok((#[trigger] chs@[q]).1@, sz, maxlen),
                forall|q: int|
                    0 <= q < merged@.len() ==> set_ok((#[trigger] merged@[q]).1@, sz, maxlen),
                flush_all(sets_view(merged@), slots_view(chs@)) == flush_all(
                    fstate.merged,
                    fstate.chs,
                ),
            decreases chs@.len(),
        {
            let ghost chs0 = chs@;
            let ghost merged0 = merged@;
            let k = chs.entry(0).0;
            proof {
                lemma_slot_pos(chs0, k);
                assert(slot_pos(chs0, k) == 0) by {
                    if slot_pos(chs0, k) > 0 {
                        assert(chs0[0].0 < k);
                    }
                }
                lemma_view_del(chs0, k);
                lemma_view_get(chs0, k);
            }
            match chs.remove(k) {
                Some(v) => {
                    let vat = v.at;
                    let vch = v.ch;
                    let ghost vv = v;
                    proof {
                        assert(chs0[0].0 == chs0[0].1.ch);
                        assert(vch == k);
                    }
                    merged.insert(vat, vch, v);
                    proof {
                        lemma_view_insert(merged0, ((vat, vch)), vv);
                        lemma_merged_elems(merged0, ((vat, vch)), vv, sz, maxlen);
                        lemma_del_index(chs0, k);
                        assert forall|q: int| 0 <= q < chs@.len() implies acc_ok(
                            (#[trigger] chs@[q]).1@,
                            sz,
                            maxlen,
                        ) by {
                            let q0 = choose|q0: int| 0 <= q0 < chs0.len() && chs@[q] == chs0[q0];
                            assert(chs@[q] == chs0[q0]);
                        }
                        assert(spec_del(chs0, k) =~= chs0.drop_first());
                        assert(slots_view(chs0.drop_first()) =~= slots_view(chs0).drop_first());
                        assert(slots_view(chs0)[0] == (chs0[0].0, chs0[0].1@));
                    }
                },
                None => {
                    proof {
                        assert(false);
                    }
                },
            }
        }
        proof {
            assert(slots_view(chs@) =~= Seq::<(u8, SetView)>::empty());
        }
        Merged(merged)
    }
}

} // verus!
