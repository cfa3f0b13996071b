//! Filling in the spans of guide keys that no sung key was paired with:
//! hints from the guide's own line timing, even shares of a gap between two
//! known spans, and clamping so that filled spans never run backwards.

use vstd::prelude::*;
use crate::estimate::{most, least, minus};
use crate::model::{LyricsLine, LineView, line_views};
use crate::time::{Duration, MAX_NANOS, lemma_duration_bounded, rounded_share};
use crate::timing::{line_until, lemma_share_monotone};
use crate::tokens::{Slot, SlotView, slot_views};

verus! {

broadcast use lemma_duration_bounded;

/// A time span as plain values.
pub type SpanView = (nat, nat);

/// The view of a span.
pub open spec fn span_view(s: (Duration, Duration)) -> SpanView {
    (s.0@, s.1@)
}

/// The views of a sequence of spans.
pub open spec fn span_views(s: Seq<(Duration, Duration)>) -> Seq<SpanView> {
    s.map_values(|x: (Duration, Duration)| span_view(x))
}

/// The views of a sequence of optional spans.
pub open spec fn opt_span_views(s: Seq<Option<(Duration, Duration)>>) -> Seq<Option<SpanView>> {
    s.map_values(
        |x: Option<(Duration, Duration)>|
            match x {
                Some(v) => Some(span_view(v)),
                None => None,
            },
    )
}

/// The weight of the first `n` slots: their key lengths, at least one each.
pub open spec fn slot_weight(slots: Seq<SlotView>, n: int) -> nat
    decreases n,
{
    if n <= 0 {
        0
    } else {
        slot_weight(slots, n - 1) + most(slots[n - 1].1.len(), 1)
    }
}

/// The hinted spans of line `i`'s slots: the line's time shared among them
/// by weight.
pub open spec fn line_hints(guide: Seq<LineView>, slotted: Seq<Seq<SlotView>>, i: int) -> Seq<SpanView> {
    let slots = slotted[i];
    let start = guide[i].0;
    let span = minus(line_until(guide, i), start);
    let total = slot_weight(slots, slots.len() as int);
    Seq::new(
        slots.len(),
        |k: int|
            (
                start + rounded_share(span, slot_weight(slots, k), total),
                start + rounded_share(span, slot_weight(slots, k + 1), total),
            ),
    )
}

/// The hinted spans of the slots of the first `n` lines.
pub open spec fn spec_hints(guide: Seq<LineView>, slotted: Seq<Seq<SlotView>>, n: int) -> Seq<SpanView>
    decreases n,
{
    if n <= 0 {
        Seq::empty()
    } else {
        spec_hints(guide, slotted, n - 1) + line_hints(guide, slotted, n - 1)
    }
}

/// The views of each line's slots.
pub open spec fn slotted_views(slotted: Seq<Vec<Slot>>) -> Seq<Seq<SlotView>> {
    slotted.map_values(|s: Vec<Slot>| slot_views(s@))
}

pub(crate) proof fn lemma_slot_weight_monotone(slots: Seq<SlotView>, i: int, j: int)
    requires
        i <= j,
    ensures
        slot_weight(slots, i) <= slot_weight(slots, j),
        i < j && i >= 0 ==> slot_weight(slots, i) < slot_weight(slots, j),
    decreases j - i,
{
    if i < j {
        lemma_slot_weight_monotone(slots, i, j - 1);
    }
}

/// A guide line's hints share its time among its slots: the first starts at
/// the line's start, each ends where the next starts, and the last ends at
/// the line's end; without an end of its own, at the next line's start; and
/// as the last line without an end, at its start.
pub proof fn lemma_line_hints_span(guide: Seq<LineView>, slotted: Seq<Seq<SlotView>>, i: int)
    requires
        0 <= i < guide.len(),
        i < slotted.len(),
        slotted[i].len() > 0,
    ensures
        ({
            let l = guide[i];
            let h = line_hints(guide, slotted, i);
            let m = h.len();
            &&& m == slotted[i].len()
            &&& h[0].0 == l.0
            &&& forall|k: int| 0 <= k < m - 1 ==> #[trigger] h[k].1 == h[k + 1].0
            &&& forall|k: int| 0 <= k < m ==> l.0 <= #[trigger] h[k].0 <= h[k].1
            &&& (l.1 is Some && l.1->0 >= l.0) ==> h[m - 1].1 == l.1->0
            &&& (l.1 is None && i + 1 < guide.len() && guide[i + 1].0 >= l.0) ==> h[m - 1].1
                == guide[i + 1].0
            &&& (l.1 is None && i + 1 == guide.len()) ==> h[m - 1].1 == l.0
        }),
{
    let slots = slotted[i];
    let total = slot_weight(slots, slots.len() as int);
    let span = minus(line_until(guide, i), guide[i].0);
    let h = line_hints(guide, slotted, i);
    lemma_slot_weight_monotone(slots, 0, slots.len() as int);
    lemma_share_monotone(span, 0, total, total);
    crate::time::lemma_rounded_share(span, total, total, total);
    assert forall|k: int| 0 <= k < h.len() implies guide[i].0 <= #[trigger] h[k].0 <= h[k].1 by {
        lemma_slot_weight_monotone(slots, 0, k);
        lemma_slot_weight_monotone(slots, k, k + 1);
        lemma_slot_weight_monotone(slots, k + 1, slots.len() as int);
        lemma_share_monotone(span, slot_weight(slots, k), slot_weight(slots, k + 1), total);
        lemma_share_monotone(span, 0, slot_weight(slots, k), total);
    }
}

/// Hints for every slot of the guide: each line's time (until its end, else
/// the next line's start) shared among its slots by key length.
pub fn hints(guide: &Vec<LyricsLine>, slotted: &Vec<Vec<Slot>>) -> (hints: Vec<(Duration, Duration)>)
    requires
        slotted@.len() >= guide@.len(),
        forall|i: int|
            0 <= i < slotted@.len() ==> slot_weight(
                #[trigger] slotted_views(slotted@)[i],
                slotted_views(slotted@)[i].len() as int,
            ) < 0x1_0000_0000_0000_0000,
    ensures
        span_views(hints@) == spec_hints(
            line_views(guide@),
            slotted_views(slotted@),
            guide@.len() as int,
        ),
{
    let ghost lv = line_views(guide@);
    let ghost sv = slotted_views(slotted@);
    let mut hints: Vec<(Duration, Duration)> = Vec::new();
    let mut index: usize = 0;
    while index < guide.len()
        invariant
            lv == line_views(guide@),
            sv == slotted_views(slotted@),
            slotted@.len() >= guide@.len(),
            forall|i: int|
                0 <= i < slotted@.len() ==> slot_weight(#[trigger] sv[i], sv[i].len() as int)
                    < 0x1_0000_0000_0000_0000,
            index <= guide@.len(),
            span_views(hints@) == spec_hints(lv, sv, index as int),
        decreases guide@.len() - index,
    {
        let line = &guide[index];
        let slots = &slotted[index];
        let ghost ss = sv[index as int];
        assert(ss == slot_views(slots@));
        assert(slot_weight(ss, ss.len() as int) < 0x1_0000_0000_0000_0000);
        let ghost before = span_views(hints@);
        if slots.len() > 0 {
            let until = match line.end {
                Some(e) => e,
                None => if index + 1 < guide.len() {
                    guide[index + 1].start
                } else {
                    line.start
                },
            }.max(line.start);
            assert(until@ == line_until(lv, index as int));
            let span = until.saturating_sub(line.start);
            let mut total: u64 = 0;
            let mut k: usize = 0;
            while k < slots.len()
                invariant
                    ss == slot_views(slots@),
                    slot_weight(ss, ss.len() as int) < 0x1_0000_0000_0000_0000,
                    k <= slots@.len(),
                    total == slot_weight(ss, k as int),
                decreases slots@.len() - k,
            {
                proof {
                    lemma_slot_weight_monotone(ss, k + 1, ss.len() as int);
                }
                let length = crate::timing::char_count(&slots[k].key) as u64;
                total = total + if length > 1 {
                    length
                } else {
                    1
                };
                k = k + 1;
            }
            proof {
                lemma_slot_weight_monotone(ss, 0, ss.len() as int);
            }
            let mut passed: u64 = 0;
            let mut k: usize = 0;
            while k < slots.len()
                invariant
                    lv == line_views(guide@),
                    ss == slot_views(slots@),
                    ss.len() > 0,
                    index < guide@.len(),
                    line == &guide@[index as int],
                    k <= slots@.len(),
                    total == slot_weight(ss, ss.len() as int),
                    total > 0,
                    passed == slot_weight(ss, k as int),
                    span@ == minus(until@, line.start@),
                    until@ >= line.start@,
                    span_views(hints@) == before + line_hints(lv, slotted_views(slotted@), index as int).take(k as int),
                    sv == slotted_views(slotted@),
                    sv.len() >= guide@.len(),
                    sv[index as int] == ss,
                    until@ == line_until(lv, index as int),
                decreases slots@.len() - k,
            {
                let length = crate::timing::char_count(&slots[k].key) as u64;
                let weight: u64 = if length > 1 {
                    length
                } else {
                    1
                };
                proof {
                    lemma_slot_weight_monotone(ss, k + 1, ss.len() as int);
                    lemma_share_monotone(span@, passed as nat, (passed + weight) as nat, total as nat);
                }
                let from = line.start.plus(span.scaled(passed, total));
                passed = passed + weight;
                let to = line.start.plus(span.scaled(passed, total));
                assert(lv[index as int].0 == line.start@);
                assert(line_hints(lv, sv, index as int)[k as int] == (from@, to@));
                let ghost old_views = span_views(hints@);
                hints.push((from, to));
                assert(span_views(hints@) =~= old_views.push((from@, to@)));
                assert(line_hints(lv, sv, index as int).take(k + 1) =~= line_hints(
                    lv,
                    sv,
                    index as int,
                ).take(k as int).push((from@, to@)));
                k = k + 1;
                assert(span_views(hints@) =~= before + line_hints(lv, sv, index as int).take(k as int));
            }
            assert(line_hints(lv, sv, index as int).take(k as int) =~= line_hints(lv, sv, index as int));
        } else {
            assert(line_hints(lv, sv, index as int) =~= Seq::empty());
            assert(before + line_hints(lv, sv, index as int) =~= before);
        }
        index = index + 1;
    }
    hints
}

/// `count` even shares of the time from `after` to `before`, each rounded
/// to the nearest nanosecond.
pub open spec fn spec_shared(after: nat, before: nat, count: nat) -> Seq<SpanView> {
    let span = minus(before, after);
    Seq::new(
        count,
        |step: int|
            (
                after + rounded_share(span, step as nat, count),
                after + rounded_share(span, (step + 1) as nat, count),
            ),
    )
}

/// Even shares tile the time from `after` to `before`: the first starts at
/// `after`, each ends where the next starts, the last ends at `before`, and
/// each share is within two nanoseconds of the span divided by `count`.
pub proof fn lemma_shared_tiles(after: nat, before: nat, count: nat)
    requires
        count > 0,
        after <= before,
    ensures
        ({
            let r = spec_shared(after, before, count);
            &&& r.len() == count
            &&& r[0].0 == after
            &&& r[count - 1].1 == before
            &&& forall|k: int| 0 <= k < count - 1 ==> #[trigger] r[k].1 == r[k + 1].0
            &&& forall|k: int| 0 <= k < count ==> {
                &&& (#[trigger] r[k]).0 <= r[k].1
                &&& (r[k].1 - r[k].0) * count <= (before - after) + 2 * count
                &&& (r[k].1 - r[k].0) * count + 2 * count >= (before - after)
            }
        }),
{
    let span = minus(before, after);
    let r = spec_shared(after, before, count);
    crate::time::lemma_rounded_share(span, 0, count, count);
    assert forall|k: int| 0 <= k < count implies {
        &&& (#[trigger] r[k]).0 <= r[k].1
        &&& (r[k].1 - r[k].0) * count <= (before - after) + 2 * count
        &&& (r[k].1 - r[k].0) * count + 2 * count >= (before - after)
    } by {
        let a = rounded_share(span, k as nat, count);
        let b = rounded_share(span, (k + 1) as nat, count);
        crate::time::lemma_rounded_share(span, k as nat, (k + 1) as nat, count);
        lemma_rounded_near(span, k as nat, count);
        lemma_rounded_near(span, (k + 1) as nat, count);
        assert((b - a) * count <= span + 2 * count && (b - a) * count + 2 * count >= span)
            by (nonlinear_arith)
            requires
                a * count <= span * k + count,
                a * count + count >= span * k,
                b * count <= span * (k + 1) + count,
                b * count + count >= span * (k + 1),
                count > 0,
        ;
    }
}

/// A rounded share is within half a unit of the exact share.
proof fn lemma_rounded_near(span: nat, a: nat, den: nat)
    requires
        den > 0,
    ensures
        rounded_share(span, a, den) * den <= span * a + den,
        rounded_share(span, a, den) * den + den >= span * a,
{
    let q = rounded_share(span, a, den);
    assert(q == (2 * span * a + den) / (2 * den));
    assert(q * (2 * den) <= 2 * span * a + den && 2 * span * a + den < q * (2 * den) + 2 * den)
        by (nonlinear_arith)
        requires
            q == (2 * span * a + den) / (2 * den),
            den > 0,
    ;
    assert(q * den <= span * a + den && q * den + den >= span * a) by (nonlinear_arith)
        requires
            q * (2 * den) <= 2 * span * a + den,
            2 * span * a + den < q * (2 * den) + 2 * den,
    ;
}

/// Cuts the time from `after` to `before` into `count` even shares.
pub fn shared(after: Duration, before: Duration, count: usize) -> (spans: Vec<(Duration, Duration)>)
    ensures
        span_views(spans@) == spec_shared(after@, before@, count as nat),
{
    let span = before.saturating_sub(after);
    let mut spans: Vec<(Duration, Duration)> = Vec::new();
    let mut step: usize = 0;
    while step < count
        invariant
            step <= count,
            span@ == minus(before@, after@),
            after@ + span@ <= MAX_NANOS,
            spans@.len() == step,
            forall|k: int| 0 <= k < step ==> #[trigger] span_view(spans@[k]) == spec_shared(after@, before@, count as nat)[k],
        decreases count - step,
    {
        proof {
            lemma_share_monotone(span@, step as nat, (step + 1) as nat, count as nat);
        }
        let from = after.plus(span.scaled(step as u64, count as u64));
        let to = after.plus(span.scaled((step + 1) as u64, count as u64));
        spans.push((from, to));
        step = step + 1;
    }
    assert(span_views(spans@) =~= spec_shared(after@, before@, count as nat));
    spans
}

/// The first index at or after `i` whose span is known, or the length.
pub open spec fn next_known(spans: Seq<Option<SpanView>>, i: int) -> int
    decreases spans.len() - i,
{
    if i >= spans.len() {
        spans.len() as int
    } else if spans[i] is Some {
        i
    } else {
        next_known(spans, i + 1)
    }
}

pub proof fn lemma_next_known(spans: Seq<Option<SpanView>>, i: int)
    requires
        0 <= i <= spans.len(),
    ensures
        i <= next_known(spans, i) <= spans.len(),
        next_known(spans, i) < spans.len() ==> spans[next_known(spans, i)] is Some,
        forall|k: int| i <= k < next_known(spans, i) ==> #[trigger] spans[k] is None,
    decreases spans.len() - i,
{
    if i < spans.len() && spans[i] is None {
        lemma_next_known(spans, i + 1);
    }
}

/// The hint for slot `at`, or an empty span at `after` (or at zero) when
/// there is no hint.
pub open spec fn hint_or(hints: Seq<SpanView>, at: int, after: Option<nat>) -> SpanView {
    if 0 <= at < hints.len() {
        hints[at]
    } else {
        let a = match after {
            Some(x) => x,
            None => 0,
        };
        (a, a)
    }
}

/// The span filled in for one slot of a gap: its hint, moved to start no
/// earlier than `after` and to end no later than `before`, and then to start
/// no earlier than the end of the span settled before it.
pub open spec fn fallback_span(
    hint: SpanView,
    after: Option<nat>,
    before: Option<nat>,
    floor: Option<nat>,
) -> SpanView {
    let (s1, e1) = match after {
        Some(a) => (most(hint.0, a), most(hint.1, most(hint.0, a))),
        None => hint,
    };
    let (s2, e2) = match before {
        Some(b) => (least(s1, b), most(least(e1, b), least(s1, b))),
        None => (s1, e1),
    };
    let f = match floor {
        Some(x) => x,
        None => s2,
    };
    (most(s2, f), most(e2, most(s2, f)))
}

/// The end of the last settled span, if any.
pub open spec fn last_end(settled: Seq<SpanView>) -> Option<nat> {
    if settled.len() > 0 {
        Some(settled.last().1)
    } else {
        None
    }
}

/// Filling the slots `at..until` of a gap one by one from their hints.
pub open spec fn fallback(
    hints: Seq<SpanView>,
    after: Option<nat>,
    before: Option<nat>,
    at: int,
    until: int,
    settled: Seq<SpanView>,
) -> Seq<SpanView>
    decreases until - at,
{
    if at >= until {
        settled
    } else {
        let span = fallback_span(hint_or(hints, at, after), after, before, last_end(settled));
        fallback(hints, after, before, at + 1, until, settled.push(span))
    }
}

/// The spans settled for slots `index..` after `settled`: a known span is
/// kept; a gap of unknown spans is cut into even shares when it lies between
/// an earlier end and a later start, and filled from hints otherwise.
pub open spec fn fill_from(
    spans: Seq<Option<SpanView>>,
    hints: Seq<SpanView>,
    index: int,
    settled: Seq<SpanView>,
) -> Seq<SpanView>
    decreases spans.len() - index,
{
    if index < 0 || index >= spans.len() {
        settled
    } else if spans[index] is Some {
        fill_from(spans, hints, index + 1, settled.push(spans[index]->0))
    } else {
        let until = next_known(spans, index + 1);
        let after = last_end(settled);
        let before = if until < spans.len() {
            Some((spans[until]->0).0)
        } else {
            None
        };
        let next = if after is Some && before is Some && before->0 > after->0 {
            settled + spec_shared(after->0, before->0, (until - index) as nat)
        } else {
            fallback(hints, after, before, index, until, settled)
        };
        proof {
            lemma_next_known(spans, index + 1);
        }
        fill_from(spans, hints, until, next)
    }
}

/// The settled spans of every slot.
pub open spec fn spec_filled(spans: Seq<Option<SpanView>>, hints: Seq<SpanView>) -> Seq<SpanView> {
    fill_from(spans, hints, 0, Seq::empty())
}

/// Whether the spans of `r` from `from` to `to` each start no later than they
/// end, and start no earlier than the span before them ends.
pub open spec fn ordered_from(r: Seq<SpanView>, from: int, to: int) -> bool {
    forall|k: int| from <= k < to ==> (#[trigger] r[k]).0 <= r[k].1 && (k > 0 ==> r[k - 1].1 <= r[k].0)
}

proof fn lemma_fallback_ordered(
    hints: Seq<SpanView>,
    after: Option<nat>,
    before: Option<nat>,
    at: int,
    until: int,
    settled: Seq<SpanView>,
)
    requires
        at <= until,
    ensures
        ({
            let r = fallback(hints, after, before, at, until, settled);
            &&& r.len() == settled.len() + (until - at)
            &&& r.take(settled.len() as int) == settled
            &&& ordered_from(r, settled.len() as int, r.len() as int)
        }),
    decreases until - at,
{
    if at < until {
        let span = fallback_span(hint_or(hints, at, after), after, before, last_end(settled));
        let next = settled.push(span);
        lemma_fallback_ordered(hints, after, before, at + 1, until, next);
        let r = fallback(hints, after, before, at, until, settled);
        assert(r.take(next.len() as int) == next);
        assert(r[settled.len() as int] == next[settled.len() as int]);
        if settled.len() > 0 {
            assert(r[settled.len() - 1] == next[settled.len() - 1]);
        }
        assert(r.take(settled.len() as int) =~= next.take(settled.len() as int));
        assert(next.take(settled.len() as int) =~= settled);
    } else {
        assert(settled.take(settled.len() as int) =~= settled);
    }
}

proof fn lemma_shared_ordered(after: nat, before: nat, count: nat)
    requires
        count > 0,
    ensures
        ({
            let r = spec_shared(after, before, count);
            &&& r[0].0 == after
            &&& forall|k: int| 0 <= k < count ==> (#[trigger] r[k]).0 <= r[k].1
            &&& forall|k: int| 0 < k < count ==> r[k - 1].1 == (#[trigger] r[k]).0
        }),
{
    let r = spec_shared(after, before, count);
    let span = minus(before, after);
    crate::time::lemma_rounded_share(span, 0, count, count);
    assert forall|k: int| 0 <= k < count implies (#[trigger] r[k]).0 <= r[k].1 by {
        lemma_share_monotone(span, k as nat, (k + 1) as nat, count);
    }
}

proof fn lemma_fill_from(
    spans: Seq<Option<SpanView>>,
    hints: Seq<SpanView>,
    index: int,
    settled: Seq<SpanView>,
)
    requires
        0 <= index <= spans.len(),
        settled.len() == index,
    ensures
        ({
            let r = fill_from(spans, hints, index, settled);
            &&& r.len() == spans.len()
            &&& r.take(index) == settled
            &&& forall|k: int| index <= k < spans.len() && spans[k] is Some ==> #[trigger] r[k] == spans[k]->0
            &&& forall|k: int| index <= k < spans.len() && #[trigger] spans[k] is None ==> r[k].0 <= r[k].1 && (k > 0 ==> r[k - 1].1 <= r[k].0)
        }),
    decreases spans.len() - index,
{
    let r = fill_from(spans, hints, index, settled);
    if index == spans.len() {
        assert(settled.take(index) =~= settled);
    } else if spans[index] is Some {
        let next = settled.push(spans[index]->0);
        lemma_fill_from(spans, hints, index + 1, next);
        assert(r.take(index + 1) == next);
        assert(r[index] == next[index]);
        assert(r.take(index) =~= next.take(index));
        assert(next.take(index) =~= settled);
    } else {
        lemma_next_known(spans, index + 1);
        let until = next_known(spans, index + 1);
        let after = last_end(settled);
        let before = if until < spans.len() {
            Some((spans[until]->0).0)
        } else {
            None
        };
        let next = if after is Some && before is Some && before->0 > after->0 {
            settled + spec_shared(after->0, before->0, (until - index) as nat)
        } else {
            fallback(hints, after, before, index, until, settled)
        };
        if after is Some && before is Some && before->0 > after->0 {
            lemma_shared_ordered(after->0, before->0, (until - index) as nat);
            assert(ordered_from(next, index, until)) by {
                let sh = spec_shared(after->0, before->0, (until - index) as nat);
                assert forall|k: int| index <= k < until implies (#[trigger] next[k]).0 <= next[k].1
                    && (k > 0 ==> next[k - 1].1 <= next[k].0) by {
                    assert(next[k] == sh[k - index]);
                    if k > index {
                        assert(next[k - 1] == sh[k - 1 - index]);
                    } else if k > 0 {
                        assert(next[k - 1] == settled[index - 1]);
                    }
                }
            }
            assert(next.take(index) =~= settled);
        } else {
            lemma_fallback_ordered(hints, after, before, index, until, settled);
        }
        lemma_fill_from(spans, hints, until, next);
        assert(r.take(until) == next);
        assert forall|k: int| 0 <= k < until implies r[k] == #[trigger] next[k] by {
            assert(r.take(until)[k] == r[k]);
        }
        assert(r.take(index) =~= next.take(index));
        assert forall|k: int| index <= k < spans.len() && #[trigger] spans[k] is None implies r[k].0
            <= r[k].1 && (k > 0 ==> r[k - 1].1 <= r[k].0) by {
            if k < until {
                assert(r[k] == next[k]);
                if k > 0 {
                    assert(r[k - 1] == next[k - 1]);
                }
            }
        }
        assert forall|k: int| index <= k < spans.len() && spans[k] is Some implies #[trigger] r[k]
            == spans[k]->0 by {
            if k < until {
                assert(spans[k] is None);
            }
        }
    }
}

/// Filling keeps every known span in place, gives one span per slot, and
/// every filled-in span starts no later than it ends and no earlier than the
/// span before it ends.
pub proof fn lemma_filled_keeps_and_orders(spans: Seq<Option<SpanView>>, hints: Seq<SpanView>)
    ensures
        ({
            let r = spec_filled(spans, hints);
            &&& r.len() == spans.len()
            &&& forall|k: int| 0 <= k < spans.len() && spans[k] is Some ==> #[trigger] r[k] == spans[k]->0
            &&& forall|k: int| 0 <= k < spans.len() && #[trigger] spans[k] is None ==> r[k].0 <= r[k].1 && (k > 0 ==> r[k - 1].1 <= r[k].0)
        }),
{
    lemma_fill_from(spans, hints, 0, Seq::empty());
}

proof fn lemma_fill_passes(
    spans: Seq<Option<SpanView>>,
    hints: Seq<SpanView>,
    index: int,
    settled: Seq<SpanView>,
    k: int,
)
    requires
        0 <= index <= k < spans.len(),
        settled.len() == index,
        spans[k] is Some,
    ensures
        fill_from(spans, hints, index, settled) == fill_from(
            spans,
            hints,
            k + 1,
            fill_from(spans, hints, index, settled).take(k + 1),
        ),
    decreases spans.len() - index,
{
    let r = fill_from(spans, hints, index, settled);
    if spans[index] is Some {
        let next = settled.push(spans[index]->0);
        if k == index {
            lemma_fill_from(spans, hints, index + 1, next);
        } else {
            lemma_fill_passes(spans, hints, index + 1, next, k);
        }
    } else {
        lemma_next_known(spans, index + 1);
        let until = next_known(spans, index + 1);
        assert(until <= k) by {
            if until > k {
                assert(spans[k] is None);
            }
        }
        let after = last_end(settled);
        let before = if until < spans.len() {
            Some((spans[until]->0).0)
        } else {
            None
        };
        let next = if after is Some && before is Some && before->0 > after->0 {
            settled + spec_shared(after->0, before->0, (until - index) as nat)
        } else {
            fallback(hints, after, before, index, until, settled)
        };
        if !(after is Some && before is Some && before->0 > after->0) {
            lemma_fallback_ordered(hints, after, before, index, until, settled);
        }
        lemma_fill_passes(spans, hints, until, next, k);
    }
}

/// A gap of unknown spans between two known ones, where the later one starts
/// after the earlier one ends, is cut into even shares of the time between
/// them.
pub proof fn lemma_filled_shares_gaps(spans: Seq<Option<SpanView>>, hints: Seq<SpanView>, i: int, j: int)
    requires
        0 <= i,
        i + 1 < j < spans.len(),
        spans[i] is Some,
        spans[j] is Some,
        forall|k: int| i < k < j ==> #[trigger] spans[k] is None,
        (spans[j]->0).0 > (spans[i]->0).1,
    ensures
        spec_filled(spans, hints).subrange(i + 1, j) == spec_shared(
            (spans[i]->0).1,
            (spans[j]->0).0,
            (j - i - 1) as nat,
        ),
{
    let r = spec_filled(spans, hints);
    lemma_fill_from(spans, hints, 0, Seq::empty());
    lemma_fill_passes(spans, hints, 0, Seq::empty(), i);
    let settled = r.take(i + 1);
    assert(settled.last() == spans[i]->0);
    lemma_next_known(spans, i + 2);
    let until = next_known(spans, i + 2);
    assert(until == j) by {
        if until < j {
            assert(spans[until] is None);
        }
        if until > j {
            assert(spans[j] is None);
        }
    }
    let shares = spec_shared((spans[i]->0).1, (spans[j]->0).0, (j - i - 1) as nat);
    let next = settled + shares;
    assert(r == fill_from(spans, hints, j, next));
    lemma_fill_from(spans, hints, j, next);
    assert(r.subrange(i + 1, j) =~= next.subrange(i + 1, j));
    assert(next.subrange(i + 1, j) =~= shares);
}

/// Settles a span for every slot: known spans stay, gaps are filled.
pub fn filled(spans: Vec<Option<(Duration, Duration)>>, hints: &Vec<(Duration, Duration)>) -> (settled: Vec<(Duration, Duration)>)
    ensures
        span_views(settled@) == spec_filled(opt_span_views(spans@), span_views(hints@)),
{
    let ghost sp = opt_span_views(spans@);
    let ghost hv = span_views(hints@);
    let mut settled: Vec<(Duration, Duration)> = Vec::new();
    assert(span_views(settled@) =~= Seq::<SpanView>::empty());
    let mut index: usize = 0;
    while index < spans.len()
        invariant
            sp == opt_span_views(spans@),
            hv == span_views(hints@),
            index <= spans@.len(),
            fill_from(sp, hv, index as int, span_views(settled@)) == spec_filled(sp, hv),
        decreases spans@.len() - index,
    {
        let ghost before_step = span_views(settled@);
        if let Some(span) = spans[index] {
            settled.push(span);
            assert(span_views(settled@) =~= before_step.push(sp[index as int]->0));
            index = index + 1;
            continue;
        }
        let mut until: usize = index + 1;
        while until < spans.len() && spans[until].is_none()
            invariant
                sp == opt_span_views(spans@),
                index < until <= spans@.len(),
                next_known(sp, until as int) == next_known(sp, index + 1),
            decreases spans@.len() - until,
        {
            until = until + 1;
        }
        let after = if settled.len() > 0 {
            Some(settled[settled.len() - 1].1)
        } else {
            None
        };
        let before = if until < spans.len() {
            match spans[until] {
                Some(span) => Some(span.0),
                None => None,
            }
        } else {
            None
        };
        let shares = match (after, before) {
            (Some(a), Some(b)) => a.lt(&b),
            _ => false,
        };
        if shares {
            let a = after.unwrap();
            let b = before.unwrap();
            let extra = shared(a, b, until - index);
            let mut extra = extra;
            let ghost e = span_views(extra@);
            settled.append(&mut extra);
            assert(span_views(settled@) =~= before_step + e);
        } else {
            let mut at: usize = index;
            while at < until
                invariant
                    sp == opt_span_views(spans@),
                    hv == span_views(hints@),
                    index <= at <= until,
                    fallback(
                        hv,
                        match after { Some(x) => Some(x@), None => None },
                        match before { Some(x) => Some(x@), None => None },
                        at as int,
                        until as int,
                        span_views(settled@),
                    ) == fallback(
                        hv,
                        match after { Some(x) => Some(x@), None => None },
                        match before { Some(x) => Some(x@), None => None },
                        index as int,
                        until as int,
                        before_step,
                    ),
                decreases until - at,
            {
                let hint = if at < hints.len() {
                    hints[at]
                } else {
                    let a = match after {
                        Some(x) => x,
                        None => Duration::zero(),
                    };
                    (a, a)
                };
                let mut start = hint.0;
                let mut end = hint.1;
                if let Some(a) = after {
                    start = start.max(a);
                    end = end.max(start);
                }
                if let Some(b) = before {
                    start = start.min(b);
                    end = end.min(b).max(start);
                }
                let floor = if settled.len() > 0 {
                    settled[settled.len() - 1].1
                } else {
                    start
                };
                let ghost old_views = span_views(settled@);
                settled.push((start.max(floor), end.max(start.max(floor))));
                assert(span_views(settled@) =~= old_views.push(
                    fallback_span(
                        hint_or(hv, at as int, match after { Some(x) => Some(x@), None => None }),
                        match after { Some(x) => Some(x@), None => None },
                        match before { Some(x) => Some(x@), None => None },
                        last_end(old_views),
                    ),
                ));
                at = at + 1;
            }
        }
        index = until;
    }
    settled
}

} // verus!
