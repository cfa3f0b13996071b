//! Conforming a word-timed sheet to a guide sheet: the guide's lines and
//! text are kept, and each guide word takes its timing from the sung key it
//! is aligned with, gaps being filled in.

use vstd::prelude::*;
use crate::align::{trace, paired, pair_views, key_views};
use crate::estimate::{most, word_texts};
use crate::fragments::joined;
use crate::fill::{SpanView, span_views, opt_span_views, spec_filled, spec_hints, slotted_views, slot_weight, filled, hints, lemma_filled_keeps_and_orders, lemma_slot_weight_monotone};
use crate::model::{Lyrics, LyricsLine, LyricsWord, LineView, WordView, Voice, line_views, word_views, lacks_word_views, lacks_word_timings};
use crate::text::chars_of;
use crate::time::{Duration, lemma_duration_bounded};
use crate::timing::{Sung, sung_views, spec_sung, sheet_countable, countable, key_chars, sung, char_count, lemma_key_chars_monotone};
use crate::tokens::{Slot, SlotView, slot_views, spec_tokens, tokens, well_placed};

verus! {

broadcast use lemma_duration_bounded;

/// The places `(line, slot)` of line `i`'s slots.
pub open spec fn line_places(slotted: Seq<Seq<SlotView>>, i: int) -> Seq<(int, int)> {
    Seq::new(slotted[i].len(), |s: int| (i, s))
}

/// The places of the slots of the first `n` lines, line by line.
pub open spec fn places_before(slotted: Seq<Seq<SlotView>>, n: int) -> Seq<(int, int)>
    decreases n,
{
    if n <= 0 {
        Seq::empty()
    } else {
        places_before(slotted, n - 1) + line_places(slotted, n - 1)
    }
}

/// Whether a pair of `pairs` anchors a slot of `line`.
pub open spec fn held(pairs: Seq<(int, int)>, places: Seq<(int, int)>, line: int) -> bool {
    exists|k: int| 0 <= k < pairs.len() && places[(#[trigger] pairs[k]).1].0 == line
}

/// The lines among the first `n` that have slots.
pub open spec fn counted_before(slotted: Seq<Seq<SlotView>>, n: int) -> nat
    decreases n,
{
    if n <= 0 {
        0
    } else {
        counted_before(slotted, n - 1) + if slotted[n - 1].len() > 0 {
            1nat
        } else {
            0nat
        }
    }
}

/// The lines among the first `n` that have slots and are anchored by a pair.
pub open spec fn anchored_before(
    pairs: Seq<(int, int)>,
    places: Seq<(int, int)>,
    slotted: Seq<Seq<SlotView>>,
    n: int,
) -> nat
    decreases n,
{
    if n <= 0 {
        0
    } else {
        anchored_before(pairs, places, slotted, n - 1) + if slotted[n - 1].len() > 0 && held(
            pairs,
            places,
            n - 1,
        ) {
            1nat
        } else {
            0nat
        }
    }
}

/// Whether at least nine tenths of the lines with slots are anchored by a
/// pair (compared exactly).
pub open spec fn spec_seated(pairs: Seq<(int, int)>, places: Seq<(int, int)>, slotted: Seq<Seq<SlotView>>) -> bool {
    10 * anchored_before(pairs, places, slotted, slotted.len() as int) >= 9 * counted_before(
        slotted,
        slotted.len() as int,
    )
}

/// The views of a sequence of places.
pub open spec fn place_views(places: Seq<(usize, usize)>) -> Seq<(int, int)> {
    places.map_values(|p: (usize, usize)| (p.0 as int, p.1 as int))
}

/// Whether at least nine tenths of the guide's lines with slots hold a
/// paired slot.
pub fn seated(pairs: &Vec<(usize, usize)>, places: &Vec<(usize, usize)>, slotted: &Vec<Vec<Slot>>) -> (b: bool)
    requires
        forall|k: int| 0 <= k < pairs@.len() ==> (#[trigger] pairs@[k]).1 < places@.len(),
        forall|p: int| 0 <= p < places@.len() ==> (#[trigger] places@[p]).0 < slotted@.len(),
    ensures
        b == spec_seated(pair_views(pairs@), place_views(places@), slotted_views(slotted@)),
{
    let ghost pv = pair_views(pairs@);
    let ghost lv = place_views(places@);
    let ghost sv = slotted_views(slotted@);
    let mut held_lines: Vec<bool> = vec![false; slotted.len()];
    let mut k: usize = 0;
    while k < pairs.len()
        invariant
            pv == pair_views(pairs@),
            lv == place_views(places@),
            forall|j: int| 0 <= j < pairs@.len() ==> (#[trigger] pairs@[j]).1 < places@.len(),
            forall|p: int| 0 <= p < places@.len() ==> (#[trigger] places@[p]).0 < slotted@.len(),
            k <= pairs@.len(),
            held_lines@.len() == slotted@.len(),
            forall|i: int|
                0 <= i < slotted@.len() ==> #[trigger] held_lines@[i] == held(pv.take(k as int), lv, i),
        decreases pairs@.len() - k,
    {
        let line = places[pairs[k].1].0;
        held_lines.set(line, true);
        k = k + 1;
        assert forall|i: int| 0 <= i < slotted@.len() implies #[trigger] held_lines@[i] == held(
            pv.take(k as int),
            lv,
            i,
        ) by {
            let t = pv.take(k as int);
            if held(pv.take(k - 1), lv, i) {
                let w = choose|w: int| 0 <= w < k - 1 && lv[(#[trigger] pv.take(k - 1)[w]).1].0 == i;
                assert(t[w] == pv.take(k - 1)[w]);
            }
            if held(t, lv, i) {
                let w = choose|w: int| 0 <= w < k && lv[(#[trigger] t[w]).1].0 == i;
                if w < k - 1 {
                    assert(t[w] == pv.take(k - 1)[w]);
                }
            }
            assert(t[k - 1] == pv[k - 1]);
        }
    }
    assert(pv.take(k as int) =~= pv);
    let mut counted: u128 = 0;
    let mut anchored: u128 = 0;
    let mut i: usize = 0;
    while i < slotted.len()
        invariant
            pv == pair_views(pairs@),
            lv == place_views(places@),
            sv == slotted_views(slotted@),
            i <= slotted@.len(),
            held_lines@.len() == slotted@.len(),
            forall|m: int| 0 <= m < slotted@.len() ==> #[trigger] held_lines@[m] == held(pv, lv, m),
            counted == counted_before(sv, i as int),
            anchored == anchored_before(pv, lv, sv, i as int),
            counted <= i,
            anchored <= i,
        decreases slotted@.len() - i,
    {
        assert(sv[i as int] == slot_views(slotted@[i as int]@));
        if slotted[i].len() > 0 {
            counted = counted + 1;
            if held_lines[i] {
                anchored = anchored + 1;
            }
        }
        i = i + 1;
    }
    10 * anchored >= 9 * counted
}

/// Where word `k` of a line starts: the start of the line for the first
/// word, else where its slot starts.
pub open spec fn word_from(slots: Seq<SlotView>, k: int) -> nat {
    if k == 0 {
        0
    } else {
        slots[k].0
    }
}

/// Where word `k` of a line ends: where the next slot starts (but not before
/// the word starts), or the end of the line for the last word.
pub open spec fn word_until(len: nat, slots: Seq<SlotView>, k: int) -> nat {
    if k + 1 < slots.len() {
        most(slots[k + 1].0, word_from(slots, k))
    } else {
        len
    }
}

/// The words of a guide line: the text from each slot to the next, timed by
/// the slot's span (never ending before it starts).
pub open spec fn spec_worded(text: Seq<char>, slots: Seq<SlotView>, spans: Seq<SpanView>) -> Seq<WordView> {
    Seq::new(
        slots.len(),
        |k: int|
            (
                spans[k].0,
                most(spans[k].1, spans[k].0),
                text.subrange(word_from(slots, k) as int, word_until(text.len(), slots, k) as int),
            ),
    )
}

proof fn lemma_worded_prefix(text: Seq<char>, slots: Seq<SlotView>, spans: Seq<SpanView>, n: int)
    requires
        well_placed(slots, text.len()),
        spans.len() >= slots.len(),
        1 <= n <= slots.len(),
    ensures
        joined(word_texts(spec_worded(text, slots, spans)).take(n)) == text.subrange(
            0,
            word_until(text.len(), slots, n - 1) as int,
        ),
        word_from(slots, n - 1) <= word_until(text.len(), slots, n - 1) <= text.len(),
    decreases n,
{
    let ws = spec_worded(text, slots, spans);
    let ts = word_texts(ws);
    let k = n - 1;
    if k + 1 < slots.len() {
        assert(slots[k + 1].0 < text.len());
        if k > 0 {
            assert(slots[k].0 < slots[k + 1].0);
        }
    }
    if k > 0 {
        assert(slots[k].0 < text.len());
    }
    assert(ts.take(n).drop_last() =~= ts.take(k));
    if n == 1 {
        assert(ts.take(0) =~= Seq::<Seq<char>>::empty());
        assert(text.subrange(0, 0) =~= Seq::<char>::empty());
        assert(joined(ts.take(0)) == Seq::<char>::empty());
        assert(ts.take(n).last() == ts[0]);
        assert(Seq::<char>::empty() + text.subrange(0, word_until(text.len(), slots, 0) as int)
            =~= text.subrange(0, word_until(text.len(), slots, 0) as int));
    } else {
        lemma_worded_prefix(text, slots, spans, n - 1);
        assert(slots[k - 1].0 < slots[k].0 || k - 1 == 0);
        assert(word_until(text.len(), slots, k - 1) == word_from(slots, k));
        assert(ts.take(n).last() == ts[k]);
        assert(text.subrange(0, word_from(slots, k) as int) + text.subrange(
            word_from(slots, k) as int,
            word_until(text.len(), slots, k) as int,
        ) =~= text.subrange(0, word_until(text.len(), slots, k) as int));
    }
}

/// The words of a line with slots, concatenated, give back the line's text.
pub proof fn lemma_worded_rejoin(text: Seq<char>, slots: Seq<SlotView>, spans: Seq<SpanView>)
    requires
        well_placed(slots, text.len()),
        spans.len() >= slots.len(),
        slots.len() > 0,
    ensures
        joined(word_texts(spec_worded(text, slots, spans))) == text,
{
    let ws = spec_worded(text, slots, spans);
    lemma_worded_prefix(text, slots, spans, slots.len() as int);
    assert(word_texts(ws).take(slots.len() as int) =~= word_texts(ws));
    assert(text.subrange(0, text.len() as int) =~= text);
}

/// The words of a guide line, each taking the text from its slot to the
/// next and the span settled for its slot.
pub fn worded_from(text: &Vec<char>, slots: &Vec<Slot>, spans: &Vec<(Duration, Duration)>) -> (words: Vec<LyricsWord>)
    requires
        spans@.len() >= slots@.len(),
        forall|k: int| 0 <= k < slots@.len() ==> (#[trigger] slots@[k]).at <= text@.len(),
    ensures
        word_views(words@) == spec_worded(text@, slot_views(slots@), span_views(spans@)),
{
    let ghost sv = slot_views(slots@);
    let mut words: Vec<LyricsWord> = Vec::new();
    let mut index: usize = 0;
    while index < slots.len()
        invariant
            sv == slot_views(slots@),
            spans@.len() >= slots@.len(),
            forall|k: int| 0 <= k < slots@.len() ==> (#[trigger] slots@[k]).at <= text@.len(),
            index <= slots@.len(),
            words@.len() == index,
            forall|k: int|
                0 <= k < index ==> #[trigger] words@[k]@ == spec_worded(
                    text@,
                    sv,
                    span_views(spans@),
                )[k],
        decreases slots@.len() - index,
    {
        let from = if index == 0 {
            0
        } else {
            slots[index].at
        };
        let until = if index + 1 < slots.len() {
            let next = slots[index + 1].at;
            if next >= from {
                next
            } else {
                from
            }
        } else {
            text.len()
        };
        let (start, end) = spans[index];
        let piece = crate::text::string_of(text.as_slice(), from, until);
        words.push(LyricsWord { start, end: end.max(start), text: piece });
        index = index + 1;
    }
    assert(word_views(words@) =~= spec_worded(text@, sv, span_views(spans@)));
    words
}

/// Whether the key characters of `text` can be counted in 64 bits.
fn text_countable(text: &String) -> (b: bool)
    ensures
        b == countable(text@),
{
    let slots = tokens(&chars_of(text.as_str()));
    let ghost sv = slot_views(slots@);
    let mut total: u64 = 0;
    let mut k: usize = 0;
    while k < slots.len()
        invariant
            sv == slot_views(slots@),
            sv == spec_tokens(text@),
            k <= slots@.len(),
            total == key_chars(sv, k as int),
        decreases slots@.len() - k,
    {
        let length = char_count(&slots[k].key) as u64;
        if length > 0xffff_ffff_ffff_ffff - total {
            proof {
                lemma_key_chars_monotone(sv, k + 1, sv.len() as int);
            }
            return false;
        }
        total = total + length;
        k = k + 1;
    }
    true
}

/// Whether every text that would have to be spread can be counted.
fn sheet_is_countable(lines: &Vec<LyricsLine>) -> (b: bool)
    ensures
        b == sheet_countable(line_views(lines@)),
{
    let ghost lv = line_views(lines@);
    let mut i: usize = 0;
    while i < lines.len()
        invariant
            lv == line_views(lines@),
            i <= lines@.len(),
            forall|m: int|
                0 <= m < i && lacks_word_views(lv[m].4) ==> countable(#[trigger] lv[m].2),
            forall|m: int, j: int|
                0 <= m < i && 0 <= j < lv[m].5.len() && lacks_word_views(#[trigger] lv[m].5[j].3)
                    ==> countable(lv[m].5[j].2),
        decreases lines@.len() - i,
    {
        let line = &lines[i];
        assert(lv[i as int] == line@);
        if lacks_word_timings(&line.words) && !text_countable(&line.text) {
            assert(lacks_word_views(lv[i as int].4) && !countable(lv[i as int].2));
            assert(!sheet_countable(lv));
            return false;
        }
        let mut j: usize = 0;
        while j < line.secondary.len()
            invariant
                lv == line_views(lines@),
                i < lines@.len(),
                line == &lines@[i as int],
                j <= line.secondary@.len(),
                forall|n: int|
                    0 <= n < j && lacks_word_views(#[trigger] lv[i as int].5[n].3) ==> countable(
                        lv[i as int].5[n].2,
                    ),
            decreases line.secondary@.len() - j,
        {
            let lane = &line.secondary[j];
            assert(lv[i as int].5[j as int] == lane@);
            if lacks_word_timings(&lane.words) && !text_countable(&lane.text) {
                assert(lacks_word_views(lv[i as int].5[j as int].3) && !countable(
                    lv[i as int].5[j as int].2,
                ));
                assert(!sheet_countable(lv));
                return false;
            }
            j = j + 1;
        }
        i = i + 1;
    }
    true
}

/// Whether the weight of `slots` can be counted in 64 bits.
fn slots_weigh_in(slots: &Vec<Slot>) -> (b: bool)
    ensures
        b == (slot_weight(slot_views(slots@), slots@.len() as int) < 0x1_0000_0000_0000_0000),
{
    let ghost sv = slot_views(slots@);
    let mut total: u64 = 0;
    let mut k: usize = 0;
    while k < slots.len()
        invariant
            sv == slot_views(slots@),
            k <= slots@.len(),
            total == slot_weight(sv, k as int),
        decreases slots@.len() - k,
    {
        let length = char_count(&slots[k].key) as u64;
        let weight: u64 = if length > 1 {
            length
        } else {
            1
        };
        if weight > 0xffff_ffff_ffff_ffff - total {
            proof {
                lemma_slot_weight_monotone(sv, k + 1, sv.len() as int);
            }
            return false;
        }
        total = total + weight;
        k = k + 1;
    }
    true
}

/// The slots of each guide line.
pub open spec fn guide_slots(guide: Seq<LineView>) -> Seq<Seq<SlotView>> {
    Seq::new(guide.len(), |i: int| spec_tokens(guide[i].2))
}

/// The places of all slots of the guide.
pub open spec fn spec_places(slotted: Seq<Seq<SlotView>>) -> Seq<(int, int)> {
    places_before(slotted, slotted.len() as int)
}

/// The keys at the given places.
pub open spec fn place_keys(slotted: Seq<Seq<SlotView>>, places: Seq<(int, int)>) -> Seq<Seq<char>> {
    places.map_values(|p: (int, int)| slotted[p.0][p.1].1)
}

/// The keys of timed keys.
pub open spec fn sung_keys(sung: Seq<WordView>) -> Seq<Seq<char>> {
    sung.map_values(|w: WordView| w.2)
}

/// The spans known after the first `n` pairs: each pair gives its place the
/// span of its sung key.
pub open spec fn paired_spans(sung: Seq<WordView>, pairs: Seq<(int, int)>, count: nat, n: int) -> Seq<Option<SpanView>>
    decreases n,
{
    if n <= 0 {
        Seq::new(count, |p: int| None)
    } else {
        let (w, p) = pairs[n - 1];
        paired_spans(sung, pairs, count, n - 1).update(p, Some((sung[w].0, sung[w].1)))
    }
}

/// The latest end among the first `n` words (at least one).
pub open spec fn max_end(words: Seq<WordView>, n: int) -> nat
    decreases n,
{
    if n <= 1 {
        words[0].1
    } else {
        most(max_end(words, n - 1), words[n - 1].1)
    }
}

/// A conformed line: the guide line's text with the given words, from the
/// first word's start to the latest word end.
pub open spec fn conformed_line(text: Seq<char>, words: Seq<WordView>) -> LineView {
    (
        words[0].0,
        Some(most(max_end(words, words.len() as int), words[0].0)),
        text,
        None,
        Some(words),
        Seq::empty(),
        Voice::Lead,
    )
}

/// The conformed lines for the first `n` guide lines; a line without slots
/// is left out, and the others take their slots' spans in turn.
pub open spec fn conformed_lines(
    guide: Seq<LineView>,
    slotted: Seq<Seq<SlotView>>,
    spans: Seq<SpanView>,
    n: int,
) -> Seq<LineView>
    decreases n,
{
    if n <= 0 {
        Seq::empty()
    } else {
        let before = conformed_lines(guide, slotted, spans, n - 1);
        let i = n - 1;
        if slotted[i].len() == 0 {
            before
        } else {
            let from = places_before(slotted, i).len() as int;
            let mine = spans.subrange(from, from + slotted[i].len());
            before.push(conformed_line(guide[i].2, spec_worded(guide[i].2, slotted[i], mine)))
        }
    }
}

/// Each conformed line has words, which concatenated give back its text,
/// starts with its first word, and ends no earlier than it starts.
pub proof fn lemma_conformed_lines_rejoin(
    guide: Seq<LineView>,
    slotted: Seq<Seq<SlotView>>,
    spans: Seq<SpanView>,
    n: int,
)
    requires
        0 <= n <= guide.len(),
        slotted.len() == guide.len(),
        spans.len() == spec_places(slotted).len(),
        forall|i: int| 0 <= i < slotted.len() ==> well_placed(#[trigger] slotted[i], guide[i].2.len()),
    ensures
        forall|j: int|
            0 <= j < conformed_lines(guide, slotted, spans, n).len() ==> {
                let l = #[trigger] conformed_lines(guide, slotted, spans, n)[j];
                &&& l.4 is Some
                &&& l.4->0.len() > 0
                &&& joined(word_texts(l.4->0)) == l.2
                &&& l.0 == l.4->0[0].0
                &&& l.1 is Some && l.1->0 >= l.0
            },
    decreases n,
{
    if n > 0 {
        lemma_conformed_lines_rejoin(guide, slotted, spans, n - 1);
        let i = n - 1;
        let before = conformed_lines(guide, slotted, spans, n - 1);
        let now = conformed_lines(guide, slotted, spans, n);
        if slotted[i].len() > 0 {
            let from = places_before(slotted, i).len() as int;
            lemma_places_grow(slotted, i + 1, slotted.len() as int);
            let mine = spans.subrange(from, from + slotted[i].len());
            lemma_worded_rejoin(guide[i].2, slotted[i], mine);
            assert forall|j: int| 0 <= j < now.len() implies {
                let l = #[trigger] now[j];
                &&& l.4 is Some
                &&& l.4->0.len() > 0
                &&& joined(word_texts(l.4->0)) == l.2
                &&& l.0 == l.4->0[0].0
                &&& l.1 is Some && l.1->0 >= l.0
            } by {
                if j < before.len() {
                    assert(now[j] == before[j]);
                }
            }
        }
    }
}

/// Whether the slot weight of every guide line can be counted in 64 bits.
pub open spec fn weights_fit(slotted: Seq<Seq<SlotView>>) -> bool {
    forall|i: int|
        0 <= i < slotted.len() ==> slot_weight(#[trigger] slotted[i], slotted[i].len() as int)
            < 0x1_0000_0000_0000_0000
}

/// Conforming the lines of a word-timed sheet to the lines of a guide. The
/// guide must share enough keys with the sung keys: at least 6 pairs, at
/// least 7 in 10 of the guide's keys and half of the sung keys paired, and
/// nine tenths of the guide's lines holding a pair. Sheets of more than 3000
/// keys, or whose key counts cannot be counted in 64 bits, are not
/// conformed; at least two lines must come out.
pub open spec fn spec_conform_lines(worded: Seq<LineView>, guide: Seq<LineView>) -> Option<Seq<LineView>> {
    if guide.len() == 0 || worded.len() == 0 {
        None
    } else if !sheet_countable(worded) {
        None
    } else {
        let sung = spec_sung(worded, worded.len() as int);
        let slotted = guide_slots(guide);
        let places = spec_places(slotted);
        if sung.len() < 6 || places.len() < 6 || sung.len() > 3000 || places.len() > 3000 {
            None
        } else if sung.len() * places.len() > 2_000_000 {
            None
        } else {
            let pairs = trace(sung_keys(sung), place_keys(slotted, places), 0, 0);
            if pairs.len() < 6 || 10 * pairs.len() < 7 * places.len() || 2 * pairs.len() < sung.len()
                || !spec_seated(pairs, places, slotted) {
                None
            } else if !weights_fit(slotted) {
                None
            } else {
                let spans = spec_filled(
                    paired_spans(sung, pairs, places.len(), pairs.len() as int),
                    spec_hints(guide, slotted, guide.len() as int),
                );
                let lines = conformed_lines(guide, slotted, spans, guide.len() as int);
                if lines.len() < 2 {
                    None
                } else {
                    Some(lines)
                }
            }
        }
    }
}

/// The lines of a synced sheet.
pub open spec fn synced_views(l: Lyrics) -> Option<Seq<LineView>> {
    match l {
        Lyrics::Synced { lines } => Some(line_views(lines@)),
        Lyrics::Plain { .. } => None,
    }
}

/// Conforming a word-timed sheet to a guide: both must be synced.
pub open spec fn spec_conform(worded: Lyrics, guide: Lyrics) -> Option<Seq<LineView>> {
    match (synced_views(guide), synced_views(worded)) {
        (Some(g), Some(w)) => spec_conform_lines(w, g),
        _ => None,
    }
}

/// The guide lines among the first `n` that have slots.
pub open spec fn lines_with_slots(slotted: Seq<Seq<SlotView>>, n: int) -> Set<int> {
    Set::new(|i: int| 0 <= i < n && slotted[i].len() > 0)
}

/// The guide lines among the first `n` that have slots and hold a slot
/// paired with a sung key.
pub open spec fn anchored_lines(
    pairs: Seq<(int, int)>,
    places: Seq<(int, int)>,
    slotted: Seq<Seq<SlotView>>,
    n: int,
) -> Set<int> {
    Set::new(|i: int| 0 <= i < n && slotted[i].len() > 0 && held(pairs, places, i))
}

/// The running counts are the sizes of those sets of lines.
pub proof fn lemma_line_counts(
    pairs: Seq<(int, int)>,
    places: Seq<(int, int)>,
    slotted: Seq<Seq<SlotView>>,
    n: int,
)
    ensures
        lines_with_slots(slotted, n).finite(),
        anchored_lines(pairs, places, slotted, n).finite(),
        counted_before(slotted, n) == lines_with_slots(slotted, n).len(),
        anchored_before(pairs, places, slotted, n) == anchored_lines(pairs, places, slotted, n).len(),
    decreases n,
{
    if n <= 0 {
        assert(lines_with_slots(slotted, n) =~= Set::empty());
        assert(anchored_lines(pairs, places, slotted, n) =~= Set::empty());
    } else {
        lemma_line_counts(pairs, places, slotted, n - 1);
        let c = lines_with_slots(slotted, n - 1);
        let a = anchored_lines(pairs, places, slotted, n - 1);
        assert(!c.contains(n - 1) && !a.contains(n - 1));
        if slotted[n - 1].len() > 0 {
            assert(lines_with_slots(slotted, n) =~= c.insert(n - 1));
        } else {
            assert(lines_with_slots(slotted, n) =~= c);
        }
        if slotted[n - 1].len() > 0 && held(pairs, places, n - 1) {
            assert(anchored_lines(pairs, places, slotted, n) =~= a.insert(n - 1));
        } else {
            assert(anchored_lines(pairs, places, slotted, n) =~= a);
        }
    }
}

/// A sheet is conformed to a guide only when their keys pair well: at least
/// 6 pairs, at least 7 in 10 of the guide's keys paired, at least half of
/// the sung keys paired, and at least 9 in 10 of the guide lines with keys
/// holding a paired key. Failing any of these, nothing comes out; nor when
/// either side has fewer than 6 keys or more than 3000, or the two counts
/// multiply to more than 2,000,000; and what comes out has at least two lines.
pub proof fn lemma_conform_thresholds(worded: Seq<LineView>, guide: Seq<LineView>)
    ensures
        ({
            let sung = spec_sung(worded, worded.len() as int);
            let slotted = guide_slots(guide);
            let places = spec_places(slotted);
            let pairs = trace(sung_keys(sung), place_keys(slotted, places), 0, 0);
            let counted = lines_with_slots(slotted, slotted.len() as int);
            let anchored = anchored_lines(pairs, places, slotted, slotted.len() as int);
            &&& (pairs.len() < 6 || 10 * pairs.len() < 7 * places.len() || 2 * pairs.len() < sung.len()
                || 10 * anchored.len() < 9 * counted.len()) ==> spec_conform_lines(worded, guide) is None
            &&& (sung.len() < 6 || places.len() < 6 || sung.len() > 3000 || places.len() > 3000
                || sung.len() * places.len() > 2_000_000) ==> spec_conform_lines(worded, guide) is None
            &&& spec_conform_lines(worded, guide) matches Some(lines) ==> lines.len() >= 2
        }),
{
    let sung = spec_sung(worded, worded.len() as int);
    let slotted = guide_slots(guide);
    let places = spec_places(slotted);
    let pairs = trace(sung_keys(sung), place_keys(slotted, places), 0, 0);
    lemma_line_counts(pairs, places, slotted, slotted.len() as int);
}

proof fn lemma_places(slotted: Seq<Seq<SlotView>>, n: int)
    requires
        0 <= n <= slotted.len(),
    ensures
        forall|k: int|
            0 <= k < places_before(slotted, n).len() ==> 0 <= (#[trigger] places_before(
                slotted,
                n,
            )[k]).0 < n && 0 <= places_before(slotted, n)[k].1 < slotted[places_before(
                slotted,
                n,
            )[k].0].len(),
    decreases n,
{
    if n > 0 {
        lemma_places(slotted, n - 1);
        let prev = places_before(slotted, n - 1);
        let cur = places_before(slotted, n);
        assert forall|k: int| 0 <= k < cur.len() implies 0 <= (#[trigger] cur[k]).0 < n && 0
            <= cur[k].1 < slotted[cur[k].0].len() by {
            if k < prev.len() {
                assert(cur[k] == prev[k]);
            } else {
                assert(cur[k] == line_places(slotted, n - 1)[k - prev.len()]);
            }
        }
    }
}

proof fn lemma_places_grow(slotted: Seq<Seq<SlotView>>, i: int, j: int)
    requires
        i <= j,
    ensures
        places_before(slotted, i).len() <= places_before(slotted, j).len(),
    decreases j - i,
{
    if i < j {
        lemma_places_grow(slotted, i, j - 1);
    }
}

/// The spans `spans[from..to]`.
fn span_range(spans: &Vec<(Duration, Duration)>, from: usize, to: usize) -> (r: Vec<(Duration, Duration)>)
    requires
        from <= to <= spans@.len(),
    ensures
        span_views(r@) == span_views(spans@).subrange(from as int, to as int),
{
    let mut r: Vec<(Duration, Duration)> = Vec::new();
    let mut k: usize = from;
    while k < to
        invariant
            from <= k <= to <= spans@.len(),
            r@.len() == k - from,
            forall|m: int| 0 <= m < r@.len() ==> #[trigger] r@[m] == spans@[from + m],
        decreases to - k,
    {
        r.push(spans[k]);
        k = k + 1;
    }
    assert(span_views(r@) =~= span_views(spans@).subrange(from as int, to as int));
    r
}

/// The slots of each guide line.
fn slot_lines(guide: &Vec<LyricsLine>) -> (slotted: Vec<Vec<Slot>>)
    ensures
        slotted_views(slotted@) == guide_slots(line_views(guide@)),
        forall|i: int|
            0 <= i < slotted@.len() ==> well_placed(
                #[trigger] slotted_views(slotted@)[i],
                line_views(guide@)[i].2.len(),
            ),
{
    let ghost gv = line_views(guide@);
    let mut slotted: Vec<Vec<Slot>> = Vec::new();
    let mut i: usize = 0;
    while i < guide.len()
        invariant
            gv == line_views(guide@),
            i <= guide@.len(),
            slotted@.len() == i,
            forall|m: int|
                0 <= m < i ==> #[trigger] slot_views(slotted@[m]@) == spec_tokens(gv[m].2),
            forall|m: int| 0 <= m < i ==> well_placed(#[trigger] slot_views(slotted@[m]@), gv[m].2.len()),
        decreases guide@.len() - i,
    {
        assert(gv[i as int].2 == guide@[i as int].text@);
        slotted.push(tokens(&chars_of(guide[i].text.as_str())));
        i = i + 1;
    }
    assert(slotted_views(slotted@) =~= guide_slots(gv));
    slotted
}

/// The places of all slots, line by line.
fn place_list(slotted: &Vec<Vec<Slot>>) -> (places: Vec<(usize, usize)>)
    ensures
        place_views(places@) == spec_places(slotted_views(slotted@)),
{
    let ghost sv = slotted_views(slotted@);
    let mut places: Vec<(usize, usize)> = Vec::new();
    let mut line: usize = 0;
    while line < slotted.len()
        invariant
            sv == slotted_views(slotted@),
            line <= slotted@.len(),
            place_views(places@) == places_before(sv, line as int),
        decreases slotted@.len() - line,
    {
        let ghost before = place_views(places@);
        let mut slot: usize = 0;
        while slot < slotted[line].len()
            invariant
                sv == slotted_views(slotted@),
                line < slotted@.len(),
                slot <= slotted@[line as int]@.len(),
                place_views(places@) == before + line_places(sv, line as int).take(slot as int),
            decreases slotted@[line as int]@.len() - slot,
        {
            let ghost old_views = place_views(places@);
            assert(sv[line as int].len() == slotted@[line as int]@.len());
            places.push((line, slot));
            assert(place_views(places@) =~= old_views.push((line as int, slot as int)));
            assert(line_places(sv, line as int).take(slot + 1) =~= line_places(sv, line as int).take(
                slot as int,
            ).push((line as int, slot as int)));
            slot = slot + 1;
            assert(place_views(places@) =~= before + line_places(sv, line as int).take(slot as int));
        }
        assert(sv[line as int].len() == slotted@[line as int]@.len());
        assert(line_places(sv, line as int).take(slot as int) =~= line_places(sv, line as int));
        line = line + 1;
    }
    places
}

/// The keys of timed keys.
fn sung_key_list(sung: &Vec<Sung>) -> (keys: Vec<String>)
    ensures
        key_views(keys@) == sung_keys(sung_views(sung@)),
{
    let mut keys: Vec<String> = Vec::new();
    let mut k: usize = 0;
    while k < sung.len()
        invariant
            k <= sung@.len(),
            keys@.len() == k,
            forall|m: int| 0 <= m < k ==> #[trigger] keys@[m]@ == sung@[m].key@,
        decreases sung@.len() - k,
    {
        keys.push(sung[k].key.clone());
        k = k + 1;
    }
    assert(key_views(keys@) =~= sung_keys(sung_views(sung@)));
    keys
}

/// The keys at the given places.
fn place_key_list(slotted: &Vec<Vec<Slot>>, places: &Vec<(usize, usize)>) -> (keys: Vec<String>)
    requires
        forall|k: int|
            0 <= k < places@.len() ==> (#[trigger] places@[k]).0 < slotted@.len() && places@[k].1
                < slotted@[places@[k].0 as int]@.len(),
    ensures
        key_views(keys@) == place_keys(slotted_views(slotted@), place_views(places@)),
{
    let mut keys: Vec<String> = Vec::new();
    let mut k: usize = 0;
    while k < places.len()
        invariant
            forall|m: int|
                0 <= m < places@.len() ==> (#[trigger] places@[m]).0 < slotted@.len()
                    && places@[m].1 < slotted@[places@[m].0 as int]@.len(),
            k <= places@.len(),
            keys@.len() == k,
            forall|m: int|
                0 <= m < k ==> #[trigger] keys@[m]@ == slotted@[places@[m].0 as int]@[places@[m].1 as int].key@,
        decreases places@.len() - k,
    {
        let (line, slot) = places[k];
        keys.push(slotted[line][slot].key.clone());
        k = k + 1;
    }
    assert(key_views(keys@) =~= place_keys(slotted_views(slotted@), place_views(places@)));
    keys
}

/// The known span of each place: the span of the sung key paired with it.
fn spans_from_pairs(sung: &Vec<Sung>, pairs: &Vec<(usize, usize)>, count: usize) -> (spans: Vec<Option<(Duration, Duration)>>)
    requires
        forall|k: int|
            0 <= k < pairs@.len() ==> (#[trigger] pairs@[k]).0 < sung@.len() && pairs@[k].1 < count,
    ensures
        opt_span_views(spans@) == paired_spans(
            sung_views(sung@),
            pair_views(pairs@),
            count as nat,
            pairs@.len() as int,
        ),
{
    let ghost sv = sung_views(sung@);
    let ghost pv = pair_views(pairs@);
    let mut spans: Vec<Option<(Duration, Duration)>> = Vec::new();
    let mut p: usize = 0;
    while p < count
        invariant
            p <= count,
            spans@.len() == p,
            forall|m: int| 0 <= m < p ==> #[trigger] spans@[m] is None,
        decreases count - p,
    {
        spans.push(None);
        p = p + 1;
    }
    assert(opt_span_views(spans@) =~= paired_spans(sv, pv, count as nat, 0));
    let mut k: usize = 0;
    while k < pairs.len()
        invariant
            sv == sung_views(sung@),
            pv == pair_views(pairs@),
            forall|j: int|
                0 <= j < pairs@.len() ==> (#[trigger] pairs@[j]).0 < sung@.len() && pairs@[j].1 < count,
            k <= pairs@.len(),
            spans@.len() == count,
            opt_span_views(spans@) == paired_spans(sv, pv, count as nat, k as int),
        decreases pairs@.len() - k,
    {
        let (word, place) = pairs[k];
        let ghost before = opt_span_views(spans@);
        spans.set(place, Some((sung[word].start, sung[word].end)));
        k = k + 1;
        assert(opt_span_views(spans@) =~= before.update(
            place as int,
            Some((sv[word as int].0, sv[word as int].1)),
        ));
    }
    spans
}

/// The conformed lines of the guide, each guide line with slots taking its
/// slots' spans in turn.
fn conformed(guide: &Vec<LyricsLine>, slotted: &Vec<Vec<Slot>>, spans: &Vec<(Duration, Duration)>) -> (lines: Vec<LyricsLine>)
    requires
        slotted@.len() == guide@.len(),
        spans@.len() == spec_places(slotted_views(slotted@)).len(),
        forall|i: int|
            0 <= i < slotted@.len() ==> well_placed(
                #[trigger] slotted_views(slotted@)[i],
                line_views(guide@)[i].2.len(),
            ),
    ensures
        line_views(lines@) == conformed_lines(
            line_views(guide@),
            slotted_views(slotted@),
            span_views(spans@),
            guide@.len() as int,
        ),
{
    let ghost gv = line_views(guide@);
    let ghost sv = slotted_views(slotted@);
    let ghost pv = span_views(spans@);
    let mut lines: Vec<LyricsLine> = Vec::new();
    let mut cursor: usize = 0;
    let mut index: usize = 0;
    while index < guide.len()
        invariant
            gv == line_views(guide@),
            sv == slotted_views(slotted@),
            pv == span_views(spans@),
            slotted@.len() == guide@.len(),
            spans@.len() == spec_places(sv).len(),
            forall|i: int| 0 <= i < slotted@.len() ==> well_placed(#[trigger] sv[i], gv[i].2.len()),
            index <= guide@.len(),
            cursor == places_before(sv, index as int).len(),
            line_views(lines@) == conformed_lines(gv, sv, pv, index as int),
        decreases guide@.len() - index,
    {
        let line = &guide[index];
        let slots = &slotted[index];
        let ghost ss = sv[index as int];
        assert(ss == slot_views(slots@));
        assert(gv[index as int] == line@);
        proof {
            lemma_places_grow(sv, index + 1, sv.len() as int);
        }
        assert(places_before(sv, index + 1).len() == cursor + ss.len());
        assert(ss.len() == slots@.len());
        assert(places_before(sv, sv.len() as int) == spec_places(sv));
        let total = spans.len();
        assert(cursor + ss.len() <= total);
        if slots.len() > 0 {
            let mine = span_range(spans, cursor, cursor + slots.len());
            assert(span_views(mine@).len() == mine@.len());
            let text = chars_of(line.text.as_str());
            assert(well_placed(ss, gv[index as int].2.len()));
            assert forall|k: int| 0 <= k < slots@.len() implies (#[trigger] slots@[k]).at <= text@.len() by {
                assert(ss[k].0 == slots@[k].at);
            }
            let words = worded_from(&text, slots, &mine);
            let ghost wv = word_views(words@);
            assert(wv.len() == slots@.len());
            assert(wv[0] == words@[0]@);
            let start = words[0].start;
            let mut end = words[0].end;
            let mut w: usize = 1;
            while w < words.len()
                invariant
                    wv == word_views(words@),
                    1 <= w <= words@.len(),
                    end@ == max_end(wv, w as int),
                decreases words@.len() - w,
            {
                assert(wv[w as int] == words@[w as int]@);
                end = end.max(words[w].end);
                w = w + 1;
            }
            let built = LyricsLine {
                start,
                end: Some(end.max(start)),
                text: line.text.clone(),
                romanized: None,
                words: Some(words),
                secondary: Vec::new(),
                voice: Voice::Lead,
            };
            assert(crate::model::lane_views(built.secondary@) =~= Seq::empty());
            let ghost before = line_views(lines@);
            lines.push(built);
            assert(line_views(lines@) =~= before.push(built@));
            cursor = cursor + slots.len();
        }
        index = index + 1;
    }
    lines
}

/// Conforms a word-timed sheet to a guide sheet: the guide's lines and text,
/// each guide word timed by the sung key aligned with it, gaps filled in.
/// The lines come out in guide order exactly as built: no further
/// normalisation pass (such as re-sorting lines or repairing their end
/// times) is applied to them.
pub fn conform(worded: &Lyrics, guide: &Lyrics) -> (r: Option<Lyrics>)
    ensures
        r is Some <==> spec_conform(*worded, *guide) is Some,
        r matches Some(l) ==> synced_views(l) == spec_conform(*worded, *guide),
{
    let guide_lines = match guide {
        Lyrics::Synced { lines } => lines,
        Lyrics::Plain { .. } => {
            return None;
        },
    };
    let worded_lines = match worded {
        Lyrics::Synced { lines } => lines,
        Lyrics::Plain { .. } => {
            return None;
        },
    };
    let ghost gv = line_views(guide_lines@);
    let ghost wv = line_views(worded_lines@);
    if guide_lines.len() == 0 || worded_lines.len() == 0 {
        return None;
    }
    if !sheet_is_countable(worded_lines) {
        return None;
    }
    let sung = sung(worded_lines);
    let ghost uv = sung_views(sung@);
    let slotted = slot_lines(guide_lines);
    let ghost sv = slotted_views(slotted@);
    let places = place_list(&slotted);
    let ghost lv = place_views(places@);
    if sung.len() < 6 || places.len() < 6 || sung.len() > 3000 || places.len() > 3000 {
        return None;
    }
    assert(sung@.len() * places@.len() <= 9_000_000) by (nonlinear_arith)
        requires
            sung@.len() <= 3000,
            places@.len() <= 3000,
    ;
    if sung.len() * places.len() > 2_000_000 {
        return None;
    }
    proof {
        lemma_places(sv, sv.len() as int);
        assert forall|k: int| 0 <= k < places@.len() implies (#[trigger] places@[k]).0
            < slotted@.len() && places@[k].1 < slotted@[places@[k].0 as int]@.len() by {
            assert(lv[k] == spec_places(sv)[k]);
            assert(sv[places@[k].0 as int].len() == slotted@[places@[k].0 as int]@.len());
        }
    }
    let left = sung_key_list(&sung);
    let right = place_key_list(&slotted, &places);
    let pairs = paired(&left, &right);
    let ghost pv = pair_views(pairs@);
    proof {
        crate::align::lemma_trace_is_matching(key_views(left@), key_views(right@), 0, 0);
        assert forall|k: int| 0 <= k < pairs@.len() implies (#[trigger] pairs@[k]).0 < sung@.len()
            && pairs@[k].1 < places@.len() by {
            assert(pv[k] == (pairs@[k].0 as int, pairs@[k].1 as int));
        }
    }
    if pairs.len() < 6 || 10 * pairs.len() < 7 * places.len() || 2 * pairs.len() < sung.len() || !seated(
        &pairs,
        &places,
        &slotted,
    ) {
        return None;
    }
    if !all_weigh_in(&slotted) {
        return None;
    }
    let known = spans_from_pairs(&sung, &pairs, places.len());
    let hinted = hints(guide_lines, &slotted);
    let spans = filled(known, &hinted);
    proof {
        lemma_filled_keeps_and_orders(
            paired_spans(uv, pv, places@.len() as nat, pv.len() as int),
            span_views(hinted@),
        );
        lemma_paired_spans_len(uv, pv, places@.len() as nat, pv.len() as int);
    }
    let lines = conformed(guide_lines, &slotted, &spans);
    if lines.len() < 2 {
        return None;
    }
    Some(Lyrics::Synced { lines })
}

/// Whether the slot weight of every line can be counted in 64 bits.
fn all_weigh_in(slotted: &Vec<Vec<Slot>>) -> (b: bool)
    ensures
        b == weights_fit(slotted_views(slotted@)),
{
    let ghost sv = slotted_views(slotted@);
    let mut i: usize = 0;
    while i < slotted.len()
        invariant
            sv == slotted_views(slotted@),
            i <= slotted@.len(),
            forall|m: int|
                0 <= m < i ==> slot_weight(#[trigger] sv[m], sv[m].len() as int)
                    < 0x1_0000_0000_0000_0000,
        decreases slotted@.len() - i,
    {
        assert(sv[i as int] == slot_views(slotted@[i as int]@));
        if !slots_weigh_in(&slotted[i]) {
            assert(!weights_fit(sv));
            return false;
        }
        i = i + 1;
    }
    true
}

proof fn lemma_paired_spans_len(sung: Seq<WordView>, pairs: Seq<(int, int)>, count: nat, n: int)
    requires
        n <= pairs.len(),
        forall|k: int| 0 <= k < pairs.len() ==> 0 <= (#[trigger] pairs[k]).1 < count,
    ensures
        paired_spans(sung, pairs, count, n).len() == count,
    decreases n,
{
    if n > 0 {
        lemma_paired_spans_len(sung, pairs, count, n - 1);
    }
}

} // verus!
