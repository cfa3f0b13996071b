//! Timed keys: where each key of a sheet is sung, either from the words'
//! own timings or spread over its line in proportion to the keys' lengths.

use vstd::prelude::*;
use crate::estimate::{most, minus};
use crate::model::{
    LyricsWord, LyricsLine, WordView, LineView, LaneView, word_views, line_views, lacks_word_views,
    lacks_word_timings,
};
use crate::text::chars_of;
use crate::time::{Duration, MAX_NANOS, lemma_duration_bounded, rounded_share, lemma_rounded_share};
use crate::tokens::{SlotView, slot_views, spec_tokens, tokens};

verus! {

broadcast use lemma_duration_bounded;

/// A key with the time span in which it is sung.
pub struct Sung {
    pub start: Duration,
    pub end: Duration,
    pub key: String,
}

impl View for Sung {
    type V = WordView;

    open spec fn view(&self) -> WordView {
        (self.start@, self.end@, self.key@)
    }
}

/// The views of a sequence of sung keys.
pub open spec fn sung_views(s: Seq<Sung>) -> Seq<WordView> {
    s.map_values(|x: Sung| x@)
}

/// The keys of one timed word, each sung over the whole word.
pub open spec fn word_keys(w: WordView) -> Seq<WordView> {
    let slots = spec_tokens(w.2);
    Seq::new(slots.len(), |k: int| (w.0, most(w.1, w.0), slots[k].1))
}

/// The keys of timed words, in order.
pub open spec fn spec_timed(ws: Seq<WordView>) -> Seq<WordView>
    decreases ws.len(),
{
    if ws.len() == 0 {
        Seq::empty()
    } else {
        spec_timed(ws.drop_last()) + word_keys(ws.last())
    }
}

/// Appends `extra` to `out`.
fn append_sung(out: &mut Vec<Sung>, extra: Vec<Sung>)
    ensures
        sung_views(final(out)@) == sung_views(old(out)@) + sung_views(extra@),
{
    let mut extra = extra;
    let ghost e = extra@;
    out.append(&mut extra);
    assert(sung_views(out@) =~= sung_views(old(out)@) + sung_views(e));
}

/// The keys of timed words, each sung over its word.
pub fn timed(words: &Vec<LyricsWord>) -> (sung: Vec<Sung>)
    ensures
        sung_views(sung@) == spec_timed(word_views(words@)),
{
    let mut sung: Vec<Sung> = Vec::new();
    let mut i: usize = 0;
    while i < words.len()
        invariant
            i <= words@.len(),
            sung_views(sung@) == spec_timed(word_views(words@.take(i as int))),
        decreases words@.len() - i,
    {
        let word = &words[i];
        let slots = tokens(&chars_of(word.text.as_str()));
        let mut own: Vec<Sung> = Vec::new();
        let mut k: usize = 0;
        while k < slots.len()
            invariant
                k <= slots@.len(),
                own@.len() == k,
                forall|m: int|
                    0 <= m < k ==> #[trigger] own@[m]@ == (
                        word.start@,
                        most(word.end@, word.start@),
                        slots@[m]@.1,
                    ),
            decreases slots@.len() - k,
        {
            own.push(Sung { start: word.start, end: word.end.max(word.start), key: slots[k].key.clone() });
            k = k + 1;
        }
        assert(sung_views(own@) =~= word_keys(word@));
        append_sung(&mut sung, own);
        i = i + 1;
        assert(word_views(words@.take(i as int)).drop_last() =~= word_views(words@.take(i - 1)));
        assert(word_views(words@.take(i as int)).last() == word@);
    }
    assert(words@.take(i as int) =~= words@);
    sung
}

/// The characters in the first `n` keys.
pub open spec fn key_chars(slots: Seq<SlotView>, n: int) -> nat
    decreases n,
{
    if n <= 0 {
        0
    } else {
        key_chars(slots, n - 1) + slots[n - 1].1.len()
    }
}

/// Whether the key characters of `text` can be counted in 64 bits.
pub open spec fn countable(text: Seq<char>) -> bool {
    key_chars(spec_tokens(text), spec_tokens(text).len() as int) < 0x1_0000_0000_0000_0000
}

/// The keys of `text` spread over `start..end`, each taking a share of the
/// span in proportion to its length in characters, rounded to the nearest
/// nanosecond.
pub open spec fn spec_spread(text: Seq<char>, start: nat, end: nat) -> Seq<WordView> {
    let slots = spec_tokens(text);
    let total = key_chars(slots, slots.len() as int);
    let span = minus(end, start);
    if total == 0 {
        Seq::empty()
    } else {
        Seq::new(
            slots.len(),
            |k: int|
                (
                    start + rounded_share(span, key_chars(slots, k), total),
                    start + rounded_share(span, key_chars(slots, k + 1), total),
                    slots[k].1,
                ),
        )
    }
}

pub(crate) proof fn lemma_key_chars_monotone(slots: Seq<SlotView>, i: int, j: int)
    requires
        i <= j,
    ensures
        key_chars(slots, i) <= key_chars(slots, j),
    decreases j - i,
{
    if i < j {
        lemma_key_chars_monotone(slots, i, j - 1);
    }
}

/// A rounded share of a span grows with the share and is at most the span.
pub proof fn lemma_share_monotone(span: nat, a: nat, b: nat, total: nat)
    requires
        a <= b <= total,
        total > 0,
    ensures
        rounded_share(span, a, total) <= rounded_share(span, b, total),
        rounded_share(span, b, total) <= span,
{
    lemma_rounded_share(span, a, b, total);
}

/// Spread keys tile the span: the first starts at `start`, each starts no
/// later than it ends and ends where the next starts, and the last ends at
/// `end` (or at `start` when `end` comes first).
pub proof fn lemma_spread_tiles(text: Seq<char>, start: nat, end: nat)
    requires
        spec_spread(text, start, end).len() > 0,
    ensures
        ({
            let r = spec_spread(text, start, end);
            &&& r[0].0 == start
            &&& forall|k: int| 0 <= k < r.len() ==> (#[trigger] r[k]).0 <= r[k].1
            &&& forall|k: int| 0 < k < r.len() ==> r[k - 1].1 == (#[trigger] r[k]).0
            &&& r[r.len() - 1].1 == start + minus(end, start)
        }),
{
    let slots = spec_tokens(text);
    let total = key_chars(slots, slots.len() as int);
    let span = minus(end, start);
    let r = spec_spread(text, start, end);
    lemma_rounded_share(span, 0, total, total);
    assert(key_chars(slots, 0) == 0);
    assert forall|k: int| 0 <= k < r.len() implies (#[trigger] r[k]).0 <= r[k].1 by {
        lemma_key_chars_monotone(slots, k, k + 1);
        lemma_key_chars_monotone(slots, k + 1, slots.len() as int);
        lemma_share_monotone(span, key_chars(slots, k), key_chars(slots, k + 1), total);
    }
}

/// The number of characters in `s`.
pub(crate) fn char_count(s: &String) -> (n: usize)
    ensures
        n == s@.len(),
{
    chars_of(s.as_str()).len()
}

/// Spreads the keys of `text` over `start..end` by length.
pub fn spread(text: &String, start: Duration, end: Duration) -> (sung: Vec<Sung>)
    requires
        countable(text@),
        end@ <= MAX_NANOS,
    ensures
        sung_views(sung@) == spec_spread(text@, start@, end@),
{
    let slots = tokens(&chars_of(text.as_str()));
    let ghost sv = slot_views(slots@);
    let mut total: u64 = 0;
    let mut k: usize = 0;
    while k < slots.len()
        invariant
            sv == slot_views(slots@),
            sv == spec_tokens(text@),
            countable(text@),
            k <= slots@.len(),
            total == key_chars(sv, k as int),
        decreases slots@.len() - k,
    {
        proof {
            lemma_key_chars_monotone(sv, k + 1, sv.len() as int);
        }
        total = total + char_count(&slots[k].key) as u64;
        k = k + 1;
    }
    if total == 0 {
        let none: Vec<Sung> = Vec::new();
        assert(sung_views(none@) =~= spec_spread(text@, start@, end@));
        return none;
    }
    let span = end.saturating_sub(start);
    let mut sung: Vec<Sung> = Vec::new();
    let mut passed: u64 = 0;
    let mut k: usize = 0;
    while k < slots.len()
        invariant
            sv == slot_views(slots@),
            sv == spec_tokens(text@),
            k <= slots@.len(),
            total == key_chars(sv, sv.len() as int),
            total > 0,
            passed == key_chars(sv, k as int),
            span@ == minus(end@, start@),
            start@ + span@ <= MAX_NANOS || span@ == 0,
            sung@.len() == k,
            forall|m: int|
                0 <= m < k ==> #[trigger] sung@[m]@ == spec_spread(text@, start@, end@)[m],
        decreases slots@.len() - k,
    {
        let length = char_count(&slots[k].key) as u64;
        proof {
            lemma_key_chars_monotone(sv, k as int, k + 1);
            lemma_key_chars_monotone(sv, k + 1, sv.len() as int);
            lemma_share_monotone(span@, passed as nat, (passed + length) as nat, total as nat);
        }
        let from = start.plus(span.scaled(passed, total));
        passed = passed + length;
        let to = start.plus(span.scaled(passed, total));
        sung.push(Sung { start: from, end: to, key: slots[k].key.clone() });
        k = k + 1;
    }
    assert(sung_views(sung@) =~= spec_spread(text@, start@, end@));
    sung
}

/// When line `i` of a sheet ends: its own end, else the next line's start,
/// else its start; never before its start.
pub open spec fn line_until(lines: Seq<LineView>, i: int) -> nat {
    let l = lines[i];
    let until = match l.1 {
        Some(e) => e,
        None => if i + 1 < lines.len() {
            lines[i + 1].0
        } else {
            l.0
        },
    };
    most(until, l.0)
}

/// The timed keys of a lane: from its words when it has some, else spread
/// over the lane.
pub open spec fn lane_keys(lane: LaneView) -> Seq<WordView> {
    if !lacks_word_views(lane.3) {
        spec_timed(lane.3->0)
    } else {
        let until = match lane.1 {
            Some(e) => e,
            None => lane.0,
        };
        spec_spread(lane.2, lane.0, most(until, lane.0))
    }
}

/// The timed keys of the first `n` lanes.
pub open spec fn lanes_keys(lanes: Seq<LaneView>, n: int) -> Seq<WordView>
    decreases n,
{
    if n <= 0 {
        Seq::empty()
    } else {
        lanes_keys(lanes, n - 1) + lane_keys(lanes[n - 1])
    }
}

/// The timed keys of line `i` of a sheet, followed by those of its lanes.
pub open spec fn line_keys(lines: Seq<LineView>, i: int) -> Seq<WordView> {
    let l = lines[i];
    let own = if !lacks_word_views(l.4) {
        spec_timed(l.4->0)
    } else {
        spec_spread(l.2, l.0, line_until(lines, i))
    };
    own + lanes_keys(l.5, l.5.len() as int)
}

/// The timed keys of the first `n` lines of a sheet.
pub open spec fn spec_sung(lines: Seq<LineView>, n: int) -> Seq<WordView>
    decreases n,
{
    if n <= 0 {
        Seq::empty()
    } else {
        spec_sung(lines, n - 1) + line_keys(lines, n - 1)
    }
}

/// A line without word timings has its keys spread from its start to its
/// end; without an end of its own, to the start of the line after it; and
/// as the last line without an end, at its start. The spread keys tile that
/// span: the first starts at the line's start, each ends where the next
/// starts, and the last ends at the end of the span.
pub proof fn lemma_unworded_line_span(lines: Seq<LineView>, i: int)
    requires
        0 <= i < lines.len(),
        lacks_word_views(lines[i].4),
        key_chars(spec_tokens(lines[i].2), spec_tokens(lines[i].2).len() as int) > 0,
    ensures
        ({
            let l = lines[i];
            let keys = line_keys(lines, i);
            let m = spec_tokens(l.2).len() as int;
            &&& 0 < m <= keys.len()
            &&& keys[0].0 == l.0
            &&& forall|k: int| 0 <= k < m - 1 ==> #[trigger] keys[k].1 == keys[k + 1].0
            &&& forall|k: int| 0 <= k < m ==> l.0 <= #[trigger] keys[k].0 <= keys[k].1
            &&& (l.1 is Some && l.1->0 >= l.0) ==> keys[m - 1].1 == l.1->0
            &&& (l.1 is None && i + 1 < lines.len() && lines[i + 1].0 >= l.0) ==> keys[m - 1].1
                == lines[i + 1].0
            &&& (l.1 is None && i + 1 == lines.len()) ==> keys[m - 1].1 == l.0
        }),
{
    let l = lines[i];
    let r = spec_spread(l.2, l.0, line_until(lines, i));
    lemma_spread_tiles(l.2, l.0, line_until(lines, i));
    let keys = line_keys(lines, i);
    assert forall|k: int| 0 <= k < r.len() implies #[trigger] keys[k] == r[k] by {}
    assert forall|k: int| 0 <= k < r.len() implies l.0 <= #[trigger] keys[k].0 by {
        let slots = spec_tokens(l.2);
        lemma_key_chars_monotone(slots, 0, k);
    }
}

/// A lane without word timings has its keys spread from its start to its
/// end, or all at its start when it has no end: the first starts at the
/// lane's start, each ends where the next starts, and the last ends there.
pub proof fn lemma_unworded_lane_span(lane: LaneView)
    requires
        lacks_word_views(lane.3),
        key_chars(spec_tokens(lane.2), spec_tokens(lane.2).len() as int) > 0,
    ensures
        ({
            let keys = lane_keys(lane);
            let m = keys.len();
            &&& m == spec_tokens(lane.2).len() && m > 0
            &&& keys[0].0 == lane.0
            &&& forall|k: int| 0 <= k < m - 1 ==> #[trigger] keys[k].1 == keys[k + 1].0
            &&& (lane.1 is Some && lane.1->0 >= lane.0) ==> keys[m - 1].1 == lane.1->0
            &&& lane.1 is None ==> keys[m - 1].1 == lane.0
        }),
{
    let until = match lane.1 {
        Some(e) => e,
        None => lane.0,
    };
    lemma_spread_tiles(lane.2, lane.0, most(until, lane.0));
}

/// Whether every text that has to be spread has a countable number of key
/// characters.
pub open spec fn sheet_countable(lines: Seq<LineView>) -> bool {
    &&& forall|i: int|
        0 <= i < lines.len() && lacks_word_views(lines[i].4) ==> countable(#[trigger] lines[i].2)
    &&& forall|i: int, j: int|
        0 <= i < lines.len() && 0 <= j < lines[i].5.len() && lacks_word_views(
            #[trigger] lines[i].5[j].3,
        ) ==> countable(lines[i].5[j].2)
}

/// The timed keys of a sheet: for each line, its keys and then its lanes'.
pub fn sung(lines: &Vec<LyricsLine>) -> (sung: Vec<Sung>)
    requires
        sheet_countable(line_views(lines@)),
    ensures
        sung_views(sung@) == spec_sung(line_views(lines@), lines@.len() as int),
{
    let ghost lv = line_views(lines@);
    let mut sung: Vec<Sung> = Vec::new();
    let mut index: usize = 0;
    while index < lines.len()
        invariant
            lv == line_views(lines@),
            sheet_countable(lv),
            index <= lines@.len(),
            sung_views(sung@) == spec_sung(lv, index as int),
        decreases lines@.len() - index,
    {
        let line = &lines[index];
        assert(lv[index as int] == line@);
        let own = if !lacks_word_timings(&line.words) {
            match &line.words {
                Some(words) => timed(words),
                None => Vec::new(),
            }
        } else {
            let until = match line.end {
                Some(e) => e,
                None => if index + 1 < lines.len() {
                    lines[index + 1].start
                } else {
                    line.start
                },
            };
            assert(lacks_word_views(lv[index as int].4));
            assert(countable(lv[index as int].2));
            spread(&line.text, line.start, until.max(line.start))
        };
        assert(sung_views(own@) == if !lacks_word_views(lv[index as int].4) {
            spec_timed(lv[index as int].4->0)
        } else {
            spec_spread(lv[index as int].2, lv[index as int].0, line_until(lv, index as int))
        });
        append_sung(&mut sung, own);
        let mut j: usize = 0;
        while j < line.secondary.len()
            invariant
                lv == line_views(lines@),
                sheet_countable(lv),
                index < lines@.len(),
                line == &lines@[index as int],
                j <= line.secondary@.len(),
                sung_views(sung@) == spec_sung(lv, index as int) + (if !lacks_word_views(
                    lv[index as int].4,
                ) {
                    spec_timed(lv[index as int].4->0)
                } else {
                    spec_spread(lv[index as int].2, lv[index as int].0, line_until(lv, index as int))
                }) + lanes_keys(lv[index as int].5, j as int),
            decreases line.secondary@.len() - j,
        {
            let lane = &line.secondary[j];
            assert(lv[index as int].5[j as int] == lane@);
            let keys = if !lacks_word_timings(&lane.words) {
                match &lane.words {
                    Some(words) => timed(words),
                    None => Vec::new(),
                }
            } else {
                let until = match lane.end {
                    Some(e) => e,
                    None => lane.start,
                };
                assert(lacks_word_views(lv[index as int].5[j as int].3));
                assert(countable(lv[index as int].5[j as int].2));
                spread(&lane.text, lane.start, until.max(lane.start))
            };
            append_sung(&mut sung, keys);
            j = j + 1;
            assert(sung_views(sung@) =~= spec_sung(lv, index as int) + (if !lacks_word_views(
                lv[index as int].4,
            ) {
                spec_timed(lv[index as int].4->0)
            } else {
                spec_spread(lv[index as int].2, lv[index as int].0, line_until(lv, index as int))
            }) + lanes_keys(lv[index as int].5, j as int));
        }
        index = index + 1;
        assert(sung_views(sung@) =~= spec_sung(lv, index as int));
    }
    sung
}

} // verus!
