//! Estimating word-by-word timestamps for synced lines that carry none.
//!
//! A line is cut into fragments, each fragment is weighted by its syllables
//! (doubled), a pause after trailing punctuation and a hold on the final word,
//! and the line's singing time is shared among the fragments by weight. The
//! words tile the singing time: each starts where the previous one ends.
//! Shares are whole nanoseconds, rounded to the nearest; the final word ends
//! at the end of the singing time (or where it starts, if the rounded shares
//! before it run past that).

use vstd::prelude::*;
use crate::fragments::{spec_fragments, plain_lyrics_fragments, views, joined, lemma_fragments_rejoin};
use crate::model::{
    LyricsWord, LyricsLane, LyricsLine, WordView, LaneView, LineView, word_views, opt_word_views,
    opt_nanos, lane_views, line_views, lacks_word_views, lacks_word_timings,
    copy_opt_words, copy_opt_string,
};
use crate::syllables::{spec_syllables, count_syllables};
use crate::text::{trimmed, trim, chars_of};
use crate::time::{Duration, MAX_NANOS, lemma_duration_bounded, rounded_share, lemma_rounded_share};

verus! {

broadcast use lemma_duration_bounded;

/// `n` seconds, in nanoseconds.
pub open spec fn secs(n: nat) -> nat {
    n * 1_000_000_000
}

/// `n` milliseconds, in nanoseconds.
pub open spec fn millis(n: nat) -> nat {
    n * 1_000_000
}

/// Whether `s` ends with the character `c`.
pub open spec fn ends_in(s: Seq<char>, c: char) -> bool {
    s.len() >= 1 && s[s.len() - 1] == c
}

/// Whether `s` ends with an ellipsis written as three full stops.
pub open spec fn ends_in_dots(s: Seq<char>) -> bool {
    s.len() >= 3 && s[s.len() - 1] == '.' && s[s.len() - 2] == '.' && s[s.len() - 3] == '.'
}

/// The pause a trailing punctuation mark adds to a word, in half units:
/// a comma, semicolon or colon, and a closing `!`, `?` or `.`, add one unit;
/// an ellipsis or a dash adds one and a half.
pub open spec fn punctuation_weight(clean: Seq<char>) -> nat {
    if ends_in(clean, ',') || ends_in(clean, ';') || ends_in(clean, ':') {
        2
    } else if ends_in_dots(clean) || ends_in(clean, '—') || ends_in(clean, '-') {
        3
    } else if ends_in(clean, '!') || ends_in(clean, '?') || ends_in(clean, '.') {
        2
    } else {
        0
    }
}

/// The pause a trailing mark adds, whatever comes before it: a comma,
/// semicolon, colon, `!` or `?` adds 2 half units, a dash (`-` or `—`) or an
/// ellipsis of three full stops adds 3, a single closing full stop adds 2,
/// and any other final character adds nothing.
pub proof fn lemma_punctuation_pauses(s: Seq<char>, c: char)
    ensures
        punctuation_weight(s.push(',')) == 2,
        punctuation_weight(s.push(';')) == 2,
        punctuation_weight(s.push(':')) == 2,
        punctuation_weight(s.push('!')) == 2,
        punctuation_weight(s.push('?')) == 2,
        punctuation_weight(s.push('-')) == 3,
        punctuation_weight(s.push('—')) == 3,
        punctuation_weight(s + seq!['.', '.', '.']) == 3,
        !(s.len() >= 2 && s[s.len() - 1] == '.' && s[s.len() - 2] == '.') ==> punctuation_weight(
            s.push('.'),
        ) == 2,
        !set![',', ';', ':', '!', '?', '-', '—', '.'].contains(c) ==> punctuation_weight(s.push(c))
            == 0,
        punctuation_weight(Seq::empty()) == 0,
{
    let dots = s + seq!['.', '.', '.'];
    assert(dots[dots.len() - 1] == '.' && dots[dots.len() - 2] == '.' && dots[dots.len() - 3] == '.');
}

/// The syllables of fragment `k`, trimmed.
pub open spec fn fragment_syllables(fs: Seq<Seq<char>>, k: int) -> nat {
    spec_syllables(trimmed(fs[k]))
}

/// The weight of fragment `k`, in half units: two units per syllable, the
/// punctuation pause, and one and a half units more for the final fragment.
pub open spec fn fragment_weight(fs: Seq<Seq<char>>, k: int) -> nat {
    4 * fragment_syllables(fs, k) + punctuation_weight(trimmed(fs[k])) + if k + 1 == fs.len() {
        3nat
    } else {
        0nat
    }
}

/// The syllables of the first `n` fragments.
pub open spec fn syllables_before(fs: Seq<Seq<char>>, n: int) -> nat
    decreases n,
{
    if n <= 0 {
        0
    } else {
        syllables_before(fs, n - 1) + fragment_syllables(fs, n - 1)
    }
}

/// The weight of the first `n` fragments.
pub open spec fn weight_before(fs: Seq<Seq<char>>, n: int) -> nat
    decreases n,
{
    if n <= 0 {
        0
    } else {
        weight_before(fs, n - 1) + fragment_weight(fs, n - 1)
    }
}

/// The syllables of a whole line.
pub open spec fn line_syllables(text: Seq<char>) -> nat {
    let fs = spec_fragments(text);
    syllables_before(fs, fs.len() as int)
}

/// Whether the line's syllable count, at 320 ms each plus 400 ms, can be
/// counted in `u64` milliseconds.
pub open spec fn syllable_budget(text: Seq<char>) -> bool {
    line_syllables(text) * 320 + 400 <= u64::MAX
}

/// `a - b`, or zero.
pub open spec fn minus(a: nat, b: nat) -> nat {
    if a >= b {
        (a - b) as nat
    } else {
        0
    }
}

/// The lesser of two values.
pub open spec fn least(a: nat, b: nat) -> nat {
    if a <= b {
        a
    } else {
        b
    }
}

/// The greater of two values.
pub open spec fn most(a: nat, b: nat) -> nat {
    if a >= b {
        a
    } else {
        b
    }
}

/// The time a line has: until its end or the next line's start, whichever
/// comes first, or four seconds when neither is known.
pub open spec fn available_time(start: nat, end: Option<nat>, next: Option<nat>) -> nat {
    match (end, next) {
        (Some(e), Some(n)) => minus(least(e, n), start),
        (Some(e), None) => minus(e, start),
        (None, Some(n)) => minus(n, start),
        (None, None) => secs(4),
    }
}

/// The time the syllables take: 320 ms each, plus 400 ms.
pub open spec fn estimated_time(syllables: nat) -> nat {
    millis(syllables * 320 + 400)
}

/// How long the line is sung. When time is short, nearly all of it (less a
/// pause of 8%, at most 200 ms), but at least 400 ms; when it is long (at
/// least 7 s and 3 s beyond the estimate), the estimate stretched by a
/// quarter, leaving at least 2 s; otherwise nearly all of it (less a pause of
/// 8%, at most 280 ms), but at least the estimate.
pub open spec fn singing_time(available: nat, estimated: nat) -> nat {
    if available <= estimated {
        let pause = least(millis(200), rounded_share(available, 8, 100));
        most(minus(available, pause), millis(400))
    } else if available >= secs(7) && available >= estimated + secs(3) {
        least(rounded_share(estimated, 5, 4), minus(available, secs(2)))
    } else {
        let pause = least(millis(280), rounded_share(available, 8, 100));
        most(minus(available, pause), estimated)
    }
}

/// How long a line is sung, in nanoseconds, given the time it has and its
/// syllables, which are estimated at 320 ms each plus 400 ms. When the time
/// is no more than the estimate, all of it less a pause of 8% (at most
/// 200 ms), but at least 400 ms; when it is at least 7 s and 3 s beyond the
/// estimate, the estimate stretched by a quarter, but leaving 2 s; otherwise
/// all of it less a pause of 8% (at most 280 ms), but at least the estimate.
/// A line with neither an end nor a next line has 4 s.
pub proof fn lemma_singing_cases(text: Seq<char>, start: nat, end: Option<nat>, next: Option<nat>)
    ensures
        ({
            let available = available_time(start, end, next);
            let estimated = (line_syllables(text) * 320 + 400) * 1_000_000;
            let singing = line_singing_time(text, start, end, next);
            let pause8 = rounded_share(available, 8, 100);
            &&& end is None && next is None ==> available == 4_000_000_000
            &&& available <= estimated ==> singing == most(
                minus(available, least(200_000_000, pause8)),
                400_000_000,
            )
            &&& (available > estimated && available >= 7_000_000_000 && available >= estimated
                + 3_000_000_000) ==> singing == least(
                rounded_share(estimated, 5, 4),
                minus(available, 2_000_000_000),
            )
            &&& (available > estimated && (available < 7_000_000_000 || available < estimated
                + 3_000_000_000)) ==> singing == most(
                minus(available, least(280_000_000, pause8)),
                estimated,
            )
        }),
{
}

/// Fragment `k`'s share of the singing time, rounded to the nearest nanosecond.
pub open spec fn share(singing: nat, fs: Seq<Seq<char>>, k: int) -> nat {
    rounded_share(singing, fragment_weight(fs, k), weight_before(fs, fs.len() as int))
}

/// The singing time used by the first `k` fragments.
pub open spec fn elapsed_before(singing: nat, fs: Seq<Seq<char>>, k: int) -> nat
    decreases k,
{
    if k <= 0 {
        0
    } else {
        elapsed_before(singing, fs, k - 1) + share(singing, fs, k - 1)
    }
}

/// The timed word for fragment `k`: it starts when the fragments before it
/// have used their shares, and ends after its own share; the final word ends
/// with the singing time.
pub open spec fn estimated_word(start: nat, singing: nat, fs: Seq<Seq<char>>, k: int) -> WordView {
    let from = start + elapsed_before(singing, fs, k);
    let until = if k + 1 == fs.len() {
        start + singing
    } else {
        from + share(singing, fs, k)
    };
    (from, most(until, from), fs[k])
}

/// Whether every fragment is blank once trimmed.
pub open spec fn all_blank(fs: Seq<Seq<char>>) -> bool {
    forall|k: int| 0 <= k < fs.len() ==> #[trigger] trimmed(fs[k]).len() == 0
}

/// The singing time of a line.
pub open spec fn line_singing_time(text: Seq<char>, start: nat, end: Option<nat>, next: Option<nat>) -> nat {
    singing_time(available_time(start, end, next), estimated_time(line_syllables(text)))
}

/// The estimated words of a line: none when the line has no fragment with
/// text, else one word per fragment, sharing the singing time by weight.
pub open spec fn spec_estimate_line_words(
    text: Seq<char>,
    start: nat,
    end: Option<nat>,
    next: Option<nat>,
) -> Option<Seq<WordView>> {
    let fs = spec_fragments(text);
    if fs.len() == 0 || all_blank(fs) {
        None
    } else if weight_before(fs, fs.len() as int) == 0 {
        None
    } else {
        let singing = line_singing_time(text, start, end, next);
        Some(Seq::new(fs.len(), |k: int| estimated_word(start, singing, fs, k)))
    }
}

proof fn lemma_syllables_positive(fs: Seq<Seq<char>>, k: int)
    ensures
        fragment_syllables(fs, k) >= 1,
{
}

proof fn lemma_syllables_before_monotone(fs: Seq<Seq<char>>, i: int, j: int)
    requires
        i <= j,
    ensures
        syllables_before(fs, i) <= syllables_before(fs, j),
    decreases j - i,
{
    if i < j {
        lemma_syllables_before_monotone(fs, i, j - 1);
    }
}

proof fn lemma_weight_before_monotone(fs: Seq<Seq<char>>, i: int, j: int)
    requires
        i <= j,
    ensures
        weight_before(fs, i) <= weight_before(fs, j),
    decreases j - i,
{
    if i < j {
        lemma_weight_before_monotone(fs, i, j - 1);
    }
}

proof fn lemma_weight_bounded(fs: Seq<Seq<char>>, n: int)
    ensures
        weight_before(fs, n) <= 10 * syllables_before(fs, n),
    decreases n,
{
    if n > 0 {
        lemma_weight_bounded(fs, n - 1);
        lemma_syllables_positive(fs, n - 1);
    }
}

/// `a / d + b / d <= (a + b) / d`, and a share of a part is at most the whole.
proof fn lemma_floor_add(a: nat, b: nat, d: nat)
    requires
        d > 0,
    ensures
        a / d + b / d <= (a + b) / d,
{
    assert(a / d + b / d <= (a + b) / d) by (nonlinear_arith)
        requires
            d > 0,
    ;
}

proof fn lemma_share_of_part(s: nat, w: nat, total: nat)
    requires
        total > 0,
        w <= total,
    ensures
        rounded_share(s, w, total) <= s,
        rounded_share(s, w, total) <= s * w / total + 1,
{
    lemma_rounded_share(s, w, w, total);
}

proof fn lemma_floor_part(s: nat, w: nat, total: nat)
    requires
        total > 0,
        w <= total,
    ensures
        s * w / total <= s,
{
    assert(s * w <= s * total) by (nonlinear_arith)
        requires
            w <= total,
    ;
    assert(s * w / total <= s * total / total) by (nonlinear_arith)
        requires
            s * w <= s * total,
            total > 0,
    ;
    assert(s * total / total == s) by (nonlinear_arith)
        requires
            total > 0,
    ;
}

/// The shares of the first `k` fragments together take at most their
/// weight's part of the singing time, plus one nanosecond per fragment.
proof fn lemma_elapsed_bounded(singing: nat, fs: Seq<Seq<char>>, k: int)
    requires
        weight_before(fs, fs.len() as int) > 0,
        0 <= k <= fs.len(),
    ensures
        elapsed_before(singing, fs, k) <= singing * weight_before(fs, k) / weight_before(
            fs,
            fs.len() as int,
        ) + k,
        elapsed_before(singing, fs, k) <= singing + k,
    decreases k,
{
    let total = weight_before(fs, fs.len() as int);
    lemma_weight_before_monotone(fs, k, fs.len() as int);
    lemma_floor_part(singing, weight_before(fs, k), total);
    if k > 0 {
        lemma_elapsed_bounded(singing, fs, k - 1);
        lemma_weight_before_monotone(fs, k, fs.len() as int);
        let a = singing * weight_before(fs, k - 1);
        let b = singing * fragment_weight(fs, k - 1);
        lemma_floor_add(a, b, total);
        assert(fragment_weight(fs, k - 1) <= total) by {
            lemma_weight_before_monotone(fs, k, fs.len() as int);
        }
        lemma_share_of_part(singing, fragment_weight(fs, k - 1), total);
        assert(a + b == singing * weight_before(fs, k)) by (nonlinear_arith)
            requires
                a == singing * weight_before(fs, k - 1),
                b == singing * fragment_weight(fs, k - 1),
                weight_before(fs, k) == weight_before(fs, k - 1) + fragment_weight(fs, k - 1),
        ;
    }
}

/// The singing time is at most the available time, or 400 ms.
proof fn lemma_singing_bounded(available: nat, estimated: nat)
    ensures
        singing_time(available, estimated) <= most(available, millis(400)),
{
}

fn ends_with_char(s: &Vec<char>, c: char) -> (b: bool)
    ensures
        b == ends_in(s@, c),
{
    s.len() >= 1 && s[s.len() - 1] == c
}

fn punctuation_weight_of(clean: &Vec<char>) -> (w: u64)
    ensures
        w == punctuation_weight(clean@),
{
    let n = clean.len();
    if ends_with_char(clean, ',') || ends_with_char(clean, ';') || ends_with_char(clean, ':') {
        2
    } else if (n >= 3 && clean[n - 1] == '.' && clean[n - 2] == '.' && clean[n - 3] == '.')
        || ends_with_char(clean, '—') || ends_with_char(clean, '-') {
        3
    } else if ends_with_char(clean, '!') || ends_with_char(clean, '?') || ends_with_char(
        clean,
        '.',
    ) {
        2
    } else {
        0
    }
}

/// Whether a timestamp leaves room for the estimate's sums: at most 2^126 ns.
pub open spec fn in_range(d: nat) -> bool {
    d <= 0x4000_0000_0000_0000_0000_0000_0000_0000
}

/// Whether an optional timestamp, if present, is in range.
pub open spec fn opt_in_range(d: Option<nat>) -> bool {
    match d {
        Some(x) => in_range(x),
        None => true,
    }
}

/// Estimates word-by-word timestamps for a line of synced lyrics that lacks word timings.
pub fn estimate_line_words(
    text: &str,
    start: Duration,
    end: Option<Duration>,
    next_start: Option<Duration>,
) -> (words: Option<Vec<LyricsWord>>)
    requires
        syllable_budget(text@),
        in_range(start@),
        opt_in_range(opt_nanos(end)),
        opt_in_range(opt_nanos(next_start)),
    ensures
        opt_word_views(words) == spec_estimate_line_words(
            text@,
            start@,
            opt_nanos(end),
            opt_nanos(next_start),
        ),
{
    let fragments = plain_lyrics_fragments(text);
    let ghost fs = views(fragments@);
    let count = fragments.len();
    assert(fs.len() == count);
    let mut weights: Vec<u64> = Vec::new();
    let mut total_syllables: u64 = 0;
    let mut total_weight: u64 = 0;
    let mut any_text = false;
    let mut k: usize = 0;
    while k < count
        invariant
            fs == spec_fragments(text@),
            fs == views(fragments@),
            count == fragments@.len() == fs.len(),
            k <= count,
            syllable_budget(text@),
            weights@.len() == k,
            forall|j: int| 0 <= j < k ==> #[trigger] weights@[j] == fragment_weight(fs, j),
            total_syllables == syllables_before(fs, k as int),
            total_weight == weight_before(fs, k as int),
            any_text == exists|j: int| 0 <= j < k && #[trigger] trimmed(fs[j]).len() > 0,
        decreases count - k,
    {
        let clean = trim(&chars_of(fragments[k].as_str()));
        assert(clean@ == trimmed(fs[k as int]));
        if clean.len() > 0 {
            any_text = true;
        }
        let syllables = count_syllables(&clean);
        proof {
            lemma_syllables_before_monotone(fs, k + 1, count as int);
            lemma_weight_bounded(fs, k + 1);
        }
        total_syllables = total_syllables + syllables as u64;
        let mut weight: u64 = 4 * (syllables as u64) + punctuation_weight_of(&clean);
        if k + 1 == count {
            weight = weight + 3;
        }
        weights.push(weight);
        total_weight = total_weight + weight;
        k = k + 1;
    }
    if count == 0 || !any_text {
        assert(fs.len() == 0 || all_blank(fs));
        return None;
    }
    let available = match (end, next_start) {
        (Some(end), Some(next)) => end.min(next).saturating_sub(start),
        (Some(end), None) => end.saturating_sub(start),
        (None, Some(next)) => next.saturating_sub(start),
        (None, None) => Duration::from_secs(4),
    };
    let estimated = Duration::from_millis(total_syllables * 320 + 400);
    proof {
        lemma_rounded_share(available@, 8, 100, 100);
        lemma_rounded_share(estimated@, 5, 5, 4);
        assert(estimated@ * 5 / 4 <= 0x1_0000_0000_0000_0000_0000_0000);
    }
    let singing = if available.le(&estimated) {
        let pause = Duration::from_millis(200).min(available.scaled(8, 100));
        available.saturating_sub(pause).max(Duration::from_millis(400))
    } else if Duration::from_secs(7).le(&available) && estimated.plus(Duration::from_secs(3)).le(
        &available,
    ) {
        let max_sing = available.saturating_sub(Duration::from_secs(2));
        estimated.scaled(5, 4).min(max_sing)
    } else {
        let pause = Duration::from_millis(280).min(available.scaled(8, 100));
        available.saturating_sub(pause).max(estimated)
    };
    assert(singing@ == line_singing_time(text@, start@, opt_nanos(end), opt_nanos(next_start)));
    if total_weight == 0 {
        return None;
    }
    proof {
        lemma_singing_bounded(available@, estimated@);
        assert(available@ <= 0x4000_0000_0000_0000_0000_0000_0000_0000 + secs(4));
    }
    let mut words: Vec<LyricsWord> = Vec::new();
    let mut elapsed = Duration::zero();
    let mut index: usize = 0;
    while index < count
        invariant
            fs == spec_fragments(text@),
            fs == views(fragments@),
            count == fragments@.len() == fs.len(),
            index <= count,
            weights@.len() == count,
            forall|j: int| 0 <= j < count ==> #[trigger] weights@[j] == fragment_weight(fs, j),
            total_weight == weight_before(fs, count as int),
            total_weight > 0,
            in_range(start@),
            singing@ <= 0x4000_0000_0000_0000_0000_0000_0000_0000 + secs(4),
            count < 0x1_0000_0000_0000_0000,
            elapsed@ == elapsed_before(singing@, fs, index as int),
            words@.len() == index,
            forall|j: int|
                0 <= j < index ==> #[trigger] words@[j]@ == estimated_word(
                    start@,
                    singing@,
                    fs,
                    j,
                ),
        decreases count - index,
    {
        proof {
            lemma_weight_before_monotone(fs, index + 1, count as int);
            lemma_elapsed_bounded(singing@, fs, index + 1);
            lemma_share_of_part(singing@, fragment_weight(fs, index as int), total_weight as nat);
            lemma_weight_before_monotone(fs, index as int, count as int);
        }
        let delta = singing.scaled(weights[index], total_weight);
        let word_start = start.plus(elapsed);
        let word_end = if index + 1 == count {
            start.plus(singing)
        } else {
            word_start.plus(delta)
        };
        elapsed = elapsed.plus(delta);
        words.push(
            LyricsWord { start: word_start, end: word_end.max(word_start), text: fragments[index].clone() },
        );
        index = index + 1;
    }
    assert(word_views(words@) =~= Seq::new(
        fs.len(),
        |k: int| estimated_word(start@, singing@, fs, k),
    ));
    Some(words)
}

/// The texts of a sequence of timed words.
pub open spec fn word_texts(ws: Seq<WordView>) -> Seq<Seq<char>> {
    ws.map_values(|w: WordView| w.2)
}

/// Bounds on one estimated word: it starts no earlier than the line and ends
/// no earlier than it starts; it ends where the next word starts, or, for the
/// last one, with the singing time (or at its own start, if later). Rounding
/// lets a word run past the singing time by at most a nanosecond per word
/// before it.
proof fn lemma_estimated_word(start: nat, singing: nat, fs: Seq<Seq<char>>, k: int)
    requires
        0 <= k < fs.len(),
        weight_before(fs, fs.len() as int) > 0,
    ensures
        start <= estimated_word(start, singing, fs, k).0,
        estimated_word(start, singing, fs, k).0 <= estimated_word(start, singing, fs, k).1,
        estimated_word(start, singing, fs, k).0 <= start + singing + k,
        estimated_word(start, singing, fs, k).1 <= start + singing + (fs.len() - 1),
        k + 1 < fs.len() ==> estimated_word(start, singing, fs, k).1 == start + elapsed_before(
            singing,
            fs,
            k + 1,
        ),
        k + 1 == fs.len() ==> estimated_word(start, singing, fs, k).1 == most(
            start + singing,
            estimated_word(start, singing, fs, k).0,
        ),
{
    lemma_elapsed_bounded(singing, fs, k + 1);
    lemma_elapsed_bounded(singing, fs, k);
}

/// Estimated words follow the line's fragments and tile the singing time:
/// one word per fragment with that fragment's text (so the texts rejoin to
/// the line), each starting no earlier than the line and ending no earlier
/// than it starts, each ending where the next one starts, and the last one
/// ending with the singing time, or at its own start if the rounded shares
/// before it run past that; no word ends more than one nanosecond per word
/// after the singing time.
pub proof fn lemma_estimate_tiles(text: Seq<char>, start: nat, end: Option<nat>, next: Option<nat>)
    requires
        spec_estimate_line_words(text, start, end, next) is Some,
    ensures
        ({
            let ws = spec_estimate_line_words(text, start, end, next)->0;
            let fs = spec_fragments(text);
            let singing = line_singing_time(text, start, end, next);
            &&& ws.len() == fs.len()
            &&& forall|k: int| 0 <= k < ws.len() ==> #[trigger] ws[k].2 == fs[k]
            &&& joined(word_texts(ws)) == text
            &&& forall|k: int|
                0 <= k < ws.len() ==> start <= #[trigger] ws[k].0 <= ws[k].1 <= start + singing + (
                ws.len() - 1)
            &&& forall|k: int| 0 <= k < ws.len() - 1 ==> #[trigger] ws[k].1 == ws[k + 1].0
            &&& ws[ws.len() - 1].1 == most(start + singing, ws[ws.len() - 1].0)
        }),
{
    let fs = spec_fragments(text);
    let ws = spec_estimate_line_words(text, start, end, next)->0;
    let singing = line_singing_time(text, start, end, next);
    assert(ws == Seq::new(fs.len(), |k: int| estimated_word(start, singing, fs, k)));
    lemma_fragments_rejoin(text);
    assert(word_texts(ws) =~= fs);
    assert forall|k: int| 0 <= k < ws.len() implies start <= #[trigger] ws[k].0 <= ws[k].1 <= start
        + singing + (ws.len() - 1) by {
        lemma_estimated_word(start, singing, fs, k);
    }
    assert forall|k: int| 0 <= k < ws.len() - 1 implies #[trigger] ws[k].1 == ws[k + 1].0 by {
        lemma_estimated_word(start, singing, fs, k);
    }
    lemma_estimated_word(start, singing, fs, ws.len() - 1);
}

/// The punctuation pauses of the first `n` fragments, in half units.
pub open spec fn pauses_before(fs: Seq<Seq<char>>, n: int) -> nat
    decreases n,
{
    if n <= 0 {
        0
    } else {
        pauses_before(fs, n - 1) + punctuation_weight(trimmed(fs[n - 1]))
    }
}

proof fn lemma_weight_parts(fs: Seq<Seq<char>>, n: int)
    requires
        0 <= n <= fs.len(),
    ensures
        weight_before(fs, n) == 4 * syllables_before(fs, n) + pauses_before(fs, n) + if n > 0
            && n == fs.len() {
            3nat
        } else {
            0nat
        },
    decreases n,
{
    if n > 0 {
        lemma_weight_parts(fs, n - 1);
    }
}

/// Each estimated word but the last lasts its fragment's share of the
/// singing time, rounded to the nearest nanosecond, where a fragment weighs
/// (in half units) 4 per syllable of its trimmed text plus its punctuation
/// pause, and the whole line weighs 4 per syllable of the line, plus all
/// the pauses, plus 3 for the hold on the final word. For two fragments
/// without punctuation, the first with `s` syllables and the second with
/// one, the first word takes `4s / (4s + 7)` of the singing time.
pub proof fn lemma_estimate_shares(text: Seq<char>, start: nat, end: Option<nat>, next: Option<nat>)
    requires
        spec_estimate_line_words(text, start, end, next) is Some,
    ensures
        ({
            let ws = spec_estimate_line_words(text, start, end, next)->0;
            let fs = spec_fragments(text);
            let singing = line_singing_time(text, start, end, next);
            let total = 4 * line_syllables(text) + pauses_before(fs, fs.len() as int) + 3;
            forall|k: int|
                0 <= k < ws.len() - 1 ==> #[trigger] ws[k].1 - ws[k].0 == rounded_share(
                    singing,
                    4 * spec_syllables(trimmed(fs[k])) + punctuation_weight(trimmed(fs[k])),
                    total,
                )
        }),
{
    let fs = spec_fragments(text);
    lemma_weight_parts(fs, fs.len() as int);
}

/// When a line has at least 400 ms, its estimated words end within that time
/// (by the end of the line or the start of the next one, whichever comes
/// first), give or take a nanosecond of rounding per word.
pub proof fn lemma_estimate_within_available(
    text: Seq<char>,
    start: nat,
    end: Option<nat>,
    next: Option<nat>,
)
    requires
        spec_estimate_line_words(text, start, end, next) is Some,
        available_time(start, end, next) >= millis(400),
    ensures
        ({
            let ws = spec_estimate_line_words(text, start, end, next)->0;
            forall|k: int|
                0 <= k < ws.len() ==> #[trigger] ws[k].1 <= start + available_time(start, end, next)
                    + (ws.len() - 1)
        }),
{
    lemma_estimate_tiles(text, start, end, next);
    lemma_singing_bounded(
        available_time(start, end, next),
        estimated_time(line_syllables(text)),
    );
}

/// The available time, and so the estimate, is the same whether the line's
/// end and the next line's start are both given or only the earlier of them,
/// as either one.
pub proof fn lemma_estimate_earlier_bound(text: Seq<char>, start: nat, e: nat, x: nat)
    ensures
        spec_estimate_line_words(text, start, Some(e), Some(x)) == spec_estimate_line_words(
            text,
            start,
            Some(least(e, x)),
            None,
        ),
        spec_estimate_line_words(text, start, Some(least(e, x)), None)
            == spec_estimate_line_words(text, start, None, Some(least(e, x))),
{
    assert(available_time(start, Some(e), Some(x)) == available_time(start, Some(least(e, x)), None));
    assert(available_time(start, None, Some(least(e, x))) == available_time(
        start,
        Some(least(e, x)),
        None,
    ));
}

/// The shift of an optional timestamp by `d`.
pub open spec fn shifted(t: Option<nat>, d: nat) -> Option<nat> {
    match t {
        Some(x) => Some(x + d),
        None => None,
    }
}

/// Shifting a line's start, end and next start by `d` shifts every
/// estimated word by `d` and keeps its text.
pub proof fn lemma_estimate_shift(text: Seq<char>, start: nat, end: Option<nat>, next: Option<nat>, d: nat)
    ensures
        spec_estimate_line_words(text, start + d, shifted(end, d), shifted(next, d)) == match spec_estimate_line_words(text, start, end, next) {
            Some(ws) => Some(Seq::new(ws.len(), |k: int| (ws[k].0 + d, ws[k].1 + d, ws[k].2))),
            None => None,
        },
{
    let fs = spec_fragments(text);
    assert(available_time(start + d, shifted(end, d), shifted(next, d)) == available_time(start, end, next));
    let singing = line_singing_time(text, start, end, next);
    assert(line_singing_time(text, start + d, shifted(end, d), shifted(next, d)) == singing);
    if spec_estimate_line_words(text, start, end, next) is Some {
        let ws = spec_estimate_line_words(text, start, end, next)->0;
        assert(spec_estimate_line_words(text, start + d, shifted(end, d), shifted(next, d))->0 =~= Seq::new(
            ws.len(),
            |k: int| (ws[k].0 + d, ws[k].1 + d, ws[k].2),
        ));
    }
}

/// Whether a line's words can be estimated without overflowing the
/// syllable-time arithmetic or the timestamps.
pub open spec fn estimable(text: Seq<char>, start: nat, end: Option<nat>, next: Option<nat>) -> bool {
    syllable_budget(text) && in_range(start) && opt_in_range(end) && opt_in_range(next)
}

/// `a`, or `b` when `a` is absent.
pub open spec fn or_else(a: Option<nat>, b: Option<nat>) -> Option<nat> {
    if a is Some {
        a
    } else {
        b
    }
}

/// Word timings after preparation: kept when present, estimated when absent
/// (or empty) and the line can be estimated, left as they were otherwise.
pub open spec fn filled_words(
    words: Option<Seq<WordView>>,
    text: Seq<char>,
    start: nat,
    end: Option<nat>,
    next: Option<nat>,
) -> Option<Seq<WordView>> {
    if lacks_word_views(words) && estimable(text, start, end, next) {
        spec_estimate_line_words(text, start, end, next)
    } else {
        words
    }
}

/// A secondary lane after preparation; a lane without an end of its own
/// lasts as long as its line.
pub open spec fn prepared_lane(lane: LaneView, line_end: Option<nat>, next: Option<nat>) -> LaneView {
    (lane.0, lane.1, lane.2, filled_words(lane.3, lane.2, lane.0, or_else(lane.1, line_end), next))
}

/// When the line after line `i` starts, if there is one.
pub open spec fn next_start_of(lines: Seq<LineView>, i: int) -> Option<nat> {
    if i + 1 < lines.len() {
        Some(lines[i + 1].0)
    } else {
        None
    }
}

/// Line `i` after preparation: its words and its lanes' words filled in.
pub open spec fn prepared_line(lines: Seq<LineView>, i: int) -> LineView {
    let l = lines[i];
    let next = next_start_of(lines, i);
    (
        l.0,
        l.1,
        l.2,
        l.3,
        filled_words(l.4, l.2, l.0, l.1, next),
        Seq::new(l.5.len(), |j: int| prepared_lane(l.5[j], l.1, next)),
        l.6,
    )
}

/// Preparation keeps every line's timing, text, romanization, voice and
/// number of lanes, and keeps word timings that a line or lane already has.
pub proof fn lemma_prepared_keeps(lines: Seq<LineView>, i: int)
    requires
        0 <= i < lines.len(),
    ensures
        ({
            let before = lines[i];
            let after = prepared_line(lines, i);
            &&& after.0 == before.0 && after.1 == before.1 && after.2 == before.2
            &&& after.3 == before.3 && after.6 == before.6
            &&& after.5.len() == before.5.len()
            &&& !lacks_word_views(before.4) ==> after.4 == before.4
            &&& forall|j: int|
                0 <= j < before.5.len() ==> {
                    &&& (#[trigger] after.5[j]).0 == before.5[j].0
                    &&& after.5[j].1 == before.5[j].1
                    &&& after.5[j].2 == before.5[j].2
                    &&& !lacks_word_views(before.5[j].3) ==> after.5[j].3 == before.5[j].3
                }
        }),
{
}

/// A line, or lane, that lacks word timings gets the estimate for its text,
/// start, end and the next line's start (a lane without an end uses its
/// line's end), wherever the estimate's arithmetic fits.
pub proof fn lemma_prepared_estimates(lines: Seq<LineView>, i: int)
    requires
        0 <= i < lines.len(),
    ensures
        ({
            let before = lines[i];
            let after = prepared_line(lines, i);
            let next = next_start_of(lines, i);
            &&& lacks_word_views(before.4) && estimable(before.2, before.0, before.1, next)
                ==> after.4 == spec_estimate_line_words(before.2, before.0, before.1, next)
            &&& forall|j: int|
                0 <= j < before.5.len() && lacks_word_views(before.5[j].3) && estimable(
                    before.5[j].2,
                    before.5[j].0,
                    or_else(before.5[j].1, before.1),
                    next,
                ) ==> (#[trigger] after.5[j]).3 == spec_estimate_line_words(
                    before.5[j].2,
                    before.5[j].0,
                    or_else(before.5[j].1, before.1),
                    next,
                )
        }),
{
}

/// A sheet after preparation: every line prepared.
pub open spec fn prepared_lines(lines: Seq<LineView>) -> Seq<LineView> {
    Seq::new(lines.len(), |i: int| prepared_line(lines, i))
}

/// Filling word timings a second time, with the same text and times,
/// changes nothing: an estimate, when there is one, has a word per fragment
/// and so is no longer missing.
proof fn lemma_filled_words_settles(
    words: Option<Seq<WordView>>,
    text: Seq<char>,
    start: nat,
    end: Option<nat>,
    next: Option<nat>,
)
    ensures
        filled_words(filled_words(words, text, start, end, next), text, start, end, next)
            == filled_words(words, text, start, end, next),
{
    let once = filled_words(words, text, start, end, next);
    if lacks_word_views(words) && estimable(text, start, end, next) {
        if once is Some {
            assert(spec_fragments(text).len() > 0);
            assert(!lacks_word_views(once));
        }
    }
}

/// Preparing a sheet that has already been prepared changes nothing.
pub proof fn lemma_prepared_idempotent(lines: Seq<LineView>)
    ensures
        prepared_lines(prepared_lines(lines)) == prepared_lines(lines),
{
    let once = prepared_lines(lines);
    assert forall|i: int| 0 <= i < once.len() implies #[trigger] prepared_line(once, i)
        == once[i] by {
        let l = lines[i];
        let next = next_start_of(lines, i);
        assert(next_start_of(once, i) == next);
        lemma_filled_words_settles(l.4, l.2, l.0, l.1, next);
        let again = prepared_line(once, i);
        assert forall|j: int| 0 <= j < l.5.len() implies #[trigger] again.5[j] == once[i].5[j] by {
            let lane = l.5[j];
            lemma_filled_words_settles(lane.3, lane.2, lane.0, or_else(lane.1, l.1), next);
        }
        assert(again.5 =~= once[i].5);
    }
    assert(prepared_lines(once) =~= once);
}

/// Whether the syllables of `text` fit the estimate's millisecond arithmetic.
fn fits_syllable_budget(text: &str) -> (b: bool)
    ensures
        b == syllable_budget(text@),
{
    let fragments = plain_lyrics_fragments(text);
    let ghost fs = views(fragments@);
    let limit: u64 = 57_646_075_230_342_347;
    let mut total: u64 = 0;
    let mut k: usize = 0;
    while k < fragments.len()
        invariant
            fs == spec_fragments(text@),
            fs == views(fragments@),
            k <= fragments@.len(),
            total == syllables_before(fs, k as int),
            total <= limit,
            limit == 57_646_075_230_342_347,
        decreases fragments@.len() - k,
    {
        let clean = trim(&chars_of(fragments[k].as_str()));
        let syllables = count_syllables(&clean) as u64;
        assert(clean@ == trimmed(fs[k as int]));
        assert(syllables == fragment_syllables(fs, k as int));
        if syllables > limit - total {
            proof {
                lemma_syllables_before_monotone(fs, k + 1, fs.len() as int);

            }
            return false;
        }
        total = total + syllables;
        k = k + 1;
    }
    true
}

/// The word timings of a line or lane, estimated when they are missing.
fn fill_words(
    words: &Option<Vec<LyricsWord>>,
    text: &String,
    start: Duration,
    end: Option<Duration>,
    next: Option<Duration>,
) -> (r: Option<Vec<LyricsWord>>)
    ensures
        opt_word_views(r) == filled_words(
            opt_word_views(*words),
            text@,
            start@,
            opt_nanos(end),
            opt_nanos(next),
        ),
{
    let lacking = lacks_word_timings(words);
    let bounded = start.as_nanos() <= 0x4000_0000_0000_0000_0000_0000_0000_0000 && match end {
        Some(e) => e.as_nanos() <= 0x4000_0000_0000_0000_0000_0000_0000_0000,
        None => true,
    } && match next {
        Some(x) => x.as_nanos() <= 0x4000_0000_0000_0000_0000_0000_0000_0000,
        None => true,
    };
    if lacking && bounded && fits_syllable_budget(text.as_str()) {
        estimate_line_words(text.as_str(), start, end, next)
    } else {
        copy_opt_words(words)
    }
}

/// A secondary lane with its words estimated when they are missing.
fn prepare_lane(lane: &LyricsLane, line_end: Option<Duration>, next: Option<Duration>) -> (r: LyricsLane)
    ensures
        r@ == prepared_lane(lane@, opt_nanos(line_end), opt_nanos(next)),
{
    let end = match lane.end {
        Some(e) => Some(e),
        None => line_end,
    };
    let words = fill_words(&lane.words, &lane.text, lane.start, end, next);
    LyricsLane { start: lane.start, end: lane.end, text: lane.text.clone(), words }
}

/// Populates estimated words for any lines in a synced lyrics sheet that lack word timings.
pub fn estimate_words_if_needed(lines: &[LyricsLine]) -> (prepared: Vec<LyricsLine>)
    ensures
        line_views(prepared@) == prepared_lines(line_views(lines@)),
{
    let ghost views_in = line_views(lines@);
    let mut prepared: Vec<LyricsLine> = Vec::new();
    let mut index: usize = 0;
    while index < lines.len()
        invariant
            views_in == line_views(lines@),
            index <= lines@.len(),
            prepared@.len() == index,
            forall|i: int| 0 <= i < index ==> #[trigger] prepared@[i]@ == prepared_line(views_in, i),
        decreases lines@.len() - index,
    {
        let line = &lines[index];
        let next_start = if index + 1 < lines.len() {
            Some(lines[index + 1].start)
        } else {
            None
        };
        assert(opt_nanos(next_start) == next_start_of(views_in, index as int));
        let words = fill_words(&line.words, &line.text, line.start, line.end, next_start);
        let mut lanes: Vec<LyricsLane> = Vec::new();
        let mut j: usize = 0;
        while j < line.secondary.len()
            invariant
                j <= line.secondary@.len(),
                lanes@.len() == j,
                forall|m: int|
                    0 <= m < j ==> #[trigger] lanes@[m]@ == prepared_lane(
                        line.secondary@[m]@,
                        opt_nanos(line.end),
                        opt_nanos(next_start),
                    ),
            decreases line.secondary@.len() - j,
        {
            lanes.push(prepare_lane(&line.secondary[j], line.end, next_start));
            j = j + 1;
        }
        let new_line = LyricsLine {
            start: line.start,
            end: line.end,
            text: line.text.clone(),
            romanized: copy_opt_string(&line.romanized),
            words,
            secondary: lanes,
            voice: line.voice,
        };
        assert(lane_views(new_line.secondary@) =~= Seq::new(
            views_in[index as int].5.len(),
            |m: int| prepared_lane(views_in[index as int].5[m], views_in[index as int].1, opt_nanos(next_start)),
        ));
        prepared.push(new_line);
        index = index + 1;
    }
    assert(line_views(prepared@) =~= prepared_lines(line_views(lines@)));
    prepared
}

} // verus!
