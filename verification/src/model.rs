//! The lyric sheet: timed lines, their optional word timings, and secondary
//! vocal lanes.

use vstd::prelude::*;
use crate::time::Duration;

verus! {

/// Which voice sings a line.
#[derive(Clone, Copy, Debug, PartialEq, Eq)]
pub enum Voice {
    Lead,
    Background,
}

/// One timed word (or word fragment) of a line.
#[derive(Clone, Debug, PartialEq, Eq)]
pub struct LyricsWord {
    pub start: Duration,
    pub end: Duration,
    pub text: String,
}

/// A secondary vocal lane attached to a line.
#[derive(Clone, Debug, PartialEq, Eq)]
pub struct LyricsLane {
    pub start: Duration,
    pub end: Option<Duration>,
    pub text: String,
    pub words: Option<Vec<LyricsWord>>,
}

/// One line of a synced lyric sheet.
#[derive(Clone, Debug, PartialEq, Eq)]
pub struct LyricsLine {
    pub start: Duration,
    pub end: Option<Duration>,
    pub text: String,
    pub romanized: Option<String>,
    pub words: Option<Vec<LyricsWord>>,
    pub secondary: Vec<LyricsLane>,
    pub voice: Voice,
}

/// A lyric sheet: plain text, or lines with timestamps.
#[derive(Clone, Debug, PartialEq, Eq)]
pub enum Lyrics {
    Plain { text: String },
    Synced { lines: Vec<LyricsLine> },
}

/// A timed word as plain values: start, end (in nanoseconds) and its characters.
pub type WordView = (nat, nat, Seq<char>);

impl View for LyricsWord {
    type V = WordView;

    open spec fn view(&self) -> WordView {
        (self.start@, self.end@, self.text@)
    }
}

/// A secondary lane as plain values: start, optional end, text, optional words.
pub type LaneView = (nat, Option<nat>, Seq<char>, Option<Seq<WordView>>);

/// A line as plain values: start, optional end, text, optional romanization,
/// optional words, secondary lanes and voice.
pub type LineView = (
    nat,
    Option<nat>,
    Seq<char>,
    Option<Seq<char>>,
    Option<Seq<WordView>>,
    Seq<LaneView>,
    Voice,
);

/// The view of an optional duration.
pub open spec fn opt_nanos(d: Option<Duration>) -> Option<nat> {
    match d {
        Some(x) => Some(x@),
        None => None,
    }
}

/// The view of an optional string.
pub open spec fn opt_chars(s: Option<String>) -> Option<Seq<char>> {
    match s {
        Some(x) => Some(x@),
        None => None,
    }
}

impl View for LyricsLane {
    type V = LaneView;

    open spec fn view(&self) -> LaneView {
        (self.start@, opt_nanos(self.end), self.text@, opt_word_views(self.words))
    }
}

/// The views of a sequence of lanes.
pub open spec fn lane_views(lanes: Seq<LyricsLane>) -> Seq<LaneView> {
    lanes.map_values(|l: LyricsLane| l@)
}

impl View for LyricsLine {
    type V = LineView;

    open spec fn view(&self) -> LineView {
        (
            self.start@,
            opt_nanos(self.end),
            self.text@,
            opt_chars(self.romanized),
            opt_word_views(self.words),
            lane_views(self.secondary@),
            self.voice,
        )
    }
}

/// The views of a sequence of lines.
pub open spec fn line_views(lines: Seq<LyricsLine>) -> Seq<LineView> {
    lines.map_values(|l: LyricsLine| l@)
}

/// Whether optional word views hold no word.
pub open spec fn lacks_word_views(words: Option<Seq<WordView>>) -> bool {
    match words {
        Some(w) => w.len() == 0,
        None => true,
    }
}

/// The views of a sequence of words.
pub open spec fn word_views(words: Seq<LyricsWord>) -> Seq<WordView> {
    words.map_values(|w: LyricsWord| w@)
}

/// The views of optional word timings.
pub open spec fn opt_word_views(words: Option<Vec<LyricsWord>>) -> Option<Seq<WordView>> {
    match words {
        Some(w) => Some(word_views(w@)),
        None => None,
    }
}

/// Whether a line or lane carries no usable word timings.
pub open spec fn lacks_words(words: Option<Vec<LyricsWord>>) -> bool {
    match words {
        Some(w) => w@.len() == 0,
        None => true,
    }
}

/// A copy of `w`.
pub fn copy_word(w: &LyricsWord) -> (r: LyricsWord)
    ensures
        r@ == w@,
{
    LyricsWord { start: w.start, end: w.end, text: w.text.clone() }
}

/// A copy of a sequence of words.
pub fn copy_words(words: &Vec<LyricsWord>) -> (r: Vec<LyricsWord>)
    ensures
        word_views(r@) == word_views(words@),
        r@.len() == words@.len(),
{
    let mut r: Vec<LyricsWord> = Vec::new();
    let mut i: usize = 0;
    while i < words.len()
        invariant
            i <= words@.len(),
            r@.len() == i,
            forall|k: int| 0 <= k < i ==> #[trigger] r@[k]@ == words@[k]@,
        decreases words@.len() - i,
    {
        r.push(copy_word(&words[i]));
        i = i + 1;
    }
    assert(word_views(r@) =~= word_views(words@));
    r
}

/// Whether `words` is absent or empty.
pub fn lacks_word_timings(words: &Option<Vec<LyricsWord>>) -> (b: bool)
    ensures
        b == lacks_words(*words),
        b == lacks_word_views(opt_word_views(*words)),
{
    match words {
        Some(w) => w.len() == 0,
        None => true,
    }
}

/// A copy of an optional string.
pub fn copy_opt_string(s: &Option<String>) -> (r: Option<String>)
    ensures
        opt_chars(r) == opt_chars(*s),
{
    match s {
        Some(x) => Some(x.clone()),
        None => None,
    }
}

/// A copy of optional word timings.
pub fn copy_opt_words(words: &Option<Vec<LyricsWord>>) -> (r: Option<Vec<LyricsWord>>)
    ensures
        opt_word_views(r) == opt_word_views(*words),
        lacks_words(r) == lacks_words(*words),
        lacks_word_views(opt_word_views(*words)) == lacks_words(*words),
{
    match words {
        Some(w) => Some(copy_words(w)),
        None => None,
    }
}

} // verus!
