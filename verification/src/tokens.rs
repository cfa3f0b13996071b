//! Cutting text into comparable word keys.
//!
//! A key is a run of alphanumeric characters, lowercased; apostrophes and
//! similar ticks inside a word are dropped without ending it; each wide (kana,
//! CJK or Hangul) character is a key of its own. Each key remembers the
//! character index at which it starts.

use vstd::prelude::*;
use crate::text::{
    spec_is_alphanumeric, spec_char_lowercase, is_alphanumeric, lowercase_char, push_char,
};

verus! {

/// A key of the text and the character index where it starts.
pub struct Slot {
    pub at: usize,
    pub key: String,
}

/// A slot as plain values.
pub type SlotView = (nat, Seq<char>);

impl View for Slot {
    type V = SlotView;

    open spec fn view(&self) -> SlotView {
        (self.at as nat, self.key@)
    }
}

/// The views of a sequence of slots.
pub open spec fn slot_views(slots: Seq<Slot>) -> Seq<SlotView> {
    slots.map_values(|s: Slot| s@)
}

/// Whether `c` is a wide character that forms a key on its own: kana, CJK
/// extension A, CJK unified ideographs, Hangul syllables and compatibility
/// ideographs.
pub open spec fn spec_wide(c: char) -> bool {
    ||| ('\u{3040}' <= c && c <= '\u{30ff}')
    ||| ('\u{3400}' <= c && c <= '\u{4dbf}')
    ||| ('\u{4e00}' <= c && c <= '\u{9fff}')
    ||| ('\u{ac00}' <= c && c <= '\u{d7af}')
    ||| ('\u{f900}' <= c && c <= '\u{faff}')
}

/// Whether `c` is an apostrophe-like tick, which is skipped inside words.
pub open spec fn spec_tick(c: char) -> bool {
    c == '\'' || c == '\u{2019}' || c == '\u{ff07}' || c == '\u{2018}' || c == '\u{00b4}' || c
        == '`'
}

fn wide(c: char) -> (b: bool)
    ensures
        b == spec_wide(c),
{
    ('\u{3040}' <= c && c <= '\u{30ff}') || ('\u{3400}' <= c && c <= '\u{4dbf}') || ('\u{4e00}'
        <= c && c <= '\u{9fff}') || ('\u{ac00}' <= c && c <= '\u{d7af}') || ('\u{f900}' <= c && c
        <= '\u{faff}')
}

fn tick(c: char) -> (b: bool)
    ensures
        b == spec_tick(c),
{
    c == '\'' || c == '\u{2019}' || c == '\u{ff07}' || c == '\u{2018}' || c == '\u{00b4}' || c
        == '`'
}

/// `slots` with the open key, if any, appended.
pub open spec fn flushed(slots: Seq<SlotView>, open: Option<SlotView>) -> Seq<SlotView> {
    match open {
        Some(o) => slots.push(o),
        None => slots,
    }
}

/// The finished keys and the key still open after the first `n` characters.
pub open spec fn token_state(s: Seq<char>, n: nat) -> (Seq<SlotView>, Option<SlotView>)
    decreases n,
{
    if n == 0 {
        (Seq::empty(), None)
    } else {
        let (slots, open) = token_state(s, (n - 1) as nat);
        let at = (n - 1) as nat;
        let c = s[at as int];
        if spec_wide(c) {
            (flushed(slots, open).push((at, spec_char_lowercase(c))), None)
        } else if spec_tick(c) {
            (slots, open)
        } else if spec_is_alphanumeric(c) {
            (
                slots,
                Some(
                    match open {
                        Some(o) => (o.0, o.1 + spec_char_lowercase(c)),
                        None => (at, spec_char_lowercase(c)),
                    },
                ),
            )
        } else {
            (flushed(slots, open), None)
        }
    }
}

/// The keys of `s`.
pub open spec fn spec_tokens(s: Seq<char>) -> Seq<SlotView> {
    let (slots, open) = token_state(s, s.len());
    flushed(slots, open)
}

/// The ticks are exactly the apostrophe `'`, the right and left single
/// quotation marks, the full-width apostrophe, the acute accent and the
/// grave accent.
pub proof fn lemma_ticks(c: char)
    ensures
        spec_tick(c) <==> set!['\'', '\u{2019}', '\u{ff07}', '\u{2018}', '\u{00b4}', '`'].contains(c),
{
}

/// A tick is skipped: reading it changes neither the finished keys nor the
/// key still open, so a tick inside a word does not end the word.
pub proof fn lemma_tick_skipped(s: Seq<char>, n: nat)
    requires
        n < s.len(),
        spec_tick(s[n as int]),
    ensures
        token_state(s, n + 1) == token_state(s, n),
{
    assert(!spec_wide(s[n as int]));
}

/// Any tick may stand for any other: writing one tick in place of another
/// leaves the keys, and where they start, unchanged; so a line written with
/// typographic apostrophes has the same keys as one written with `'`.
pub proof fn lemma_ticks_alike(s: Seq<char>, i: int, t: char, u: char)
    requires
        0 <= i < s.len(),
        spec_tick(t),
        spec_tick(u),
    ensures
        spec_tokens(s.update(i, t)) == spec_tokens(s.update(i, u)),
{
    lemma_ticks_alike_upto(s, i, t, u, s.len());
}

proof fn lemma_ticks_alike_upto(s: Seq<char>, i: int, t: char, u: char, n: nat)
    requires
        0 <= i < s.len(),
        n <= s.len(),
        spec_tick(t),
        spec_tick(u),
    ensures
        token_state(s.update(i, t), n) == token_state(s.update(i, u), n),
    decreases n,
{
    if n > 0 {
        lemma_ticks_alike_upto(s, i, t, u, (n - 1) as nat);
        if n - 1 == i {
            lemma_tick_skipped(s.update(i, t), (n - 1) as nat);
            lemma_tick_skipped(s.update(i, u), (n - 1) as nat);
        } else {
            assert(s.update(i, t)[n - 1] == s.update(i, u)[n - 1]);
        }
    }
}

/// Slots that start at strictly increasing indices below `len` and have
/// non-empty keys.
pub open spec fn well_placed(slots: Seq<SlotView>, len: nat) -> bool {
    &&& forall|i: int, j: int| 0 <= i < j < slots.len() ==> slots[i].0 < slots[j].0
    &&& forall|i: int| 0 <= i < slots.len() ==> #[trigger] slots[i].0 < len
    &&& forall|i: int| 0 <= i < slots.len() ==> #[trigger] slots[i].1.len() > 0
}

/// The view of an optional slot.
pub open spec fn opt_slot(o: Option<Slot>) -> Option<SlotView> {
    match o {
        Some(x) => Some(x@),
        None => None,
    }
}

/// The characters of `lower`, as a new string.
fn string_from(lower: &Vec<char>) -> (key: String)
    ensures
        key@ == lower@,
{
    let mut key = String::new();
    let mut i: usize = 0;
    while i < lower.len()
        invariant
            i <= lower@.len(),
            key@ == lower@.take(i as int),
        decreases lower@.len() - i,
    {
        push_char(&mut key, lower[i]);
        i = i + 1;
        assert(key@ =~= lower@.take(i as int));
    }
    assert(lower@.take(i as int) =~= lower@);
    key
}

/// Appends the characters of `extra` to `key`.
fn push_all(key: &mut String, extra: &Vec<char>)
    ensures
        final(key)@ == old(key)@ + extra@,
{
    let mut i: usize = 0;
    while i < extra.len()
        invariant
            i <= extra@.len(),
            key@ == old(key)@ + extra@.take(i as int),
        decreases extra@.len() - i,
    {
        push_char(key, extra[i]);
        i = i + 1;
        assert(key@ =~= old(key)@ + extra@.take(i as int));
    }
    assert(extra@.take(i as int) =~= extra@);
}

/// The keys of `text`, each with the character index where it starts.
pub fn tokens(text: &[char]) -> (slots: Vec<Slot>)
    ensures
        slot_views(slots@) == spec_tokens(text@),
        well_placed(slot_views(slots@), text@.len()),
{
    let mut slots: Vec<Slot> = Vec::new();
    let mut open: Option<Slot> = None;
    let mut at: usize = 0;
    while at < text.len()
        invariant
            at <= text@.len(),
            token_state(text@, at as nat) == (slot_views(slots@), opt_slot(open)),
            well_placed(flushed(slot_views(slots@), opt_slot(open)), at as nat),
        decreases text@.len() - at,
    {
        let letter = text[at];
        let ghost old_slots = slot_views(slots@);
        let ghost old_open = opt_slot(open);
        if wide(letter) {
            if let Some(o) = open {
                slots.push(o);
            }
            open = None;
            assert(slot_views(slots@) =~= flushed(old_slots, old_open));
            let lower = lowercase_char(letter);
            let key = string_from(&lower);
            slots.push(Slot { at, key });
            assert(slot_views(slots@) =~= flushed(old_slots, old_open).push(
                (at as nat, spec_char_lowercase(letter)),
            ));
            assert(well_placed(slot_views(slots@), (at + 1) as nat)) by {
                let f = flushed(old_slots, old_open);
                let w = slot_views(slots@);
                assert forall|i: int, j: int| 0 <= i < j < w.len() implies w[i].0 < w[j].0 by {
                    if j == w.len() - 1 {
                        assert(w[i] == f[i]);
                    } else {
                        assert(w[i] == f[i] && w[j] == f[j]);
                    }
                }
                assert forall|i: int| 0 <= i < w.len() implies #[trigger] w[i].0 < at + 1 && w[i].1.len() > 0 by {
                    if i < w.len() - 1 {
                        assert(w[i] == f[i]);
                    }
                }
            }
        } else if tick(letter) {
        } else if is_alphanumeric(letter) {
            let lower = lowercase_char(letter);
            let mut slot = match open {
                Some(o) => o,
                None => Slot { at, key: String::new() },
            };
            push_all(&mut slot.key, &lower);
            open = Some(slot);
            assert(well_placed(flushed(slot_views(slots@), opt_slot(open)), (at + 1) as nat)) by {
                let f = flushed(old_slots, old_open);
                let w = flushed(old_slots, opt_slot(open));
                assert(w.len() == old_slots.len() + 1);
                assert forall|i: int| 0 <= i < old_slots.len() implies w[i] == old_slots[i] by {}
                assert forall|i: int| 0 <= i < old_slots.len() implies f[i] == old_slots[i] by {}
                if old_open is Some {
                    assert(f.len() == w.len());
                    assert(w[w.len() - 1].0 == f[f.len() - 1].0);
                }
                assert forall|i: int, j: int| 0 <= i < j < w.len() implies w[i].0 < w[j].0 by {
                    if j == w.len() - 1 {
                        assert(w[i] == f[i]);
                    } else {
                        assert(w[i] == f[i] && w[j] == f[j]);
                    }
                }
                assert forall|i: int| 0 <= i < w.len() implies #[trigger] w[i].0 < at + 1 && w[i].1.len() > 0 by {
                    if i < w.len() - 1 {
                        assert(w[i] == f[i]);
                    }
                }
            }
            assert(opt_slot(open) == Some(
                match old_open {
                    Some(o) => (o.0, o.1 + spec_char_lowercase(letter)),
                    None => (at as nat, spec_char_lowercase(letter)),
                },
            ));
        } else {
            if let Some(o) = open {
                slots.push(o);
            }
            open = None;
            assert(slot_views(slots@) =~= flushed(old_slots, old_open));
        }
        at = at + 1;
        assert(token_state(text@, at as nat) == (slot_views(slots@), opt_slot(open)));
    }
    let ghost last_slots = slot_views(slots@);
    let ghost last_open = opt_slot(open);
    if let Some(o) = open {
        slots.push(o);
    }
    assert(slot_views(slots@) =~= flushed(last_slots, last_open));
    slots
}

} // verus!
