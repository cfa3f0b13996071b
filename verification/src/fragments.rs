//! Splitting a plain lyric line into word fragments.
//!
//! A fragment starts at the beginning of the line, at every non-whitespace
//! character that follows whitespace, and between two CJK characters that may
//! be broken apart. Whitespace stays attached to the fragment it follows, so
//! the fragments, concatenated, give back the line exactly.

use vstd::prelude::*;
use crate::text::{spec_is_whitespace, is_whitespace, chars_of, string_of};

verus! {

/// Whether `c` lies in one of the CJK blocks within which lines may break:
/// Hangul Jamo, CJK radicals through Yi, Hangul syllables, compatibility
/// ideographs, vertical forms, compatibility forms and full-width forms.
pub open spec fn spec_is_cjk(c: char) -> bool {
    ||| ('\u{1100}' <= c && c <= '\u{115F}')
    ||| ('\u{2E80}' <= c && c <= '\u{A4CF}')
    ||| ('\u{AC00}' <= c && c <= '\u{D7A3}')
    ||| ('\u{F900}' <= c && c <= '\u{FAFF}')
    ||| ('\u{FE10}' <= c && c <= '\u{FE19}')
    ||| ('\u{FE30}' <= c && c <= '\u{FE6F}')
    ||| ('\u{FF00}' <= c && c <= '\u{FF60}')
    ||| ('\u{FFE0}' <= c && c <= '\u{FFE6}')
}

/// Closing punctuation, prolonged-sound and iteration marks that must not
/// begin a fragment.
pub open spec fn spec_no_break_before(c: char) -> bool {
    c == '、' || c == '。' || c == '，' || c == '．' || c == '！' || c == '？' || c == '：'
        || c == '；' || c == '」' || c == '』' || c == '）' || c == '】' || c == '〉'
        || c == '》' || c == '〕' || c == '・' || c == 'ー' || c == '…' || c == '々'
        || c == 'ゝ' || c == 'ゞ' || c == 'っ' || c == 'ッ'
}

/// Opening brackets that must not end a fragment.
pub open spec fn spec_no_break_after(c: char) -> bool {
    c == '「' || c == '『' || c == '（' || c == '【' || c == '〈' || c == '《' || c == '〔'
}

/// Whether a line may be broken between the CJK characters `left` and `right`.
pub open spec fn spec_breakable_cjk(left: char, right: char) -> bool {
    &&& spec_is_cjk(left)
    &&& spec_is_cjk(right)
    &&& !spec_no_break_before(right)
    &&& !spec_no_break_after(left)
}

fn is_cjk(c: char) -> (b: bool)
    ensures
        b == spec_is_cjk(c),
{
    ('\u{1100}' <= c && c <= '\u{115F}') || ('\u{2E80}' <= c && c <= '\u{A4CF}') || (
    '\u{AC00}' <= c && c <= '\u{D7A3}') || ('\u{F900}' <= c && c <= '\u{FAFF}') || ('\u{FE10}'
        <= c && c <= '\u{FE19}') || ('\u{FE30}' <= c && c <= '\u{FE6F}') || ('\u{FF00}' <= c
        && c <= '\u{FF60}') || ('\u{FFE0}' <= c && c <= '\u{FFE6}')
}

/// Whether a line may be broken between the CJK characters `left` and `right`.
pub fn is_breakable_cjk(left: char, right: char) -> (b: bool)
    ensures
        b == spec_breakable_cjk(left, right),
{
    if !is_cjk(left) || !is_cjk(right) {
        return false;
    }
    let closing = match right {
        '、' | '。' | '，' | '．' | '！' | '？' | '：' | '；' | '」' | '』' | '）' | '】' | '〉'
        | '》' | '〕' | '・' | 'ー' | '…' | '々' | 'ゝ' | 'ゞ' | 'っ' | 'ッ' => true,
        _ => false,
    };
    let opening = match left {
        '「' | '『' | '（' | '【' | '〈' | '《' | '〔' => true,
        _ => false,
    };
    !closing && !opening
}

/// Whether a new fragment of `s` begins at index `i`: a non-whitespace
/// character after whitespace, or a breakable pair of CJK characters.
pub open spec fn is_break(s: Seq<char>, i: int) -> bool {
    &&& 0 < i < s.len()
    &&& !spec_is_whitespace(s[i])
    &&& (spec_is_whitespace(s[i - 1]) || spec_breakable_cjk(s[i - 1], s[i]))
}

/// The fragments of the first `n` characters of `s`: each character either
/// starts a new fragment (the first one, and one at a break) or extends the
/// fragment before it.
pub open spec fn fragments_upto(s: Seq<char>, n: nat) -> Seq<Seq<char>>
    decreases n,
{
    if n == 0 {
        Seq::empty()
    } else {
        let before = fragments_upto(s, (n - 1) as nat);
        let c = s[n - 1];
        if n == 1 || is_break(s, n - 1) {
            before.push(seq![c])
        } else {
            before.update(before.len() - 1, before.last().push(c))
        }
    }
}

/// The fragments of the whole line `s`.
pub open spec fn spec_fragments(s: Seq<char>) -> Seq<Seq<char>> {
    fragments_upto(s, s.len())
}

/// The concatenation of a sequence of fragments.
pub open spec fn joined(fs: Seq<Seq<char>>) -> Seq<char>
    decreases fs.len(),
{
    if fs.len() == 0 {
        Seq::empty()
    } else {
        joined(fs.drop_last()) + fs.last()
    }
}

/// The views of a vector of strings.
pub open spec fn views(v: Seq<String>) -> Seq<Seq<char>> {
    v.map_values(|f: String| f@)
}

/// A prefix of a line has one fragment or more exactly when it is not empty.
pub proof fn lemma_fragments_upto_len(s: Seq<char>, n: nat)
    requires
        n <= s.len(),
    ensures
        (fragments_upto(s, n).len() == 0) == (n == 0),
        fragments_upto(s, n).len() <= n,
    decreases n,
{
    if n > 0 {
        lemma_fragments_upto_len(s, (n - 1) as nat);
    }
}

/// Splits a plain line into space-delimited or CJK breakable word fragments,
/// preserving exact spacing and characters when concatenated.
pub fn plain_lyrics_fragments(line: &str) -> (fragments: Vec<String>)
    ensures
        views(fragments@) == spec_fragments(line@),
{
    let chars = chars_of(line);
    let n = chars.len();
    let mut fragments: Vec<String> = Vec::new();
    let mut start: usize = 0;
    let mut spacing = false;
    let mut previous: Option<char> = None;
    let mut index: usize = 0;
    while index < n
        invariant
            n == chars@.len(),
            chars@ == line@,
            start <= index <= n,
            index == 0 ==> start == 0 && fragments@.len() == 0,
            index > 0 ==> start < index,
            index > 0 ==> fragments_upto(chars@, index as nat) == views(fragments@).push(
                chars@.subrange(start as int, index as int),
            ),
            spacing == (index > 0 && spec_is_whitespace(chars@[index - 1])),
            previous == (if index == 0 { None } else { Some(chars@[index - 1]) }),
        decreases n - index,
    {
        let letter = chars[index];
        let ghost old_start = start;
        let ghost old_views = views(fragments@);
        proof {
            lemma_fragments_upto_len(chars@, index as nat);
        }
        if is_whitespace(letter) {
            spacing = true;
        } else if spacing || match previous {
            Some(prev) => is_breakable_cjk(prev, letter),
            None => false,
        } {
            fragments.push(string_of(&chars, start, index));
            start = index;
            spacing = false;
            assert(views(fragments@) =~= old_views.push(
                chars@.subrange(old_start as int, index as int),
            ));
        }
        previous = Some(letter);
        index = index + 1;
        proof {
            if start + 1 == index {
                assert(chars@.subrange(start as int, index as int) =~= seq![letter]);
            } else {
                assert(chars@.subrange(start as int, index as int) =~= chars@.subrange(
                    start as int,
                    index - 1,
                ).push(letter));
            }
        }
        assert(fragments_upto(chars@, index as nat) =~= views(fragments@).push(
            chars@.subrange(start as int, index as int),
        ));
    }
    if start < n {
        fragments.push(string_of(&chars, start, n));
    }
    assert(views(fragments@) =~= spec_fragments(line@));
    fragments
}

/// Where fragment `k` of `fs` starts in the line they were cut from.
pub open spec fn fragment_start(fs: Seq<Seq<char>>, k: int) -> int {
    joined(fs.take(k)).len() as int
}

proof fn lemma_joined_update_last(fs: Seq<Seq<char>>, x: Seq<char>)
    requires
        fs.len() > 0,
    ensures
        joined(fs.update(fs.len() - 1, x)) == joined(fs.drop_last()) + x,
{
    assert(fs.update(fs.len() - 1, x).drop_last() =~= fs.drop_last());
}

proof fn lemma_fragments_upto_rejoin(s: Seq<char>, n: nat)
    requires
        n <= s.len(),
    ensures
        joined(fragments_upto(s, n)) == s.take(n as int),
        forall|k: int|
            0 <= k < fragments_upto(s, n).len() ==> #[trigger] fragments_upto(s, n)[k].len() > 0,
    decreases n,
{
    if n > 0 {
        let before = fragments_upto(s, (n - 1) as nat);
        lemma_fragments_upto_rejoin(s, (n - 1) as nat);
        lemma_fragments_upto_len(s, (n - 1) as nat);
        let c = s[n - 1];
        if n == 1 || is_break(s, n - 1) {
            assert(before.push(seq![c]).drop_last() =~= before);
        } else {
            lemma_joined_update_last(before, before.last().push(c));
            assert(joined(before) == joined(before.drop_last()) + before.last());
        }
        assert(s.take(n - 1).push(c) =~= s.take(n as int));
    }
}

proof fn lemma_fragments_upto_breaks(s: Seq<char>, n: nat)
    requires
        n <= s.len(),
    ensures
        forall|k: int|
            0 < k < fragments_upto(s, n).len() ==> is_break(
                s,
                #[trigger] fragment_start(fragments_upto(s, n), k),
            ),
        forall|k: int, i: int|
            0 <= k < fragments_upto(s, n).len() && #[trigger] fragment_start(fragments_upto(s, n), k) < i
                < fragment_start(fragments_upto(s, n), k) + fragments_upto(s, n)[k].len()
                ==> !#[trigger] is_break(s, i),
        fragments_upto(s, n).len() > 0 ==> fragment_start(
            fragments_upto(s, n),
            fragments_upto(s, n).len() - 1,
        ) + fragments_upto(s, n).last().len() == n,
    decreases n,
{
    if n > 0 {
        let before = fragments_upto(s, (n - 1) as nat);
        let now = fragments_upto(s, n);
        lemma_fragments_upto_breaks(s, (n - 1) as nat);
        lemma_fragments_upto_len(s, (n - 1) as nat);
        let c = s[n - 1];
        if n == 1 || is_break(s, n - 1) {
            assert forall|k: int| 0 <= k <= before.len() implies #[trigger] now.take(k)
                =~= before.take(k) by {}
            if before.len() > 0 {
                assert(before.take(before.len() as int) =~= before.take(before.len() - 1).push(
                    before.last(),
                ));
                assert(before.take(before.len() as int).drop_last() =~= before.take(
                    before.len() - 1,
                ));
            }
            assert forall|k: int| 0 < k < now.len() implies is_break(
                s,
                #[trigger] fragment_start(now, k),
            ) by {
                if k == before.len() {
                    assert(fragment_start(now, k) == n - 1);
                } else {
                    assert(fragment_start(now, k) == fragment_start(before, k));
                }
            }
            assert forall|k: int, i: int|
                0 <= k < now.len() && #[trigger] fragment_start(now, k) < i < fragment_start(now, k)
                    + now[k].len() implies !#[trigger] is_break(s, i) by {
                if k < before.len() {
                    assert(fragment_start(now, k) == fragment_start(before, k));
                }
            }
        } else {
            let last = before.len() - 1;
            assert forall|k: int| 0 <= k <= last implies #[trigger] now.take(k) =~= before.take(
                k,
            ) by {}
            assert forall|k: int| 0 < k < now.len() implies is_break(
                s,
                #[trigger] fragment_start(now, k),
            ) by {
                assert(fragment_start(now, k) == fragment_start(before, k));
            }
            assert forall|k: int, i: int|
                0 <= k < now.len() && #[trigger] fragment_start(now, k) < i < fragment_start(now, k)
                    + now[k].len() implies !#[trigger] is_break(s, i) by {
                assert(fragment_start(now, k) == fragment_start(before, k));
            }
        }
    }
}

/// The fragments of a line, concatenated, give back the line exactly, and
/// none of them is empty.
pub proof fn lemma_fragments_rejoin(s: Seq<char>)
    ensures
        joined(spec_fragments(s)) == s,
        forall|k: int|
            0 <= k < spec_fragments(s).len() ==> #[trigger] spec_fragments(s)[k].len() > 0,
        (spec_fragments(s).len() == 0) == (s.len() == 0),
{
    lemma_fragments_upto_rejoin(s, s.len());
    lemma_fragments_upto_len(s, s.len());
    assert(s.take(s.len() as int) =~= s);
}

/// Every fragment after the first starts at a break of the line, and no break
/// falls inside a fragment: the breaks are exactly where the fragments meet.
pub proof fn lemma_fragments_meet_at_breaks(s: Seq<char>)
    ensures
        forall|k: int|
            0 < k < spec_fragments(s).len() ==> is_break(
                s,
                #[trigger] fragment_start(spec_fragments(s), k),
            ),
        forall|k: int, i: int|
            0 <= k < spec_fragments(s).len() && #[trigger] fragment_start(spec_fragments(s), k) < i
                < fragment_start(spec_fragments(s), k) + spec_fragments(s)[k].len()
                ==> !#[trigger] is_break(s, i),
{
    lemma_fragments_upto_breaks(s, s.len());
}

/// The marks that never begin a fragment after another character are
/// exactly the closing marks `、 。 ， ． ！ ？ ： ； 」 』 ） 】 〉 》 〕`, the
/// middle dot `・`, the prolonged-sound mark `ー`, the ellipsis `…`, the
/// iteration marks `々 ゝ ゞ` and the small `っ ッ`; the opening brackets
/// `「 『 （ 【 〈 《 〔` never end one.
pub proof fn lemma_unbreakable_marks(left: char, right: char)
    ensures
        spec_no_break_before(right) <==> set![
            '、', '。', '，', '．', '！', '？', '：', '；', '」', '』', '）', '】', '〉', '》', '〕',
            '・', 'ー', '…', '々', 'ゝ', 'ゞ', 'っ', 'ッ',
        ].contains(right),
        spec_no_break_after(left) <==> set!['「', '『', '（', '【', '〈', '《', '〔'].contains(left),
        spec_no_break_before(right) || spec_no_break_after(left) ==> !spec_breakable_cjk(left, right),
{
}

proof fn lemma_fragments_upto_marks(s: Seq<char>, n: nat)
    requires
        n <= s.len(),
    ensures
        forall|k: int|
            0 <= k < fragments_upto(s, n).len() ==> #[trigger] fragments_upto(s, n)[k].len() > 0,
        fragments_upto(s, n).len() > 0 ==> fragments_upto(s, n).last().last() == s[n - 1],
        forall|k: int|
            0 < k < fragments_upto(s, n).len() ==> {
                &&& spec_no_break_before(#[trigger] fragments_upto(s, n)[k][0])
                    ==> spec_is_whitespace(fragments_upto(s, n)[k - 1].last())
                &&& !spec_no_break_after(fragments_upto(s, n)[k - 1].last())
            },
    decreases n,
{
    if n > 0 {
        lemma_fragments_upto_marks(s, (n - 1) as nat);
        lemma_fragments_upto_len(s, (n - 1) as nat);
        let before = fragments_upto(s, (n - 1) as nat);
        let now = fragments_upto(s, n);
        let c = s[n - 1];
        if n == 1 || is_break(s, n - 1) {
            assert forall|k: int| 0 < k < now.len() implies {
                &&& spec_no_break_before(#[trigger] now[k][0]) ==> spec_is_whitespace(now[k - 1].last())
                &&& !spec_no_break_after(now[k - 1].last())
            } by {
                if k == before.len() {
                    assert(now[k] == seq![c]);
                    assert(now[k - 1] == before.last());
                } else {
                    assert(now[k] == before[k] && now[k - 1] == before[k - 1]);
                }
            }
        } else {
            let last = before.len() - 1;
            assert forall|k: int| 0 < k < now.len() implies {
                &&& spec_no_break_before(#[trigger] now[k][0]) ==> spec_is_whitespace(now[k - 1].last())
                &&& !spec_no_break_after(now[k - 1].last())
            } by {
                if k == last {
                    assert(now[k][0] == before[k][0]);
                    assert(now[k - 1] == before[k - 1]);
                } else {
                    assert(now[k] == before[k] && now[k - 1] == before[k - 1]);
                }
            }
            assert forall|k: int| 0 <= k < now.len() implies #[trigger] now[k].len() > 0 by {
                if k < last {
                    assert(now[k] == before[k]);
                }
            }
        }
    }
}

/// A fragment after the first begins with a closing mark only where the
/// fragment before it ends in whitespace, and no fragment but the last ends
/// in an opening bracket: closing marks stay with the word they close and
/// opening brackets with the word they open.
pub proof fn lemma_fragments_keep_marks(s: Seq<char>)
    ensures
        forall|k: int|
            0 < k < spec_fragments(s).len() ==> {
                &&& spec_no_break_before(#[trigger] spec_fragments(s)[k][0])
                    ==> spec_is_whitespace(spec_fragments(s)[k - 1].last())
                &&& !spec_no_break_after(spec_fragments(s)[k - 1].last())
            },
{
    lemma_fragments_upto_marks(s, s.len());
}

} // verus!
