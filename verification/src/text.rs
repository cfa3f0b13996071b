//! Character-level building blocks: conversions between strings and character
//! sequences, the Unicode character classes the lyric logic relies on, and
//! whitespace trimming.

use vstd::prelude::*;

verus! {

broadcast use vstd::string::group_string_axioms;

/// Whether `c` has the Unicode `White_Space` property: the ASCII tab, line
/// feed, vertical tab, form feed, carriage return and space, next line, the
/// no-break space, the Ogham space mark, the spaces U+2000 to U+200A, the
/// line and paragraph separators, the narrow no-break space, the medium
/// mathematical space and the ideographic space.
pub open spec fn spec_is_whitespace(c: char) -> bool {
    ||| ('\u{0009}' <= c && c <= '\u{000D}')
    ||| c == '\u{0020}'
    ||| c == '\u{0085}'
    ||| c == '\u{00A0}'
    ||| c == '\u{1680}'
    ||| ('\u{2000}' <= c && c <= '\u{200A}')
    ||| c == '\u{2028}'
    ||| c == '\u{2029}'
    ||| c == '\u{202F}'
    ||| c == '\u{205F}'
    ||| c == '\u{3000}'
}

/// The whitespace characters are exactly these 25: tab, line feed, vertical
/// tab, form feed, carriage return, space, next line, no-break space, Ogham
/// space mark, the eleven spaces from en quad to hair space, line separator,
/// paragraph separator, narrow no-break space, medium mathematical space and
/// ideographic space.
pub proof fn lemma_whitespace_members(c: char)
    ensures
        spec_is_whitespace(c) <==> set![
            '\u{0009}', '\u{000A}', '\u{000B}', '\u{000C}', '\u{000D}', '\u{0020}', '\u{0085}',
            '\u{00A0}', '\u{1680}', '\u{2000}', '\u{2001}', '\u{2002}', '\u{2003}', '\u{2004}',
            '\u{2005}', '\u{2006}', '\u{2007}', '\u{2008}', '\u{2009}', '\u{200A}', '\u{2028}',
            '\u{2029}', '\u{202F}', '\u{205F}', '\u{3000}',
        ].contains(c),
{
    if '\u{0009}' <= c && c <= '\u{000D}' {
        assert(c == '\u{0009}' || c == '\u{000A}' || c == '\u{000B}' || c == '\u{000C}' || c == '\u{000D}') by {
            assert(c as u32 >= 9 && c as u32 <= 13);
        }
    }
    if '\u{2000}' <= c && c <= '\u{200A}' {
        assert(0x2000 <= c as u32 <= 0x200A);
    }
}

/// What `char::is_alphanumeric` answers for `c`.
pub uninterp spec fn spec_is_alphanumeric(c: char) -> bool;

/// What `char::is_alphabetic` answers for `c`.
pub uninterp spec fn spec_is_alphabetic(c: char) -> bool;

/// The characters that `char::to_lowercase` yields for `c`.
pub uninterp spec fn spec_char_lowercase(c: char) -> Seq<char>;

/// The characters of what `str::to_lowercase` returns for the string made of `s`.
pub uninterp spec fn spec_str_lowercase(s: Seq<char>) -> Seq<char>;

/// Whether `c` has the Unicode `White_Space` property, as
/// `char::is_whitespace` reports it.
pub(crate) fn is_whitespace(c: char) -> (b: bool)
    ensures
        b == spec_is_whitespace(c),
{
    ('\u{0009}' <= c && c <= '\u{000D}') || c == '\u{0020}' || c == '\u{0085}' || c == '\u{00A0}'
        || c == '\u{1680}' || ('\u{2000}' <= c && c <= '\u{200A}') || c == '\u{2028}' || c
        == '\u{2029}' || c == '\u{202F}' || c == '\u{205F}' || c == '\u{3000}'
}

/// `char::is_alphanumeric`: whether `c` is alphabetic or numeric.
/// The contract names the answer and claims nothing else about it.
#[verifier::external_body]
pub(crate) fn is_alphanumeric(c: char) -> (b: bool)
    ensures
        b == spec_is_alphanumeric(c),
{
    c.is_alphanumeric()
}

/// `char::is_alphabetic`: whether `c` has the Unicode `Alphabetic` property.
/// The contract names the answer and claims nothing else about it.
#[verifier::external_body]
pub(crate) fn is_alphabetic(c: char) -> (b: bool)
    ensures
        b == spec_is_alphabetic(c),
{
    c.is_alphabetic()
}

/// `char::to_lowercase`, collected: the lowercase mapping of `c`. The standard
/// library documents that the mapping is one or more characters; the contract
/// claims that and names the characters.
#[verifier::external_body]
pub(crate) fn lowercase_char(c: char) -> (r: Vec<char>)
    ensures
        r@ == spec_char_lowercase(c),
        r@.len() >= 1,
{
    c.to_lowercase().collect()
}

/// `str::to_lowercase` on the string made of `s`, returned as its characters.
/// The contract names the result and claims nothing else about it.
#[verifier::external_body]
pub(crate) fn lowercase_str(s: &[char]) -> (r: Vec<char>)
    ensures
        r@ == spec_str_lowercase(s@),
{
    let text: String = s.iter().collect();
    text.to_lowercase().chars().collect()
}

/// `String::push`: appends `c` to `s`.
#[verifier::external_body]
pub(crate) fn push_char(s: &mut String, c: char)
    ensures
        final(s)@ == old(s)@.push(c),
{
    s.push(c);
}

/// The characters of `s`, in order.
pub fn chars_of(s: &str) -> (v: Vec<char>)
    ensures
        v@ == s@,
{
    let mut v: Vec<char> = Vec::new();
    for c in it: s.chars()
        invariant
            it.seq() == s@,
            v@ == it.seq().take(it.index()),
    {
        v.push(c);
    }
    v
}

/// The characters `s[from..to]`, as a string.
pub fn string_of(s: &[char], from: usize, to: usize) -> (r: String)
    requires
        from <= to <= s@.len(),
    ensures
        r@ == s@.subrange(from as int, to as int),
{
    let mut r = String::new();
    let mut i: usize = from;
    while i < to
        invariant
            from <= i <= to <= s@.len(),
            r@ == s@.subrange(from as int, i as int),
        decreases to - i,
    {
        push_char(&mut r, s[i]);
        i = i + 1;
        assert(r@ =~= s@.subrange(from as int, i as int));
    }
    r
}

/// The index of the first non-whitespace character of `s` at or after `i`,
/// or `s.len()` when there is none.
pub open spec fn solid_from(s: Seq<char>, i: int) -> int
    decreases s.len() - i,
{
    if i >= s.len() {
        s.len() as int
    } else if !spec_is_whitespace(s[i]) {
        i
    } else {
        solid_from(s, i + 1)
    }
}

/// One past the index of the last non-whitespace character of `s` before `j`,
/// or 0 when there is none.
pub open spec fn solid_until(s: Seq<char>, j: int) -> int
    decreases j,
{
    if j <= 0 {
        0
    } else if !spec_is_whitespace(s[j - 1]) {
        j
    } else {
        solid_until(s, j - 1)
    }
}

/// `s` without its leading and trailing whitespace, as `str::trim` gives it.
pub open spec fn trimmed(s: Seq<char>) -> Seq<char> {
    let lo = solid_from(s, 0);
    let hi = solid_until(s, s.len() as int);
    if lo < hi {
        s.subrange(lo, hi)
    } else {
        Seq::empty()
    }
}

/// `solid_from` lands on a non-whitespace character or the end, never before `i`.
pub proof fn lemma_solid_from(s: Seq<char>, i: int)
    requires
        0 <= i <= s.len(),
    ensures
        i <= solid_from(s, i) <= s.len(),
        solid_from(s, i) < s.len() ==> !spec_is_whitespace(s[solid_from(s, i)]),
        forall|k: int| i <= k < solid_from(s, i) ==> spec_is_whitespace(#[trigger] s[k]),
    decreases s.len() - i,
{
    if i < s.len() && spec_is_whitespace(s[i]) {
        lemma_solid_from(s, i + 1);
    }
}

/// `solid_until` lands just after a non-whitespace character or at 0, never after `j`.
pub proof fn lemma_solid_until(s: Seq<char>, j: int)
    requires
        0 <= j <= s.len(),
    ensures
        0 <= solid_until(s, j) <= j,
        solid_until(s, j) > 0 ==> !spec_is_whitespace(s[solid_until(s, j) - 1]),
        forall|k: int| solid_until(s, j) <= k < j ==> spec_is_whitespace(#[trigger] s[k]),
    decreases j,
{
    if j > 0 && spec_is_whitespace(s[j - 1]) {
        lemma_solid_until(s, j - 1);
    }
}

/// `s` without leading and trailing whitespace.
pub fn trim(s: &[char]) -> (r: Vec<char>)
    ensures
        r@ == trimmed(s@),
{
    let n = s.len();
    let mut lo: usize = 0;
    while lo < n && is_whitespace(s[lo])
        invariant
            lo <= n == s@.len(),
            solid_from(s@, lo as int) == solid_from(s@, 0),
        decreases n - lo,
    {
        lo = lo + 1;
    }
    let mut hi: usize = n;
    while hi > 0 && is_whitespace(s[hi - 1])
        invariant
            hi <= n == s@.len(),
            solid_until(s@, hi as int) == solid_until(s@, n as int),
        decreases hi,
    {
        hi = hi - 1;
    }
    let mut r: Vec<char> = Vec::new();
    if lo < hi {
        let mut i: usize = lo;
        while i < hi
            invariant
                lo <= i <= hi <= n == s@.len(),
                r@ == s@.subrange(lo as int, i as int),
            decreases hi - i,
        {
            r.push(s[i]);
            i = i + 1;
            assert(r@ =~= s@.subrange(lo as int, i as int));
        }
    }
    assert(r@ =~= trimmed(s@));
    r
}

} // verus!
