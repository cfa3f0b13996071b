//! Estimating how many syllables a word has, by counting vowel groups.

use vstd::prelude::*;
use crate::text::{spec_is_alphabetic, spec_str_lowercase, is_alphabetic, lowercase_str};

verus! {

/// The vowels whose runs are counted as syllables: Latin, Cyrillic and the
/// accented Latin vowels of German and French.
pub open spec fn spec_is_vowel(c: char) -> bool {
    c == 'a' || c == 'e' || c == 'i' || c == 'o' || c == 'u' || c == 'y' || c == 'а' || c == 'е'
        || c == 'ё' || c == 'и' || c == 'о' || c == 'у' || c == 'ы' || c == 'э' || c == 'ю'
        || c == 'я' || c == 'ä' || c == 'ö' || c == 'ü' || c == 'é' || c == 'è' || c == 'ê'
        || c == 'à' || c == 'â' || c == 'î' || c == 'ô' || c == 'ù' || c == 'û'
}

fn is_vowel(c: char) -> (b: bool)
    ensures
        b == spec_is_vowel(c),
{
    match c {
        'a' | 'e' | 'i' | 'o' | 'u' | 'y' | 'а' | 'е' | 'ё' | 'и' | 'о' | 'у' | 'ы' | 'э' | 'ю'
        | 'я' | 'ä' | 'ö' | 'ü' | 'é' | 'è' | 'ê' | 'à' | 'â' | 'î' | 'ô' | 'ù' | 'û' => true,
        _ => false,
    }
}

/// The alphabetic characters of `s`, in order.
pub open spec fn alphabetic_only(s: Seq<char>) -> Seq<char>
    decreases s.len(),
{
    if s.len() == 0 {
        Seq::empty()
    } else if spec_is_alphabetic(s.last()) {
        alphabetic_only(s.drop_last()).push(s.last())
    } else {
        alphabetic_only(s.drop_last())
    }
}

/// The number of maximal runs of vowels in `s`.
pub open spec fn vowel_groups(s: Seq<char>) -> nat
    decreases s.len(),
{
    if s.len() == 0 {
        0
    } else {
        let n = s.len() - 1;
        vowel_groups(s.drop_last()) + if spec_is_vowel(s[n]) && (n == 0 || !spec_is_vowel(
            s[n - 1],
        )) {
            1nat
        } else {
            0nat
        }
    }
}

/// Whether `s` ends with `t`.
pub open spec fn ends_with(s: Seq<char>, t: Seq<char>) -> bool {
    t.len() <= s.len() && s.subrange(s.len() - t.len(), s.len() as int) == t
}

/// The estimated syllable count of `word`: the vowel groups of its lowercase
/// alphabetic characters, one fewer for a silent final "e" (but not after
/// "l" or another "e"), and never less than one.
pub open spec fn spec_syllables(word: Seq<char>) -> nat {
    let clean = alphabetic_only(spec_str_lowercase(word));
    let groups = vowel_groups(clean);
    let silent_e = groups > 1 && ends_with(clean, seq!['e']) && !ends_with(clean, seq!['l', 'e'])
        && !ends_with(clean, seq!['e', 'e']);
    let counted = if silent_e {
        (groups - 1) as nat
    } else {
        groups
    };
    if counted < 1 {
        1
    } else {
        counted
    }
}

/// The letters counted as vowels are exactly the Latin `a e i o u y`, the
/// Cyrillic `а е ё и о у ы э ю я` and the accented `ä ö ü é è ê à â î ô ù û`.
pub proof fn lemma_vowels(c: char)
    ensures
        spec_is_vowel(c) <==> set![
            'a', 'e', 'i', 'o', 'u', 'y', 'а', 'е', 'ё', 'и', 'о', 'у', 'ы', 'э', 'ю', 'я', 'ä',
            'ö', 'ü', 'é', 'è', 'ê', 'à', 'â', 'î', 'ô', 'ù', 'û',
        ].contains(c),
{
}

/// Vowel groups are maximal runs: a letter adds a group exactly when it is a
/// vowel that does not follow a vowel; so a `y` after a consonant (as in
/// "baby" or "happy") starts a group of its own, and a consonant never does.
pub proof fn lemma_vowel_runs(s: Seq<char>, c: char)
    ensures
        vowel_groups(s.push(c)) == vowel_groups(s) + if spec_is_vowel(c) && (s.len() == 0
            || !spec_is_vowel(s.last())) {
            1nat
        } else {
            0nat
        },
        (s.len() == 0 || !spec_is_vowel(s.last())) ==> vowel_groups(s.push('y')) == vowel_groups(s)
            + 1,
        vowel_groups(s) <= s.len(),
    decreases s.len(),
{
    assert(s.push(c).drop_last() =~= s);
    assert(s.push('y').drop_last() =~= s);
    if s.len() > 0 {
        lemma_vowel_runs(s.drop_last(), s.last());
        assert(s.drop_last().push(s.last()) =~= s);
    }
}

/// Estimates the number of syllables in `word`.
pub fn count_syllables(word: &[char]) -> (count: usize)
    ensures
        count == spec_syllables(word@),
        count >= 1,
{
    let lower = lowercase_str(word);
    let mut clean: Vec<char> = Vec::new();
    let mut i: usize = 0;
    while i < lower.len()
        invariant
            i <= lower@.len(),
            clean@ == alphabetic_only(lower@.take(i as int)),
        decreases lower@.len() - i,
    {
        let c = lower[i];
        if is_alphabetic(c) {
            clean.push(c);
        }
        i = i + 1;
        assert(lower@.take(i as int).drop_last() =~= lower@.take(i - 1));
    }
    assert(lower@.take(i as int) =~= lower@);
    if clean.len() == 0 {
        return 1;
    }
    let mut count: usize = 0;
    let mut in_vowel_group = false;
    let mut j: usize = 0;
    while j < clean.len()
        invariant
            j <= clean@.len(),
            count == vowel_groups(clean@.take(j as int)),
            count <= j,
            in_vowel_group == (j > 0 && spec_is_vowel(clean@[j - 1])),
        decreases clean@.len() - j,
    {
        let c = clean[j];
        if is_vowel(c) {
            if !in_vowel_group {
                count = count + 1;
                in_vowel_group = true;
            }
        } else {
            in_vowel_group = false;
        }
        j = j + 1;
        assert(clean@.take(j as int).drop_last() =~= clean@.take(j - 1));
    }
    assert(clean@.take(j as int) =~= clean@);
    let n = clean.len();
    let ends_e = clean[n - 1] == 'e';
    let ends_le = n >= 2 && clean[n - 2] == 'l' && clean[n - 1] == 'e';
    let ends_ee = n >= 2 && clean[n - 2] == 'e' && clean[n - 1] == 'e';
    proof {
        let s = clean@;
        assert(ends_e == ends_with(s, seq!['e'])) by {
            if ends_with(s, seq!['e']) {
                assert(s.subrange(n - 1, n as int)[0] == s[n - 1]);
            }
            if ends_e {
                assert(s.subrange(n - 1, n as int) =~= seq!['e']);
            }
        }
        assert(ends_le == ends_with(s, seq!['l', 'e'])) by {
            if ends_with(s, seq!['l', 'e']) {
                assert(s.subrange(n - 2, n as int)[0] == s[n - 2]);
                assert(s.subrange(n - 2, n as int)[1] == s[n - 1]);
            }
            if ends_le {
                assert(s.subrange(n - 2, n as int) =~= seq!['l', 'e']);
            }
        }
        assert(ends_ee == ends_with(s, seq!['e', 'e'])) by {
            if ends_with(s, seq!['e', 'e']) {
                assert(s.subrange(n - 2, n as int)[0] == s[n - 2]);
                assert(s.subrange(n - 2, n as int)[1] == s[n - 1]);
            }
            if ends_ee {
                assert(s.subrange(n - 2, n as int) =~= seq!['e', 'e']);
            }
        }
    }
    if count > 1 && ends_e && !ends_le && !ends_ee {
        count = count - 1;
    }
    if count < 1 {
        1
    } else {
        count
    }
}

} // verus!
