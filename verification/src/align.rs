//! Aligning two sequences of word keys: the longest common subsequence under
//! a forgiving word match, and the alignment that realises it.

use vstd::prelude::*;
use crate::text::chars_of;

verus! {

/// The length of `s` in UTF-8 bytes, as `str::len` reports it.
pub open spec fn byte_len(s: Seq<char>) -> usize {
    vstd::utf8::encode_utf8(s).len() as usize
}

/// Whether `p` is a prefix of `s`.
pub open spec fn is_prefix(p: Seq<char>, s: Seq<char>) -> bool {
    p.len() <= s.len() && s.subrange(0, p.len() as int) == p
}

/// Whether two keys name the same word: they are equal, or the shorter (in
/// bytes) is at least 4 bytes long, at most 2 bytes shorter, and a prefix of
/// the longer.
pub open spec fn spec_akin(left: Seq<char>, right: Seq<char>) -> bool {
    ||| left == right
    ||| if byte_len(left) <= byte_len(right) {
        byte_len(left) >= 4 && byte_len(right) - byte_len(left) <= 2 && is_prefix(left, right)
    } else {
        byte_len(right) >= 4 && byte_len(left) - byte_len(right) <= 2 && is_prefix(right, left)
    }
}

/// Whether `prefix` is a prefix of `s`, character by character.
fn starts_with(s: &str, prefix: &str) -> (b: bool)
    ensures
        b == is_prefix(prefix@, s@),
{
    let whole = chars_of(s);
    let head = chars_of(prefix);
    if head.len() > whole.len() {
        return false;
    }
    let mut k: usize = 0;
    while k < head.len()
        invariant
            whole@ == s@,
            head@ == prefix@,
            head@.len() <= whole@.len(),
            k <= head@.len(),
            forall|j: int| 0 <= j < k ==> whole@[j] == head@[j],
        decreases head@.len() - k,
    {
        if whole[k] != head[k] {
            assert(s@.subrange(0, prefix@.len() as int)[k as int] != prefix@[k as int]);
            return false;
        }
        k = k + 1;
    }
    assert(s@.subrange(0, prefix@.len() as int) =~= prefix@);
    true
}

/// Whether two keys name the same word.
pub fn akin(left: &String, right: &String) -> (b: bool)
    ensures
        b == spec_akin(left@, right@),
{
    if *left == *right {
        return true;
    }
    let (short, long) = if left.as_str().len() <= right.as_str().len() {
        (left, right)
    } else {
        (right, left)
    };
    short.as_str().len() >= 4 && long.as_str().len() - short.as_str().len() <= 2 && starts_with(
        long.as_str(),
        short.as_str(),
    )
}

/// The length of the longest common subsequence, under `spec_akin`, of
/// `a[i..]` and `b[j..]`.
pub open spec fn lcs(a: Seq<Seq<char>>, b: Seq<Seq<char>>, i: int, j: int) -> nat
    decreases a.len() - i + b.len() - j,
{
    if i < 0 || j < 0 || i >= a.len() || j >= b.len() {
        0
    } else if spec_akin(a[i], b[j]) {
        1 + lcs(a, b, i + 1, j + 1)
    } else {
        let down = lcs(a, b, i + 1, j);
        let right = lcs(a, b, i, j + 1);
        if down >= right {
            down
        } else {
            right
        }
    }
}

/// The alignment of `a[i..]` and `b[j..]` that `paired` reports: matching
/// words are paired at once; otherwise the side whose skip keeps the longer
/// common subsequence is skipped, `a` on a tie.
pub open spec fn trace(a: Seq<Seq<char>>, b: Seq<Seq<char>>, i: int, j: int) -> Seq<(int, int)>
    decreases a.len() - i + b.len() - j,
{
    if i < 0 || j < 0 || i >= a.len() || j >= b.len() {
        Seq::empty()
    } else if spec_akin(a[i], b[j]) {
        seq![(i, j)] + trace(a, b, i + 1, j + 1)
    } else if lcs(a, b, i + 1, j) >= lcs(a, b, i, j + 1) {
        trace(a, b, i + 1, j)
    } else {
        trace(a, b, i, j + 1)
    }
}

/// Whether `m` pairs words of `a` with akin words of `b`, in order on both
/// sides, using indices from `i` and `j` on.
pub open spec fn is_matching(a: Seq<Seq<char>>, b: Seq<Seq<char>>, m: Seq<(int, int)>, i: int, j: int) -> bool {
    &&& forall|k: int|
        0 <= k < m.len() ==> i <= (#[trigger] m[k]).0 < a.len() && j <= m[k].1 < b.len()
            && spec_akin(a[m[k].0], b[m[k].1])
    &&& forall|k: int, l: int|
        0 <= k < l < m.len() ==> (#[trigger] m[k]).0 < (#[trigger] m[l]).0 && m[k].1 < m[l].1
}

proof fn lemma_lcs_bounded(a: Seq<Seq<char>>, b: Seq<Seq<char>>, i: int, j: int)
    requires
        0 <= i <= a.len(),
        0 <= j <= b.len(),
    ensures
        lcs(a, b, i, j) <= a.len() - i,
    decreases a.len() - i + b.len() - j,
{
    if i < a.len() && j < b.len() {
        lemma_lcs_bounded(a, b, i + 1, j + 1);
        lemma_lcs_bounded(a, b, i + 1, j);
        lemma_lcs_bounded(a, b, i, j + 1);
    }
}

/// The reported alignment is a matching, and as long as the longest common
/// subsequence.
pub proof fn lemma_trace_is_matching(a: Seq<Seq<char>>, b: Seq<Seq<char>>, i: int, j: int)
    requires
        0 <= i <= a.len(),
        0 <= j <= b.len(),
    ensures
        is_matching(a, b, trace(a, b, i, j), i, j),
        trace(a, b, i, j).len() == lcs(a, b, i, j),
    decreases a.len() - i + b.len() - j,
{
    if i < a.len() && j < b.len() {
        if spec_akin(a[i], b[j]) {
            lemma_trace_is_matching(a, b, i + 1, j + 1);
            let rest = trace(a, b, i + 1, j + 1);
            let m = trace(a, b, i, j);
            assert(m == seq![(i, j)] + rest);
            assert forall|k: int| 0 < k < m.len() implies #[trigger] m[k] == rest[k - 1] by {}
            assert forall|k: int, l: int| 0 <= k < l < m.len() implies (#[trigger] m[k]).0
                < (#[trigger] m[l]).0 && m[k].1 < m[l].1 by {
                if k > 0 {
                    assert(m[k] == rest[k - 1] && m[l] == rest[l - 1]);
                } else {
                    assert(m[l] == rest[l - 1]);
                }
            }
        } else if lcs(a, b, i + 1, j) >= lcs(a, b, i, j + 1) {
            lemma_trace_is_matching(a, b, i + 1, j);
        } else {
            lemma_trace_is_matching(a, b, i, j + 1);
        }
    }
}

/// No matching of `a[i..]` with `b[j..]` is longer than their longest common
/// subsequence.
pub proof fn lemma_lcs_is_longest(
    a: Seq<Seq<char>>,
    b: Seq<Seq<char>>,
    m: Seq<(int, int)>,
    i: int,
    j: int,
)
    requires
        0 <= i,
        0 <= j,
        is_matching(a, b, m, i, j),
    ensures
        m.len() <= lcs(a, b, i, j),
    decreases a.len() - i + b.len() - j,
{
    if m.len() > 0 {
        let (p, q) = m[0];
        assert(i <= p < a.len() && j <= q < b.len());
        if spec_akin(a[i], b[j]) {
            let rest = m.drop_first();
            assert forall|k: int| 0 <= k < rest.len() implies i + 1 <= (#[trigger] rest[k]).0 && j
                + 1 <= rest[k].1 by {
                assert(rest[k] == m[k + 1]);
            }
            assert forall|k: int, l: int| 0 <= k < l < rest.len() implies (#[trigger] rest[k]).0
                < (#[trigger] rest[l]).0 && rest[k].1 < rest[l].1 by {
                assert(rest[k] == m[k + 1] && rest[l] == m[l + 1]);
            }
            lemma_lcs_is_longest(a, b, rest, i + 1, j + 1);
        } else if p > i {
            assert forall|k: int| 0 <= k < m.len() implies i + 1 <= (#[trigger] m[k]).0 by {
                if k > 0 {
                    assert(m[0].0 < m[k].0);
                }
            }
            lemma_lcs_is_longest(a, b, m, i + 1, j);
        } else {
            assert(q > j);
            assert forall|k: int| 0 <= k < m.len() implies j + 1 <= (#[trigger] m[k]).1 by {
                if k > 0 {
                    assert(m[0].1 < m[k].1);
                }
            }
            lemma_lcs_is_longest(a, b, m, i, j + 1);
        }
    }
}

/// The alignment `paired` reports is a matching of akin keys, in order on
/// both sides, and no such matching is longer: it is a longest common
/// subsequence under `spec_akin`.
pub proof fn lemma_alignment_is_longest(a: Seq<Seq<char>>, b: Seq<Seq<char>>, m: Seq<(int, int)>)
    requires
        is_matching(a, b, m, 0, 0),
    ensures
        is_matching(a, b, trace(a, b, 0, 0), 0, 0),
        m.len() <= trace(a, b, 0, 0).len(),
{
    lemma_trace_is_matching(a, b, 0, 0);
    lemma_lcs_is_longest(a, b, m, 0, 0);
}

/// The views of a sequence of keys.
pub open spec fn key_views(keys: Seq<String>) -> Seq<Seq<char>> {
    keys.map_values(|k: String| k@)
}

/// The views of a sequence of index pairs.
pub open spec fn pair_views(pairs: Seq<(usize, usize)>) -> Seq<(int, int)> {
    pairs.map_values(|p: (usize, usize)| (p.0 as int, p.1 as int))
}

/// Pairs the keys of `left` with akin keys of `right`, in order on both sides,
/// as many as possible: the longest common subsequence under `spec_akin`.
pub fn paired(left: &Vec<String>, right: &Vec<String>) -> (pairs: Vec<(usize, usize)>)
    requires
        left@.len() < 0xffff_ffff,
        right@.len() < 0xffff_ffff,
    ensures
        pair_views(pairs@) == trace(key_views(left@), key_views(right@), 0, 0),
        pairs@.len() <= left@.len(),
{
    let ghost a = key_views(left@);
    let ghost b = key_views(right@);
    let rows = left.len();
    let columns = right.len();
    let mut table: Vec<Vec<u32>> = Vec::new();
    let mut r: usize = 0;
    while r <= rows
        invariant
            r <= rows + 1,
            rows < 0xffff_ffff,
            columns < 0xffff_ffff,
            table@.len() == r,
            forall|k: int| 0 <= k < r ==> (#[trigger] table@[k])@.len() == columns + 1,
            forall|k: int, c: int|
                0 <= k < r && 0 <= c <= columns ==> #[trigger] table@[k]@[c] == 0,
        decreases rows + 1 - r,
    {
        table.push(vec![0u32; columns + 1]);
        r = r + 1;
    }
    let mut row: usize = rows;
    while row > 0
        invariant
            row <= rows,
            a == key_views(left@),
            b == key_views(right@),
            rows == a.len() < 0xffff_ffff,
            columns == b.len() < 0xffff_ffff,
            table@.len() == rows + 1,
            forall|k: int| 0 <= k <= rows ==> (#[trigger] table@[k])@.len() == columns + 1,
            forall|k: int, c: int|
                row <= k <= rows && 0 <= c <= columns ==> #[trigger] table@[k]@[c] == lcs(
                    a,
                    b,
                    k,
                    c,
                ),
        decreases row,
    {
        row = row - 1;
        let mut current: Vec<u32> = vec![0u32; columns + 1];
        let mut column: usize = columns;
        while column > 0
            invariant
                row < rows,
                column <= columns,
                a == key_views(left@),
                b == key_views(right@),
                rows == a.len() < 0xffff_ffff,
                columns == b.len() < 0xffff_ffff,
                table@.len() == rows + 1,
                forall|k: int| 0 <= k <= rows ==> (#[trigger] table@[k])@.len() == columns + 1,
                forall|k: int, c: int|
                    row + 1 <= k <= rows && 0 <= c <= columns ==> #[trigger] table@[k]@[c]
                        == lcs(a, b, k, c),
                current@.len() == columns + 1,
                forall|c: int| column <= c <= columns ==> #[trigger] current@[c] == lcs(a, b, row as int, c),
            decreases column,
        {
            column = column - 1;
            proof {
                lemma_lcs_bounded(a, b, row + 1, column + 1);
            }
            let value = if akin(&left[row], &right[column]) {
                table[row + 1][column + 1] + 1
            } else {
                let down = table[row + 1][column];
                let across = current[column + 1];
                if down >= across {
                    down
                } else {
                    across
                }
            };
            current.set(column, value);
        }
        table.set(row, current);
    }
    let mut pairs: Vec<(usize, usize)> = Vec::new();
    let mut i: usize = 0;
    let mut j: usize = 0;
    while i < rows && j < columns
        invariant
            a == key_views(left@),
            b == key_views(right@),
            rows == a.len(),
            columns == b.len(),
            i <= rows,
            j <= columns,
            table@.len() == rows + 1,
            forall|k: int| 0 <= k <= rows ==> (#[trigger] table@[k])@.len() == columns + 1,
            forall|k: int, c: int|
                0 <= k <= rows && 0 <= c <= columns ==> #[trigger] table@[k]@[c] == lcs(
                    a,
                    b,
                    k,
                    c,
                ),
            pair_views(pairs@) + trace(a, b, i as int, j as int) == trace(a, b, 0, 0),
        decreases rows - i + columns - j,
    {
        let ghost before = pair_views(pairs@);
        if akin(&left[i], &right[j]) {
            pairs.push((i, j));
            assert(pair_views(pairs@) =~= before.push((i as int, j as int)));
            assert(trace(a, b, i as int, j as int) == seq![(i as int, j as int)] + trace(
                a,
                b,
                i + 1,
                j + 1,
            ));
            assert(before + trace(a, b, i as int, j as int) =~= pair_views(pairs@) + trace(
                a,
                b,
                i + 1,
                j + 1,
            ));
            i = i + 1;
            j = j + 1;
        } else if table[i + 1][j] >= table[i][j + 1] {
            i = i + 1;
        } else {
            j = j + 1;
        }
    }
    assert(trace(a, b, i as int, j as int) =~= Seq::empty());
    assert(pair_views(pairs@) =~= trace(a, b, 0, 0));
    proof {
        lemma_trace_is_matching(a, b, 0, 0);
        lemma_lcs_bounded(a, b, 0, 0);
    }
    pairs
}

} // verus!
