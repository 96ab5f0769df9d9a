//! Character-level string helpers shared by the parsers and the
//! deterministic orderings: ASCII-case-insensitive comparison, first
//! occurrence of a character, occurrence counts, and code-point
//! lexicographic order.

use vstd::prelude::*;

verus! {

/// The code point of `c`, with ASCII upper-case letters folded to lower
/// case.
pub open spec fn lower_code(c: char) -> u32 {
    if 65 <= c as u32 <= 90 {
        (c as u32 + 32) as u32
    } else {
        c as u32
    }
}

/// Equality of two character sequences up to ASCII case.
pub open spec fn eq_ignore_case(a: Seq<char>, b: Seq<char>) -> bool {
    a.len() == b.len() && forall|i: int| 0 <= i < a.len() ==> lower_code(#[trigger] a[i])
        == lower_code(b[i])
}

/// Compare two strings up to ASCII case.
pub fn str_eq_ignore_case(a: &str, b: &str) -> (r: bool)
    ensures
        r == eq_ignore_case(a@, b@),
{
    let alen = a.unicode_len();
    let blen = b.unicode_len();
    if alen != blen {
        return false;
    }
    let mut i: usize = 0;
    while i < alen
        invariant
            alen == a@.len(),
            alen == b@.len(),
            i <= alen,
            forall|j: int| 0 <= j < i ==> lower_code(#[trigger] a@[j]) == lower_code(b@[j]),
        decreases alen - i,
    {
        let ca = a.get_char(i) as u32;
        let cb = b.get_char(i) as u32;
        let la = if 65 <= ca && ca <= 90 {
            ca + 32
        } else {
            ca
        };
        let lb = if 65 <= cb && cb <= 90 {
            cb + 32
        } else {
            cb
        };
        if la != lb {
            return false;
        }
        i = i + 1;
    }
    true
}

/// The first index at or after `from` whose character is `c`, or `-1` when
/// there is none.
pub open spec fn first_idx_from(s: Seq<char>, from: int, c: char) -> int
    decreases s.len() - from when 0 <= from
{
    if from < 0 || from >= s.len() {
        -1
    } else if s[from] == c {
        from
    } else {
        first_idx_from(s, from + 1, c)
    }
}

/// What `first_idx_from` returns: the least matching index, or `-1` when no
/// index at or after `from` matches.
pub proof fn lemma_first_idx_from(s: Seq<char>, from: int, c: char)
    requires
        0 <= from,
    ensures
        first_idx_from(s, from, c) == -1 ==> forall|j: int|
            from <= j < s.len() ==> s[j] != c,
        first_idx_from(s, from, c) != -1 ==> from <= first_idx_from(s, from, c) < s.len()
            && s[first_idx_from(s, from, c)] == c && forall|j: int|
            from <= j < first_idx_from(s, from, c) ==> s[j] != c,
    decreases s.len() - from,
{
    if from < s.len() && s[from] != c {
        lemma_first_idx_from(s, from + 1, c);
    }
}

/// Find the first occurrence of `c` in `s` at or after `from`.
pub fn find_char_from(s: &str, from: usize, c: char) -> (r: Option<usize>)
    requires
        from <= s@.len(),
    ensures
        match r {
            Some(i) => i == first_idx_from(s@, from as int, c),
            None => first_idx_from(s@, from as int, c) == -1,
        },
    decreases s@.len() - from,
{
    if from == s.unicode_len() {
        None
    } else if s.get_char(from) == c {
        Some(from)
    } else {
        find_char_from(s, from + 1, c)
    }
}

/// The number of occurrences of `c` in `s` at or after `from`.
pub open spec fn count_from(s: Seq<char>, from: int, c: char) -> nat
    decreases s.len() - from when 0 <= from
{
    if from < 0 || from >= s.len() {
        0
    } else {
        count_from(s, from + 1, c) + (if s[from] == c {
            1nat
        } else {
            0nat
        })
    }
}

/// Count the occurrences of `c` in `s` at or after `from`.
pub fn count_char_from(s: &str, from: usize, c: char) -> (r: usize)
    requires
        from <= s@.len(),
    ensures
        r == count_from(s@, from as int, c),
    decreases s@.len() - from,
{
    if from == s.unicode_len() {
        0
    } else {
        let rest = count_char_from(s, from + 1, c);
        proof {
            lemma_count_from_bound(s@, from + 1, c);
        }
        if s.get_char(from) == c {
            rest + 1
        } else {
            rest
        }
    }
}

/// An occurrence count never exceeds the number of positions counted.
pub proof fn lemma_count_from_bound(s: Seq<char>, from: int, c: char)
    requires
        0 <= from,
    ensures
        count_from(s, from, c) <= s.len() - from || count_from(s, from, c) == 0,
    decreases s.len() - from,
{
    if from < s.len() {
        lemma_count_from_bound(s, from + 1, c);
    }
}

/// Code-point lexicographic order on character sequences (total:
/// `lex_le(a, b) || lex_le(b, a)` always holds).
pub open spec fn lex_le(a: Seq<char>, b: Seq<char>) -> bool
    decreases a.len(),
{
    if a.len() == 0 {
        true
    } else if b.len() == 0 {
        false
    } else if (a[0] as u32) < (b[0] as u32) {
        true
    } else if (a[0] as u32) > (b[0] as u32) {
        false
    } else {
        lex_le(a.skip(1), b.skip(1))
    }
}

/// Equal code points come from the same character.
pub proof fn lemma_char_code_injective(x: char, y: char)
    requires
        x as u32 == y as u32,
    ensures
        x == y,
{
}

/// `lex_le` is total: of any two sequences, one is below the other.
pub proof fn lemma_lex_le_total(a: Seq<char>, b: Seq<char>)
    ensures
        lex_le(a, b) || lex_le(b, a),
    decreases a.len(),
{
    if a.len() > 0 && b.len() > 0 && a[0] as u32 == b[0] as u32 {
        lemma_lex_le_total(a.skip(1), b.skip(1));
    }
}

/// `lex_le` in both directions only for equal sequences.
pub proof fn lemma_lex_le_antisymmetric(a: Seq<char>, b: Seq<char>)
    requires
        lex_le(a, b),
        lex_le(b, a),
    ensures
        a =~= b,
    decreases a.len(),
{
    if a.len() > 0 && b.len() > 0 {
        if a[0] as u32 == b[0] as u32 {
            lemma_char_code_injective(a[0], b[0]);
            lemma_lex_le_antisymmetric(a.skip(1), b.skip(1));
            assert(a =~= seq![a[0]] + a.skip(1));
            assert(b =~= seq![b[0]] + b.skip(1));
        }
    }
}

/// `lex_le` chains.
pub proof fn lemma_lex_le_transitive(a: Seq<char>, b: Seq<char>, c: Seq<char>)
    requires
        lex_le(a, b),
        lex_le(b, c),
    ensures
        lex_le(a, c),
    decreases a.len(),
{
    if a.len() > 0 && b.len() > 0 && c.len() > 0 {
        if a[0] as u32 == b[0] as u32 && b[0] as u32 == c[0] as u32 {
            lemma_lex_le_transitive(a.skip(1), b.skip(1), c.skip(1));
        }
    }
}

/// Compare two strings in code-point lexicographic order, from position `i`
/// on.
fn str_lex_le_from(a: &str, b: &str, i: usize) -> (r: bool)
    requires
        i <= a@.len(),
        i <= b@.len(),
    ensures
        r == lex_le(a@.skip(i as int), b@.skip(i as int)),
    decreases a@.len() - i,
{
    if i == a.unicode_len() {
        true
    } else if i == b.unicode_len() {
        false
    } else {
        let ca = a.get_char(i) as u32;
        let cb = b.get_char(i) as u32;
        if ca < cb {
            true
        } else if ca > cb {
            false
        } else {
            let r = str_lex_le_from(a, b, i + 1);
            proof {
                assert(a@.skip(i as int).skip(1) =~= a@.skip(i as int + 1));
                assert(b@.skip(i as int).skip(1) =~= b@.skip(i as int + 1));
            }
            r
        }
    }
}

/// Compare two strings in code-point lexicographic order.
pub fn str_lex_le(a: &str, b: &str) -> (r: bool)
    ensures
        r == lex_le(a@, b@),
{
    let r = str_lex_le_from(a, b, 0);
    proof {
        assert(a@.skip(0) =~= a@);
        assert(b@.skip(0) =~= b@);
    }
    r
}

/// Exact equality of two strings.
pub fn str_eq(a: &str, b: &str) -> (r: bool)
    ensures
        r == (a@ == b@),
{
    let alen = a.unicode_len();
    let blen = b.unicode_len();
    if alen != blen {
        return false;
    }
    let mut i: usize = 0;
    while i < alen
        invariant
            alen == a@.len(),
            alen == b@.len(),
            i <= alen,
            forall|j: int| 0 <= j < i ==> a@[j] == b@[j],
        decreases alen - i,
    {
        if a.get_char(i) != b.get_char(i) {
            return false;
        }
        i = i + 1;
    }
    proof {
        assert(a@ =~= b@);
    }
    true
}

/// The first index in the window `[from, to)` whose character is `c`, or
/// `-1` when there is none.
pub open spec fn idx_between(s: Seq<char>, from: int, to: int, c: char) -> int
    decreases to - from when 0 <= from
{
    if from < 0 || from >= to || from >= s.len() {
        -1
    } else if s[from] == c {
        from
    } else {
        idx_between(s, from + 1, to, c)
    }
}

/// What `idx_between` returns: the least matching index of the window, or
/// `-1` when no index of the window matches.
pub proof fn lemma_idx_between(s: Seq<char>, from: int, to: int, c: char)
    requires
        0 <= from,
        to <= s.len(),
    ensures
        idx_between(s, from, to, c) == -1 ==> forall|j: int| from <= j < to ==> s[j] != c,
        idx_between(s, from, to, c) != -1 ==> from <= idx_between(s, from, to, c) < to
            && s[idx_between(s, from, to, c)] == c && forall|j: int|
            from <= j < idx_between(s, from, to, c) ==> s[j] != c,
    decreases to - from,
{
    if from < to && from < s.len() && s[from] != c {
        lemma_idx_between(s, from + 1, to, c);
    }
}

/// Find the first occurrence of `c` within `[from, to)` of `s`.
pub fn find_char_between(s: &str, from: usize, to: usize, c: char) -> (r: Option<usize>)
    requires
        from <= to,
        to <= s@.len(),
    ensures
        match r {
            Some(i) => i == idx_between(s@, from as int, to as int, c),
            None => idx_between(s@, from as int, to as int, c) == -1,
        },
    decreases to - from,
{
    if from == to {
        None
    } else if s.get_char(from) == c {
        Some(from)
    } else {
        find_char_between(s, from + 1, to, c)
    }
}

/// Where an occurrence exists, `first_idx_from` finds one.
pub proof fn lemma_count_pos_has_idx(s: Seq<char>, from: int, c: char)
    requires
        0 <= from,
        count_from(s, from, c) > 0,
    ensures
        first_idx_from(s, from, c) != -1,
    decreases s.len() - from,
{
    if from < s.len() && s[from] != c {
        lemma_count_pos_has_idx(s, from + 1, c);
    }
}

} // verus!
