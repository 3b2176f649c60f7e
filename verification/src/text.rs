//! Character-level text model shared by the whole library.
//!
//! Source text is modelled as a `Seq<char>` (the view of `&str`, `String`
//! and `Vec<char>`).  This module defines the character classes the library
//! recognizes, substring matching, line splitting, delimiter splitting and a
//! lexicographic order, together with the executable primitives that
//! implement them.

use vstd::prelude::*;

verus! {

// ---------------------------------------------------------------------------
// Character classes
// ---------------------------------------------------------------------------

/// The whitespace characters this library recognizes: the ASCII whitespace
/// set.
pub open spec fn is_space_char(c: char) -> bool {
    c == ' ' || c == '\t' || c == '\r' || c == '\n' || c == '\u{b}' || c == '\u{c}'
}

/// ASCII letters and digits; the characters that may start a deduced name.
pub open spec fn is_word_char(c: char) -> bool {
    (48 <= c as u32 && c as u32 <= 57)  // 0-9
    || (65 <= c as u32 && c as u32 <= 90)  // A-Z
    || (97 <= c as u32 && c as u32 <= 122)  // a-z
}

pub fn is_space(c: char) -> (r: bool)
    ensures
        r == is_space_char(c),
{
    c == ' ' || c == '\t' || c == '\r' || c == '\n' || c == '\u{b}' || c == '\u{c}'
}

pub fn is_word(c: char) -> (r: bool)
    ensures
        r == is_word_char(c),
{
    let u = c as u32;
    (48 <= u && u <= 57) || (65 <= u && u <= 90) || (97 <= u && u <= 122)
}

/// `c` appears nowhere in `s`.
pub open spec fn char_free(s: Seq<char>, c: char) -> bool {
    forall|i: int| 0 <= i < s.len() ==> s[i] != c
}

/// No whitespace character appears in `s`.
pub open spec fn space_free(s: Seq<char>) -> bool {
    forall|i: int| 0 <= i < s.len() ==> !is_space_char(s[i])
}

/// Absence of a character distributes over concatenation.
pub proof fn lemma_char_free_concat(a: Seq<char>, b: Seq<char>, c: char)
    ensures
        char_free(a + b, c) == (char_free(a, c) && char_free(b, c)),
{
    if char_free(a, c) && char_free(b, c) {
        assert forall|i: int| 0 <= i < (a + b).len() implies (a + b)[i] != c by {
            if i < a.len() {
                assert((a + b)[i] == a[i]);
            } else {
                assert((a + b)[i] == b[i - a.len()]);
            }
        }
    }
    if char_free(a + b, c) {
        assert forall|i: int| 0 <= i < a.len() implies a[i] != c by {
            assert((a + b)[i] == a[i]);
        }
        assert forall|i: int| 0 <= i < b.len() implies b[i] != c by {
            assert((a + b)[a.len() + i] == b[i]);
        }
    }
}

// ---------------------------------------------------------------------------
// Substring matching
// ---------------------------------------------------------------------------

/// The pattern `p` occurs in `s` starting at position `i`.
pub open spec fn match_at(s: Seq<char>, p: Seq<char>, i: int) -> bool {
    &&& 0 <= i
    &&& i + p.len() <= s.len()
    &&& forall|j: int| 0 <= j < p.len() ==> s[i + j] == p[j]
}

/// The pattern `p` occurs somewhere in `s`.
pub open spec fn contains_pat(s: Seq<char>, p: Seq<char>) -> bool {
    exists|i: int| match_at(s, p, i)
}

/// `i` is the leftmost position at which `p` occurs in `s`.
pub open spec fn first_match(s: Seq<char>, p: Seq<char>, i: int) -> bool {
    match_at(s, p, i) && forall|k: int| 0 <= k < i ==> !match_at(s, p, k)
}

/// `p` is a prefix of `s`.
pub open spec fn starts_with(s: Seq<char>, p: Seq<char>) -> bool {
    match_at(s, p, 0)
}

pub fn match_at_exec(s: &Vec<char>, p: &Vec<char>, i: usize) -> (r: bool)
    requires
        i + p@.len() <= s@.len(),
    ensures
        r == match_at(s@, p@, i as int),
{
    let sn = s.len();
    let pn = p.len();
    let mut j: usize = 0;
    while j < pn
        invariant
            sn == s@.len(),
            pn == p@.len(),
            i + pn <= sn,
            0 <= j <= pn,
            forall|k: int| 0 <= k < j ==> s@[i + k] == p@[k],
        decreases pn - j,
    {
        if s[i + j] != p[j] {
            return false;
        }
        j += 1;
    }
    true
}

/// Leftmost occurrence of `p` in `s`, if any.
pub fn find_pat(s: &Vec<char>, p: &Vec<char>) -> (r: Option<usize>)
    ensures
        match r {
            Some(i) => first_match(s@, p@, i as int),
            None => !contains_pat(s@, p@),
        },
{
    if p.len() > s.len() {
        assert(forall|i: int| !match_at(s@, p@, i));
        return None;
    }
    if p.len() == 0 {
        assert(match_at(s@, p@, 0));
        return Some(0);
    }
    let bound = s.len() - p.len();
    let mut i: usize = 0;
    loop
        invariant
            0 < p@.len() <= s@.len(),
            bound == s@.len() - p@.len(),
            bound < usize::MAX,
            0 <= i <= bound + 1,
            forall|k: int| 0 <= k < i ==> !match_at(s@, p@, k),
        decreases bound + 1 - i,
    {
        if i > bound {
            proof {
                assert forall|k: int| !match_at(s@, p@, k) by {
                    if k > bound {
                        assert(k + p@.len() > s@.len());
                    }
                }
            }
            return None;
        }
        if match_at_exec(s, p, i) {
            return Some(i);
        }
        i += 1;
    }
}

pub fn starts_with_exec(s: &Vec<char>, p: &Vec<char>) -> (r: bool)
    ensures
        r == starts_with(s@, p@),
{
    if p.len() > s.len() {
        return false;
    }
    match_at_exec(s, p, 0)
}

// ---------------------------------------------------------------------------
// Generic matching lemmas
// ---------------------------------------------------------------------------

/// A match inside a subrange of `s` is a match inside `s`.
pub proof fn lemma_subrange_clean(s: Seq<char>, p: Seq<char>, a: int, b: int)
    requires
        !contains_pat(s, p),
        0 <= a <= b <= s.len(),
    ensures
        !contains_pat(s.subrange(a, b), p),
{
    assert forall|i: int| !match_at(s.subrange(a, b), p, i) by {
        if match_at(s.subrange(a, b), p, i) {
            assert forall|j: int| 0 <= j < p.len() implies s[a + i + j] == p[j] by {
                assert(s.subrange(a, b)[i + j] == p[j]);
            }
            assert(match_at(s, p, a + i));
        }
    }
}

/// If some character of the pattern appears nowhere in `s`, the pattern
/// cannot occur in `s`.
pub proof fn lemma_char_free_clean(s: Seq<char>, p: Seq<char>, c: char, k: int)
    requires
        char_free(s, c),
        0 <= k < p.len(),
        p[k] == c,
    ensures
        !contains_pat(s, p),
{
    assert forall|i: int| !match_at(s, p, i) by {
        if match_at(s, p, i) {
            assert(s[i + k] == p[k]);
        }
    }
}

/// Concatenation introduces no occurrence when the left part ends with a
/// newline (or is empty) and the pattern contains no newline.
pub proof fn lemma_concat_clean(a: Seq<char>, b: Seq<char>, p: Seq<char>)
    requires
        p.len() > 0,
        char_free(p, '\n'),
        !contains_pat(a, p),
        !contains_pat(b, p),
        a.len() == 0 || a.last() == '\n',
    ensures
        !contains_pat(a + b, p),
{
    let s = a + b;
    assert forall|i: int| !match_at(s, p, i) by {
        if match_at(s, p, i) {
            if i + p.len() <= a.len() {
                assert forall|j: int| 0 <= j < p.len() implies a[i + j] == p[j] by {
                    assert(s[i + j] == p[j]);
                }
                assert(match_at(a, p, i));
            } else if i >= a.len() {
                assert forall|j: int| 0 <= j < p.len() implies b[i - a.len() + j] == p[j] by {
                    assert(s[i + j] == p[j]);
                }
                assert(match_at(b, p, i - a.len()));
            } else {
                // the occurrence would cross the boundary and cover the final
                // newline of `a`
                let k = a.len() - 1 - i;
                assert(s[a.len() - 1] == a.last());
                assert(p[k] == '\n');
            }
        }
    }
}

/// An occurrence in the left part is an occurrence in the concatenation.
pub proof fn lemma_concat_keeps_left(a: Seq<char>, b: Seq<char>, p: Seq<char>, i: int)
    requires
        match_at(a, p, i),
    ensures
        match_at(a + b, p, i),
{
    assert forall|j: int| 0 <= j < p.len() implies (a + b)[i + j] == p[j] by {
        assert(a[i + j] == p[j]);
    }
}

/// An occurrence in the right part is an occurrence in the concatenation.
pub proof fn lemma_concat_keeps_right(a: Seq<char>, b: Seq<char>, p: Seq<char>, i: int)
    requires
        match_at(b, p, i),
    ensures
        match_at(a + b, p, i + a.len()),
{
    assert forall|j: int| 0 <= j < p.len() implies (a + b)[a.len() + i + j] == p[j] by {
        assert(b[i + j] == p[j]);
    }
}

/// Index of the leftmost occurrence of `p` in `s`, if any.
pub open spec fn find_index(s: Seq<char>, p: Seq<char>) -> Option<int>
    decreases s.len(),
{
    if p.len() > s.len() {
        None
    } else if starts_with(s, p) {
        Some(0)
    } else if s.len() == 0 {
        None
    } else {
        match find_index(s.skip(1), p) {
            None => None,
            Some(i) => Some(i + 1),
        }
    }
}

/// A match one position further into `s` is a match of `s.skip(1)`.
pub proof fn lemma_match_shift(s: Seq<char>, p: Seq<char>, i: int)
    requires
        s.len() > 0,
        i >= 1,
    ensures
        match_at(s, p, i) == match_at(s.skip(1), p, i - 1),
{
    if match_at(s, p, i) {
        assert forall|j: int| 0 <= j < p.len() implies s.skip(1)[i - 1 + j] == p[j] by {
            assert(s[i + j] == p[j]);
        }
    }
    if match_at(s.skip(1), p, i - 1) {
        assert forall|j: int| 0 <= j < p.len() implies s[i + j] == p[j] by {
            assert(s.skip(1)[i - 1 + j] == p[j]);
        }
    }
}

/// `find_index` finds exactly the leftmost occurrence.
pub proof fn lemma_find_index(s: Seq<char>, p: Seq<char>)
    ensures
        match find_index(s, p) {
            Some(i) => first_match(s, p, i),
            None => !contains_pat(s, p),
        },
    decreases s.len(),
{
    if p.len() > s.len() {
        assert forall|i: int| !match_at(s, p, i) by {}
    } else if starts_with(s, p) {
    } else if s.len() == 0 {
        assert forall|i: int| !match_at(s, p, i) by {
            if match_at(s, p, i) {
                assert(p.len() == 0);
                assert(match_at(s, p, 0));
            }
        }
    } else {
        lemma_find_index(s.skip(1), p);
        match find_index(s.skip(1), p) {
            None => {
                assert forall|i: int| !match_at(s, p, i) by {
                    if match_at(s, p, i) {
                        if i >= 1 {
                            lemma_match_shift(s, p, i);
                        }
                    }
                }
            },
            Some(i) => {
                lemma_match_shift(s, p, i + 1);
                assert forall|k: int| 0 <= k < i + 1 implies !match_at(s, p, k) by {
                    if k >= 1 {
                        lemma_match_shift(s, p, k);
                    }
                }
            },
        }
    }
}

/// The leftmost occurrence determines `find_index`.
pub proof fn lemma_first_match_is_find(s: Seq<char>, p: Seq<char>, i: int)
    requires
        first_match(s, p, i),
    ensures
        find_index(s, p) == Some(i),
{
    lemma_find_index(s, p);
    match find_index(s, p) {
        None => {
            assert(contains_pat(s, p));
        },
        Some(j) => {
            if j < i {
                assert(!match_at(s, p, j));
            }
            if i < j {
                assert(!match_at(s, p, i));
            }
        },
    }
}

/// Absence of a match determines `find_index`.
pub proof fn lemma_no_match_is_find_none(s: Seq<char>, p: Seq<char>)
    requires
        !contains_pat(s, p),
    ensures
        find_index(s, p).is_none(),
{
    lemma_find_index(s, p);
    if find_index(s, p).is_some() {
        let j = find_index(s, p)->Some_0;
        assert(match_at(s, p, j));
    }
}

// ---------------------------------------------------------------------------
// First character of a class
// ---------------------------------------------------------------------------

/// Index of the first word character in `s`, if any.
pub open spec fn first_word_idx(s: Seq<char>) -> Option<int>
    decreases s.len(),
{
    if s.len() == 0 {
        None
    } else if is_word_char(s[0]) {
        Some(0)
    } else {
        match first_word_idx(s.skip(1)) {
            None => None,
            Some(i) => Some(i + 1),
        }
    }
}

/// A word terminator: a semicolon or whitespace.
pub open spec fn is_term_char(c: char) -> bool {
    c == ';' || is_space_char(c)
}

/// Index of the first word terminator in `s`, if any.
pub open spec fn first_term_idx(s: Seq<char>) -> Option<int>
    decreases s.len(),
{
    if s.len() == 0 {
        None
    } else if is_term_char(s[0]) {
        Some(0)
    } else {
        match first_term_idx(s.skip(1)) {
            None => None,
            Some(i) => Some(i + 1),
        }
    }
}

pub proof fn lemma_first_word_idx(s: Seq<char>)
    ensures
        match first_word_idx(s) {
            Some(i) => 0 <= i < s.len() && is_word_char(s[i]) && forall|k: int|
                0 <= k < i ==> !is_word_char(s[k]),
            None => forall|k: int| 0 <= k < s.len() ==> !is_word_char(s[k]),
        },
    decreases s.len(),
{
    if s.len() > 0 && !is_word_char(s[0]) {
        lemma_first_word_idx(s.skip(1));
        match first_word_idx(s.skip(1)) {
            None => {
                assert forall|k: int| 0 <= k < s.len() implies !is_word_char(s[k]) by {
                    if k >= 1 {
                        assert(!is_word_char(s.skip(1)[k - 1]));
                    }
                }
            },
            Some(i) => {
                assert(s[i + 1] == s.skip(1)[i]);
                assert forall|k: int| 0 <= k < i + 1 implies !is_word_char(s[k]) by {
                    if k >= 1 {
                        assert(!is_word_char(s.skip(1)[k - 1]));
                    }
                }
            },
        }
    }
}

pub proof fn lemma_first_term_idx(s: Seq<char>)
    ensures
        match first_term_idx(s) {
            Some(i) => 0 <= i < s.len() && is_term_char(s[i]) && forall|k: int|
                0 <= k < i ==> !is_term_char(s[k]),
            None => forall|k: int| 0 <= k < s.len() ==> !is_term_char(s[k]),
        },
    decreases s.len(),
{
    if s.len() > 0 && !is_term_char(s[0]) {
        lemma_first_term_idx(s.skip(1));
        match first_term_idx(s.skip(1)) {
            None => {
                assert forall|k: int| 0 <= k < s.len() implies !is_term_char(s[k]) by {
                    if k >= 1 {
                        assert(!is_term_char(s.skip(1)[k - 1]));
                    }
                }
            },
            Some(i) => {
                assert(s[i + 1] == s.skip(1)[i]);
                assert forall|k: int| 0 <= k < i + 1 implies !is_term_char(s[k]) by {
                    if k >= 1 {
                        assert(!is_term_char(s.skip(1)[k - 1]));
                    }
                }
            },
        }
    }
}

pub fn is_term(c: char) -> (r: bool)
    ensures
        r == is_term_char(c),
{
    c == ';' || is_space(c)
}

/// Find the first word character; executable counterpart of
/// [`first_word_idx`].
pub fn find_first_word(s: &Vec<char>) -> (r: Option<usize>)
    ensures
        match r {
            Some(i) => first_word_idx(s@) == Some(i as int),
            None => first_word_idx(s@).is_none(),
        },
{
    let mut i: usize = 0;
    while i < s.len()
        invariant
            0 <= i <= s@.len(),
            forall|k: int| 0 <= k < i ==> !is_word_char(s@[k]),
        decreases s@.len() - i,
    {
        if is_word(s[i]) {
            proof {
                lemma_first_word_idx(s@);
                match first_word_idx(s@) {
                    None => {
                        assert(false);
                    },
                    Some(w) => {
                        assert(!(w < i) && !(i < w));
                    },
                }
            }
            return Some(i);
        }
        i += 1;
    }
    proof {
        lemma_first_word_idx(s@);
        if first_word_idx(s@).is_some() {
            let w = first_word_idx(s@)->Some_0;
            assert(!is_word_char(s@[w]));
        }
    }
    None
}

/// Find the first terminator; executable counterpart of [`first_term_idx`].
pub fn find_first_term(s: &Vec<char>) -> (r: Option<usize>)
    ensures
        match r {
            Some(i) => first_term_idx(s@) == Some(i as int),
            None => first_term_idx(s@).is_none(),
        },
{
    let mut i: usize = 0;
    while i < s.len()
        invariant
            0 <= i <= s@.len(),
            forall|k: int| 0 <= k < i ==> !is_term_char(s@[k]),
        decreases s@.len() - i,
    {
        if is_term(s[i]) {
            proof {
                lemma_first_term_idx(s@);
                match first_term_idx(s@) {
                    None => {
                        assert(false);
                    },
                    Some(w) => {
                        assert(!(w < i) && !(i < w));
                    },
                }
            }
            return Some(i);
        }
        i += 1;
    }
    proof {
        lemma_first_term_idx(s@);
        if first_term_idx(s@).is_some() {
            let w = first_term_idx(s@)->Some_0;
            assert(!is_term_char(s@[w]));
        }
    }
    None
}

// ---------------------------------------------------------------------------
// Trimming
// ---------------------------------------------------------------------------

/// `s` with its leading whitespace removed.
pub open spec fn trim_start_spec(s: Seq<char>) -> Seq<char>
    decreases s.len(),
{
    if s.len() > 0 && is_space_char(s[0]) {
        trim_start_spec(s.skip(1))
    } else {
        s
    }
}

pub proof fn lemma_trim_start(s: Seq<char>)
    ensures
        exists|i: int|
            0 <= i <= s.len() && trim_start_spec(s) == s.subrange(i, s.len() as int)
                && (forall|k: int| 0 <= k < i ==> is_space_char(s[k])),
    decreases s.len(),
{
    if s.len() > 0 && is_space_char(s[0]) {
        lemma_trim_start(s.skip(1));
        let j = choose|j: int|
            0 <= j <= s.skip(1).len() && trim_start_spec(s.skip(1)) == s.skip(1).subrange(
                j,
                s.skip(1).len() as int,
            ) && (forall|k: int| 0 <= k < j ==> is_space_char(s.skip(1)[k]));
        assert(s.skip(1).subrange(j, s.skip(1).len() as int) =~= s.subrange(j + 1, s.len() as int));
        assert forall|k: int| 0 <= k < j + 1 implies is_space_char(s[k]) by {
            if k > 0 {
                assert(is_space_char(s.skip(1)[k - 1]));
            }
        }
    } else {
        assert(trim_start_spec(s) =~= s.subrange(0, s.len() as int));
    }
}

/// Index of the first non-whitespace character (or the length).
pub fn trim_start_idx(s: &Vec<char>) -> (i: usize)
    ensures
        0 <= i <= s@.len(),
        forall|k: int| 0 <= k < i ==> is_space_char(s@[k]),
        trim_start_spec(s@) == s@.subrange(i as int, s@.len() as int),
{
    let mut i: usize = 0;
    while i < s.len() && is_space(s[i])
        invariant
            0 <= i <= s@.len(),
            forall|k: int| 0 <= k < i ==> is_space_char(s@[k]),
        decreases s@.len() - i,
    {
        i += 1;
    }
    proof {
        lemma_trim_idx(s@, i as int);
    }
    i
}

proof fn lemma_trim_idx(s: Seq<char>, i: int)
    requires
        0 <= i <= s.len(),
        forall|k: int| 0 <= k < i ==> is_space_char(s[k]),
        i < s.len() ==> !is_space_char(s[i]),
    ensures
        trim_start_spec(s) == s.subrange(i, s.len() as int),
    decreases s.len(),
{
    if i == 0 {
        if s.len() == 0 || !is_space_char(s[0]) {
            assert(trim_start_spec(s) =~= s.subrange(0, s.len() as int));
        }
    } else {
        lemma_trim_idx(s.skip(1), i - 1);
        assert(s.skip(1).subrange(i - 1, s.skip(1).len() as int) =~= s.subrange(
            i,
            s.len() as int,
        ));
    }
}

/// `s` with its trailing whitespace removed.
pub open spec fn trim_end_spec(s: Seq<char>) -> Seq<char>
    decreases s.len(),
{
    if s.len() > 0 && is_space_char(s.last()) {
        trim_end_spec(s.drop_last())
    } else {
        s
    }
}

/// `s` with leading and trailing whitespace removed.
pub open spec fn trim_spec(s: Seq<char>) -> Seq<char> {
    trim_end_spec(trim_start_spec(s))
}

proof fn lemma_trim_end_idx(s: Seq<char>, i: int)
    requires
        0 <= i <= s.len(),
        forall|k: int| i <= k < s.len() ==> is_space_char(s[k]),
        i > 0 ==> !is_space_char(s[i - 1]),
    ensures
        trim_end_spec(s) == s.subrange(0, i),
    decreases s.len(),
{
    if i == s.len() {
        if s.len() == 0 || !is_space_char(s.last()) {
            assert(trim_end_spec(s) =~= s.subrange(0, i));
        } else {
            lemma_trim_end_idx(s.drop_last(), i - 1);
            assert(s.drop_last().subrange(0, i - 1) =~= s.subrange(0, i - 1));
        }
    } else {
        assert(is_space_char(s.last()));
        lemma_trim_end_idx(s.drop_last(), i);
        assert(s.drop_last().subrange(0, i) =~= s.subrange(0, i));
    }
}

/// Index just past the last non-whitespace character.
pub fn trim_end_idx(s: &Vec<char>) -> (i: usize)
    ensures
        0 <= i <= s@.len(),
        trim_end_spec(s@) == s@.subrange(0, i as int),
{
    let mut i: usize = s.len();
    while i > 0 && is_space(s[i - 1])
        invariant
            0 <= i <= s@.len(),
            forall|k: int| i <= k < s@.len() ==> is_space_char(s@[k]),
        decreases i,
    {
        i -= 1;
    }
    proof {
        lemma_trim_end_idx(s@, i as int);
    }
    i
}

// ---------------------------------------------------------------------------
// Copying and comparing
// ---------------------------------------------------------------------------

/// Copy of `s[a..b]`.
pub fn subvec(s: &Vec<char>, a: usize, b: usize) -> (v: Vec<char>)
    requires
        a <= b <= s@.len(),
    ensures
        v@ == s@.subrange(a as int, b as int),
{
    let mut v: Vec<char> = Vec::new();
    let mut i: usize = a;
    while i < b
        invariant
            a <= i <= b <= s@.len(),
            v@ == s@.subrange(a as int, i as int),
        decreases b - i,
    {
        v.push(s[i]);
        proof {
            assert(s@.subrange(a as int, i as int).push(s@[i as int]) =~= s@.subrange(
                a as int,
                i + 1,
            ));
        }
        i += 1;
    }
    v
}

/// Append a copy of `src` to `dst`.
pub fn append_chars(dst: &mut Vec<char>, src: &Vec<char>)
    ensures
        final(dst)@ == old(dst)@ + src@,
{
    let mut i: usize = 0;
    while i < src.len()
        invariant
            0 <= i <= src@.len(),
            dst@ == old(dst)@ + src@.subrange(0, i as int),
        decreases src@.len() - i,
    {
        dst.push(src[i]);
        proof {
            assert((old(dst)@ + src@.subrange(0, i as int)).push(src@[i as int]) =~= old(dst)@
                + src@.subrange(0, i + 1));
        }
        i += 1;
    }
    proof {
        assert(src@.subrange(0, src@.len() as int) =~= src@);
    }
}

pub fn chars_eq(a: &Vec<char>, b: &Vec<char>) -> (r: bool)
    ensures
        r == (a@ == b@),
{
    if a.len() != b.len() {
        return false;
    }
    let mut i: usize = 0;
    while i < a.len()
        invariant
            a@.len() == b@.len(),
            0 <= i <= a@.len(),
            forall|k: int| 0 <= k < i ==> a@[k] == b@[k],
        decreases a@.len() - i,
    {
        if a[i] != b[i] {
            return false;
        }
        i += 1;
    }
    proof {
        assert(a@ =~= b@);
    }
    true
}

// ---------------------------------------------------------------------------
// Lexicographic order on character sequences
// ---------------------------------------------------------------------------

/// Strict lexicographic order by code point.  For text encoded as UTF-8 this
/// agrees with the byte order std uses for strings.
pub open spec fn seq_lt(a: Seq<char>, b: Seq<char>) -> bool
    decreases a.len(),
{
    if b.len() == 0 {
        false
    } else if a.len() == 0 {
        true
    } else if (a[0] as u32) < (b[0] as u32) {
        true
    } else if a[0] != b[0] {
        false
    } else {
        seq_lt(a.skip(1), b.skip(1))
    }
}

pub proof fn lemma_seq_lt_trichotomy(a: Seq<char>, b: Seq<char>)
    ensures
        seq_lt(a, b) || seq_lt(b, a) || a == b,
        seq_lt(a, b) ==> !seq_lt(b, a) && a != b,
        seq_lt(b, a) ==> !seq_lt(a, b) && a != b,
    decreases a.len(),
{
    if a.len() == 0 && b.len() == 0 {
        assert(a =~= b);
    } else if a.len() > 0 && b.len() > 0 {
        if a[0] == b[0] {
            lemma_seq_lt_trichotomy(a.skip(1), b.skip(1));
            if a.skip(1) == b.skip(1) {
                assert(a =~= b) by {
                    assert(forall|i: int|
                        1 <= i < a.len() ==> a[i] == a.skip(1)[i - 1] && b[i] == b.skip(1)[i - 1]);
                }
            }
            if a == b {
                assert(a.skip(1) =~= b.skip(1));
            }
        } else {
            assert(a != b);
            vstd::utf8::char_u32_cast(a[0], a[0] as u32);
            vstd::utf8::char_u32_cast(b[0], b[0] as u32);
            assert(a[0] as u32 != b[0] as u32);
        }
    }
}

pub proof fn lemma_seq_lt_trans(a: Seq<char>, b: Seq<char>, c: Seq<char>)
    requires
        seq_lt(a, b),
        seq_lt(b, c),
    ensures
        seq_lt(a, c),
    decreases a.len(),
{
    if c.len() == 0 {
    } else if b.len() == 0 {
    } else if a.len() == 0 {
    } else {
        if a[0] == b[0] && b[0] == c[0] {
            lemma_seq_lt_trans(a.skip(1), b.skip(1), c.skip(1));
        }
    }
}

/// After a common prefix of length `i`, `a` either ends or has the smaller
/// character: then `a` is lexicographically smaller.
pub proof fn lemma_seq_lt_at(a: Seq<char>, b: Seq<char>, i: int)
    requires
        0 <= i <= a.len(),
        i <= b.len(),
        forall|k: int| 0 <= k < i ==> a[k] == b[k],
        (i < a.len() && i < b.len() && (a[i] as u32) < (b[i] as u32)) || (i == a.len() && i
            < b.len()),
    ensures
        seq_lt(a, b),
    decreases i,
{
    if i == 0 {
        if 0 < a.len() {
            assert((a[0] as u32) < (b[0] as u32));
            assert(a[0] != b[0]);
        }
    } else {
        lemma_seq_lt_at(a.skip(1), b.skip(1), i - 1);
        assert(a[0] == b[0]);
    }
}

/// Three-way comparison in the order of `seq_lt`.
pub fn chars_cmp(a: &Vec<char>, b: &Vec<char>) -> (r: i32)
    ensures
        r == -1 ==> seq_lt(a@, b@),
        r == 1 ==> seq_lt(b@, a@),
        r == 0 ==> a@ == b@,
        r == -1 || r == 0 || r == 1,
{
    let mut i: usize = 0;
    loop
        invariant
            0 <= i <= a@.len(),
            0 <= i <= b@.len(),
            forall|k: int| 0 <= k < i ==> a@[k] == b@[k],
        decreases a@.len() - i,
    {
        if i == a.len() && i == b.len() {
            proof {
                assert(a@ =~= b@);
            }
            return 0;
        }
        if i == a.len() {
            proof {
                lemma_seq_lt_at(a@, b@, i as int);
            }
            return -1;
        }
        if i == b.len() {
            proof {
                lemma_seq_lt_at(b@, a@, i as int);
            }
            return 1;
        }
        let ca = a[i];
        let cb = b[i];
        if (ca as u32) < (cb as u32) {
            proof {
                lemma_seq_lt_at(a@, b@, i as int);
            }
            return -1;
        }
        if (ca as u32) > (cb as u32) {
            proof {
                lemma_seq_lt_at(b@, a@, i as int);
            }
            return 1;
        }
        proof {
            vstd::utf8::char_u32_cast(ca, ca as u32);
            vstd::utf8::char_u32_cast(cb, cb as u32);
            assert(ca == cb);
        }
        i += 1;
    }
}

// ---------------------------------------------------------------------------
// Conversion between `&str` / `String` and `Vec<char>`
// ---------------------------------------------------------------------------

pub fn str_to_chars(s: &str) -> (v: Vec<char>)
    ensures
        v@ == s@,
{
    let n = s.unicode_len();
    let mut v: Vec<char> = Vec::new();
    let mut i: usize = 0;
    while i < n
        invariant
            n == s@.len(),
            0 <= i <= n,
            v@ == s@.subrange(0, i as int),
        decreases n - i,
    {
        v.push(s.get_char(i));
        proof {
            assert(s@.subrange(0, i as int).push(s@[i as int]) =~= s@.subrange(0, i + 1));
        }
        i += 1;
    }
    proof {
        assert(s@.subrange(0, n as int) =~= s@);
    }
    v
}

/// Relies on std's `String::push`: appends the given character to the end of
/// the string.
#[verifier::external_body]
pub(crate) fn string_push(s: &mut String, c: char)
    ensures
        final(s)@ == old(s)@.push(c),
{
    s.push(c);
}

pub fn chars_to_string(v: &Vec<char>) -> (s: String)
    ensures
        s@ == v@,
{
    let mut s = String::new();
    let mut i: usize = 0;
    while i < v.len()
        invariant
            0 <= i <= v@.len(),
            s@ == v@.subrange(0, i as int),
        decreases v@.len() - i,
    {
        string_push(&mut s, v[i]);
        proof {
            assert(v@.subrange(0, i as int).push(v@[i as int]) =~= v@.subrange(0, i + 1));
        }
        i += 1;
    }
    proof {
        assert(v@.subrange(0, v@.len() as int) =~= v@);
    }
    s
}

} // verus!
