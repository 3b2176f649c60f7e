//! Miscellaneous string utilities: everything after a target, the word after
//! a target, splitting at a delimiter, whitespace tokens.

use vstd::prelude::*;
use crate::text::{
    chars_to_string, find_first_term, find_first_word, find_index, find_pat, first_term_idx,
    first_word_idx, is_space, is_space_char, lemma_first_match_is_find,
    lemma_no_match_is_find_none, str_to_chars, subvec,
};
use crate::lines::views;
use vstd::string::StrSliceExecFns;

verus! {

// ---------------------------------------------------------------------------
// after
// ---------------------------------------------------------------------------

/// What follows the leftmost occurrence of `target` in `s`.
pub open spec fn after_spec(s: Seq<char>, t: Seq<char>) -> Option<Seq<char>> {
    match find_index(s, t) {
        None => None,
        Some(i) => Some(s.subrange(i + t.len(), s.len() as int)),
    }
}

/// The text following the first occurrence of `target`, if any.
pub fn after<'a>(s: &'a str, target: &str) -> (r: Option<&'a str>)
    ensures
        match (after_spec(s@, target@), r) {
            (Some(w), Some(rest)) => rest@ == w,
            (None, None) => true,
            _ => false,
        },
{
    let sv = str_to_chars(s);
    let tv = str_to_chars(target);
    match find_pat(&sv, &tv) {
        None => {
            proof {
                lemma_no_match_is_find_none(s@, target@);
            }
            None
        },
        Some(i) => {
            proof {
                lemma_first_match_is_find(s@, target@, i as int);
            }
            let n = s.unicode_len();
            let tl = target.unicode_len();
            let rest = s.substring_char(i + tl, n);
            Some(rest)
        },
    }
}

// ---------------------------------------------------------------------------
// word_after
// ---------------------------------------------------------------------------

/// When `target` occurs, the rest must hold a word character and a
/// terminator, the word beginning no later than the terminator; this
/// function has nothing sensible to return elsewhere, so such inputs are
/// excluded.
pub open spec fn word_after_defined(s: Seq<char>, t: Seq<char>) -> bool {
    match find_index(s, t) {
        None => true,
        Some(i) => {
            let rest = s.subrange(i + t.len(), s.len() as int);
            match (first_word_idx(rest), first_term_idx(rest)) {
                (Some(w), Some(e)) => w <= e,
                _ => false,
            }
        },
    }
}

/// The word following the leftmost occurrence of `target`: from the first
/// word character of the rest up to its first terminator.
pub open spec fn word_after_spec(s: Seq<char>, t: Seq<char>) -> Option<Seq<char>> {
    match find_index(s, t) {
        None => None,
        Some(i) => {
            let rest = s.subrange(i + t.len(), s.len() as int);
            Some(rest.subrange(first_word_idx(rest)->Some_0, first_term_idx(rest)->Some_0))
        },
    }
}

/// Like [`after`], but extracts the word that follows.
pub fn word_after(txt: &str, target: &str) -> (r: Option<String>)
    requires
        word_after_defined(txt@, target@),
    ensures
        match (word_after_spec(txt@, target@), r) {
            (Some(w), Some(word)) => word@ == w,
            (None, None) => true,
            _ => false,
        },
{
    let sv = str_to_chars(txt);
    let tv = str_to_chars(target);
    match find_pat(&sv, &tv) {
        None => {
            proof {
                lemma_no_match_is_find_none(txt@, target@);
            }
            None
        },
        Some(i) => {
            proof {
                lemma_first_match_is_find(txt@, target@, i as int);
            }
            let n = sv.len();
            let rest = subvec(&sv, i + tv.len(), n);
            proof {
                crate::text::lemma_first_word_idx(rest@);
                crate::text::lemma_first_term_idx(rest@);
            }
            let start = match find_first_word(&rest) {
                Some(w) => w,
                None => {
                    proof {
                        assert(false);
                    }
                    0
                },
            };
            let end = match find_first_term(&rest) {
                Some(e) => e,
                None => {
                    proof {
                        assert(false);
                    }
                    0
                },
            };
            let word = subvec(&rest, start, end);
            Some(chars_to_string(&word))
        },
    }
}

// ---------------------------------------------------------------------------
// word_after, total form used while scanning snippets
// ---------------------------------------------------------------------------

/// The word following the leftmost occurrence of `target`, scanning for the
/// terminator only after the word begins and accepting the end of the text
/// as a terminator.  Total on all inputs; the snippet scanner uses this.
pub open spec fn word_after_tot_spec(s: Seq<char>, t: Seq<char>) -> Option<Seq<char>> {
    match find_index(s, t) {
        None => None,
        Some(i) => {
            let rest = s.subrange(i + t.len(), s.len() as int);
            match first_word_idx(rest) {
                None => None,
                Some(w) => {
                    let tail = rest.subrange(w, rest.len() as int);
                    let e = match first_term_idx(tail) {
                        None => tail.len() as int,
                        Some(e) => e,
                    };
                    Some(tail.subrange(0, e))
                },
            }
        },
    }
}

/// Executable counterpart of [`word_after_tot_spec`], on character vectors.
pub fn word_after_tot(sv: &Vec<char>, tv: &Vec<char>) -> (r: Option<Vec<char>>)
    ensures
        match (word_after_tot_spec(sv@, tv@), r) {
            (Some(w), Some(word)) => word@ == w,
            (None, None) => true,
            _ => false,
        },
{
    match find_pat(sv, tv) {
        None => {
            proof {
                lemma_no_match_is_find_none(sv@, tv@);
            }
            None
        },
        Some(i) => {
            proof {
                lemma_first_match_is_find(sv@, tv@, i as int);
            }
            let n = sv.len();
            let rest = subvec(sv, i + tv.len(), n);
            proof {
                crate::text::lemma_first_word_idx(rest@);
            }
            match find_first_word(&rest) {
                None => None,
                Some(w) => {
                    let tail = subvec(&rest, w, rest.len());
                    proof {
                        crate::text::lemma_first_term_idx(tail@);
                    }
                    let end = match find_first_term(&tail) {
                        None => tail.len(),
                        Some(e) => e,
                    };
                    let word = subvec(&tail, 0, end);
                    Some(word)
                },
            }
        },
    }
}

// ---------------------------------------------------------------------------
// next_2
// ---------------------------------------------------------------------------

/// The first two items of a list that is known to have at least two.
pub fn next_2(items: &Vec<String>) -> (r: (String, String))
    requires
        items@.len() >= 2,
    ensures
        r.0@ == items@[0]@,
        r.1@ == items@[1]@,
{
    (items[0].clone(), items[1].clone())
}

// ---------------------------------------------------------------------------
// split
// ---------------------------------------------------------------------------

/// Split into the parts before and after the first `delim`; the second part
/// is empty when the delimiter is absent.
pub open spec fn split_spec(s: Seq<char>, delim: char) -> (Seq<char>, Seq<char>) {
    match find_index(s, seq![delim]) {
        None => (s, Seq::empty()),
        Some(i) => (s.subrange(0, i), s.subrange(i + 1, s.len() as int)),
    }
}

/// Split in two at the first occurrence of a delimiter.
pub fn split<'a>(txt: &'a str, delim: char) -> (r: (&'a str, &'a str))
    ensures
        r.0@ == split_spec(txt@, delim).0,
        r.1@ == split_spec(txt@, delim).1,
{
    let sv = str_to_chars(txt);
    let mut dv: Vec<char> = Vec::new();
    dv.push(delim);
    proof {
        assert(dv@ =~= seq![delim]);
    }
    match find_pat(&sv, &dv) {
        None => {
            proof {
                lemma_no_match_is_find_none(txt@, seq![delim]);
                assert(txt@.subrange(0, txt@.len() as int) =~= txt@);
            }
            let n = txt.unicode_len();
            (txt.substring_char(0, n), txt.substring_char(n, n))
        },
        Some(i) => {
            proof {
                lemma_first_match_is_find(txt@, seq![delim], i as int);
            }
            let n = txt.unicode_len();
            (txt.substring_char(0, i), txt.substring_char(i + 1, n))
        },
    }
}

/// [`split`] on character vectors.
pub fn split_chars(txt: &Vec<char>, delim: char) -> (r: (Vec<char>, Vec<char>))
    ensures
        r.0@ == split_spec(txt@, delim).0,
        r.1@ == split_spec(txt@, delim).1,
{
    let mut dv: Vec<char> = Vec::new();
    dv.push(delim);
    proof {
        assert(dv@ =~= seq![delim]);
    }
    match find_pat(txt, &dv) {
        None => {
            proof {
                lemma_no_match_is_find_none(txt@, seq![delim]);
                assert(txt@.subrange(0, txt@.len() as int) =~= txt@);
            }
            let n = txt.len();
            (subvec(txt, 0, n), subvec(txt, n, n))
        },
        Some(i) => {
            proof {
                lemma_first_match_is_find(txt@, seq![delim], i as int);
            }
            let n = txt.len();
            (subvec(txt, 0, i), subvec(txt, i + 1, n))
        },
    }
}

// ---------------------------------------------------------------------------
// Whitespace tokens
// ---------------------------------------------------------------------------

/// The whitespace-separated tokens of `s`.
pub open spec fn tokens_spec(s: Seq<char>) -> Seq<Seq<char>>
    decreases s.len(),
{
    if s.len() == 0 {
        seq![]
    } else if is_space_char(s[0]) {
        tokens_spec(s.skip(1))
    } else if s.len() == 1 || is_space_char(s[1]) {
        seq![seq![s[0]]] + tokens_spec(s.skip(1))
    } else {
        let rest = tokens_spec(s.skip(1));
        seq![seq![s[0]] + rest[0]] + rest.skip(1)
    }
}

/// A leading space does not change the tokens.
proof fn lemma_tokens_space(s: Seq<char>)
    requires
        s.len() > 0,
        is_space_char(s[0]),
    ensures
        tokens_spec(s) == tokens_spec(s.skip(1)),
{
}

/// A space-free word followed by a space or the end is one token.
proof fn lemma_tokens_word(w: Seq<char>, rest: Seq<char>)
    requires
        w.len() > 0,
        forall|k: int| 0 <= k < w.len() ==> !is_space_char(w[k]),
        rest.len() == 0 || is_space_char(rest[0]),
    ensures
        tokens_spec(w + rest) == seq![w] + tokens_spec(rest),
    decreases w.len(),
{
    let s = w + rest;
    assert(s[0] == w[0]);
    if w.len() == 1 {
        if rest.len() == 0 {
            assert(s.len() == 1);
            assert(s.skip(1) =~= rest);
            assert(seq![s[0]] =~= w);
            assert(tokens_spec(s) =~= seq![w] + tokens_spec(rest));
        } else {
            assert(s[1] == rest[0]);
            assert(s.skip(1) =~= rest);
            assert(seq![s[0]] =~= w);
            assert(tokens_spec(s) =~= seq![w] + tokens_spec(rest));
        }
    } else {
        assert(s[1] == w[1]);
        assert(!is_space_char(s[1]));
        lemma_tokens_word(w.skip(1), rest);
        assert(s.skip(1) =~= w.skip(1) + rest);
        let ts = tokens_spec(s.skip(1));
        assert(ts == seq![w.skip(1)] + tokens_spec(rest));
        assert(seq![s[0]] + ts[0] =~= w);
        assert(tokens_spec(s) =~= seq![w] + tokens_spec(rest)) by {
            assert(ts.skip(1) =~= tokens_spec(rest));
        }
    }
}

/// Split into whitespace-separated tokens.
pub fn tokens(s: &str) -> (r: Vec<String>)
    ensures
        views(r@) == tokens_spec(s@),
{
    let sv = str_to_chars(s);
    let mut r: Vec<String> = Vec::new();
    let mut pos: usize = 0;
    proof {
        assert(sv@.skip(0) =~= sv@);
        assert(views(r@) =~= Seq::<Seq<char>>::empty());
        assert(views(r@) + tokens_spec(s@) =~= tokens_spec(s@));
    }
    while pos < sv.len()
        invariant
            sv@ == s@,
            0 <= pos <= sv@.len(),
            views(r@) + tokens_spec(sv@.skip(pos as int)) == tokens_spec(s@),
        decreases sv@.len() - pos,
    {
        if is_space(sv[pos]) {
            proof {
                lemma_tokens_space(sv@.skip(pos as int));
                assert(sv@.skip(pos as int).skip(1) =~= sv@.skip(pos + 1));
            }
            pos += 1;
        } else {
            let mut j: usize = pos;
            while j < sv.len() && !is_space(sv[j])
                invariant
                    pos <= j <= sv@.len(),
                    forall|k: int| pos <= k < j ==> !is_space_char(sv@[k]),
                decreases sv@.len() - j,
            {
                j += 1;
            }
            let word = subvec(&sv, pos, j);
            proof {
                let tail = sv@.skip(pos as int);
                assert(word@ =~= tail.subrange(0, (j - pos) as int));
                assert forall|k: int| 0 <= k < word@.len() implies !is_space_char(word@[k]) by {
                    assert(word@[k] == sv@[pos + k]);
                }
                assert(tail =~= word@ + sv@.skip(j as int));
                assert(sv@.skip(j as int).len() == 0 || is_space_char(sv@.skip(j as int)[0]));
                lemma_tokens_word(word@, sv@.skip(j as int));
            }
            let token = chars_to_string(&word);
            proof {
                crate::lines::lemma_views_push(r@, token);
                assert(views(r@).push(token@) + tokens_spec(sv@.skip(j as int)) =~= views(r@)
                    + (seq![word@] + tokens_spec(sv@.skip(j as int))));
            }
            r.push(token);
            pos = j;
        }
    }
    proof {
        assert(tokens_spec(sv@.skip(pos as int)) =~= Seq::<Seq<char>>::empty());
        assert(views(r@) =~= views(r@) + Seq::<Seq<char>>::empty());
    }
    r
}

} // verus!
