//! Names and paths of crates and their artifacts.

use vstd::prelude::*;
use crate::text::{char_free, chars_to_string, str_to_chars, subvec};

verus! {

/// Hyphens become underscores: the call-site name of a crate.
pub open spec fn normalized_name(s: Seq<char>) -> Seq<char> {
    s.map_values(|c: char| if c == '-' { '_' } else { c })
}

/// The normalized (underscore-separated) form of a crate name.
pub fn proper_crate_name(crate_name: &str) -> (r: String)
    ensures
        r@ == normalized_name(crate_name@),
{
    let v = str_to_chars(crate_name);
    let mut out: Vec<char> = Vec::new();
    let mut i: usize = 0;
    proof {
        assert(out@ =~= normalized_name(v@.take(0)));
    }
    while i < v.len()
        invariant
            v@ == crate_name@,
            0 <= i <= v@.len(),
            out@ == normalized_name(v@.take(i as int)),
        decreases v@.len() - i,
    {
        let c = v[i];
        if c == '-' {
            out.push('_');
        } else {
            out.push(c);
        }
        proof {
            assert(out@ =~= normalized_name(v@.take(i + 1)));
        }
        i += 1;
    }
    proof {
        assert(v@.take(v@.len() as int) =~= v@);
    }
    chars_to_string(&out)
}

/// A bare name: no path separator and no extension dot.
pub fn plain_name(name: &str) -> (r: bool)
    ensures
        r == (char_free(name@, '/') && char_free(name@, '\\') && char_free(name@, '.')),
{
    let v = str_to_chars(name);
    let mut i: usize = 0;
    while i < v.len()
        invariant
            v@ == name@,
            0 <= i <= v@.len(),
            forall|k: int| 0 <= k < i ==> v@[k] != '/' && v@[k] != '\\' && v@[k] != '.',
        decreases v@.len() - i,
    {
        let c = v[i];
        if c == '/' || c == '\\' || c == '.' {
            return false;
        }
        i += 1;
    }
    true
}

// ---------------------------------------------------------------------------
// Artifact file names
// ---------------------------------------------------------------------------

/// Index of the last occurrence of `c` in `s`, if any.
pub open spec fn last_index_of(s: Seq<char>, c: char) -> Option<int>
    decreases s.len(),
{
    if s.len() == 0 {
        None
    } else if s.last() == c {
        Some(s.len() - 1)
    } else {
        last_index_of(s.drop_last(), c)
    }
}

pub proof fn lemma_last_index_of(s: Seq<char>, c: char)
    ensures
        match last_index_of(s, c) {
            Some(i) => 0 <= i < s.len() && s[i] == c && forall|k: int| i < k < s.len() ==> s[k] != c,
            None => forall|k: int| 0 <= k < s.len() ==> s[k] != c,
        },
    decreases s.len(),
{
    if s.len() > 0 && s.last() != c {
        lemma_last_index_of(s.drop_last(), c);
        match last_index_of(s.drop_last(), c) {
            Some(i) => {
                assert forall|k: int| i < k < s.len() implies s[k] != c by {
                    if k < s.len() - 1 {
                        assert(s.drop_last()[k] != c);
                    }
                }
            },
            None => {
                assert forall|k: int| 0 <= k < s.len() implies s[k] != c by {
                    if k < s.len() - 1 {
                        assert(s.drop_last()[k] != c);
                    }
                }
            },
        }
    }
}

/// The text after the last slash: how this library reads a file name out of
/// a path (build logs use forward slashes).
pub open spec fn file_name_of(s: Seq<char>) -> Seq<char> {
    match last_index_of(s, '/') {
        None => s,
        Some(i) => s.subrange(i + 1, s.len() as int),
    }
}

/// The text after the last dot of the file name, absent when there is no dot
/// or when the name starts with its only dot.
pub open spec fn extension_of(s: Seq<char>) -> Option<Seq<char>> {
    let name = file_name_of(s);
    match last_index_of(name, '.') {
        None => None,
        Some(i) => if i == 0 {
            None
        } else {
            Some(name.subrange(i + 1, name.len() as int))
        },
    }
}

/// Find the last occurrence of a character.
pub fn find_last(v: &Vec<char>, c: char) -> (r: Option<usize>)
    ensures
        match r {
            Some(i) => last_index_of(v@, c) == Some(i as int),
            None => last_index_of(v@, c).is_none(),
        },
{
    let mut i: usize = v.len();
    while i > 0
        invariant
            0 <= i <= v@.len(),
            forall|k: int| i <= k < v@.len() ==> v@[k] != c,
        decreases i,
    {
        i -= 1;
        if v[i] == c {
            proof {
                lemma_last_index_of(v@, c);
                match last_index_of(v@, c) {
                    Some(w) => {
                        assert(!(w < i) && !(i < w));
                    },
                    None => {
                        assert(false);
                    },
                }
            }
            return Some(i);
        }
    }
    proof {
        lemma_last_index_of(v@, c);
        if last_index_of(v@, c).is_some() {
            let w = last_index_of(v@, c)->Some_0;
            assert(v@[w] != c);
        }
    }
    None
}

/// The file name of a path; executable counterpart of [`file_name_of`].
pub fn path_file_name_chars(v: &Vec<char>) -> (r: Vec<char>)
    ensures
        r@ == file_name_of(v@),
{
    let n = v.len();
    proof {
        lemma_last_index_of(v@, '/');
    }
    match find_last(v, '/') {
        None => subvec(v, 0, n),
        Some(i) => subvec(v, i + 1, n),
    }
}

/// The extension of a path; executable counterpart of [`extension_of`].
pub fn path_extension_chars(v: &Vec<char>) -> (r: Option<Vec<char>>)
    ensures
        match (extension_of(v@), r) {
            (Some(e), Some(ev)) => ev@ == e,
            (None, None) => true,
            _ => false,
        },
{
    let name = path_file_name_chars(v);
    let nn = name.len();
    proof {
        lemma_last_index_of(name@, '.');
    }
    match find_last(&name, '.') {
        None => None,
        Some(i) => {
            if i == 0 {
                None
            } else {
                Some(subvec(&name, i + 1, nn))
            }
        },
    }
}

} // verus!
