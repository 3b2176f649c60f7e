//! Well-formedness classification.
//!
//! Raw input is a complete program only if it declares exactly one entry
//! point; a text with none is always a fragment, and a text with several is
//! ambiguous and rejected — this library fixes that policy rather than
//! falling through to the transformer.  A text with exactly one entry point
//! is only a candidate: the compiler's metadata-only check (run outside this
//! library) has the last word.

use vstd::prelude::*;
use crate::text::{contains_pat, match_at, match_at_exec, str_to_chars, char_free};

verus! {

/// The entry-point marker, counted anywhere in the text: the head of an
/// entry-point declaration, wherever it stands in a line.
pub open spec fn entry_pat() -> Seq<char> {
    "fn main"@
}

/// The characters of the entry-point marker, for reasoning about generated
/// text.
pub proof fn lemma_entry_pat()
    ensures
        entry_pat().len() == 7,
        entry_pat()[0] == 'f',
        entry_pat()[1] == 'n',
        entry_pat()[2] == ' ',
        entry_pat()[3] == 'm',
        entry_pat()[4] == 'a',
        entry_pat()[5] == 'i',
        entry_pat()[6] == 'n',
        char_free(entry_pat(), '\n'),
{
    reveal_strlit("fn main");
}

/// No entry point anywhere in `s`.
pub open spec fn no_entry(s: Seq<char>) -> bool {
    !contains_pat(s, entry_pat())
}

/// Exactly one position in `s` carries an entry point.
pub open spec fn one_entry(s: Seq<char>) -> bool {
    exists|i: int|
        match_at(s, entry_pat(), i) && forall|j: int| match_at(s, entry_pat(), j) ==> j == i
}

/// At least two positions in `s` carry an entry point.
pub open spec fn multi_entry(s: Seq<char>) -> bool {
    exists|i: int, j: int| i != j && match_at(s, entry_pat(), i) && match_at(s, entry_pat(), j)
}

/// What the count of entry points says about a raw input.
pub enum SourceShape {
    /// No entry point: a fragment for the transformer.
    Fragment,
    /// Exactly one entry point: possibly a complete program, subject to the
    /// compiler's confirmation.
    Candidate,
    /// More than one entry point: invalid input, reported to the user.
    Ambiguous,
}

/// Count the positions at which the entry-point marker occurs.
pub fn count_entry_points(s: &str) -> (r: usize)
    ensures
        (r == 0) == no_entry(s@),
        (r == 1) == one_entry(s@),
        (r >= 2) == multi_entry(s@),
{
    let sv = str_to_chars(s);
    let pv = str_to_chars("fn main");
    proof {
        reveal_strlit("fn main");
    }
    let ghost p = entry_pat();
    if pv.len() > sv.len() {
        proof {
            assert(forall|i: int| !match_at(s@, p, i));
            if one_entry(s@) {
                let i = choose|i: int|
                    match_at(s@, p, i) && forall|j: int| match_at(s@, p, j) ==> j == i;
                assert(false);
            }
        }
        return 0;
    }
    let bound = sv.len() - pv.len();
    let mut i: usize = 0;
    let mut count: usize = 0;
    let ghost mut positions: Seq<int> = Seq::empty();
    while i <= bound
        invariant
            p == pv@,
            pv@.len() <= sv@.len(),
            sv@ == s@,
            pv@.len() >= 1,
            bound == sv@.len() - pv@.len(),
            bound < usize::MAX,
            0 <= i <= bound + 1,
            count == positions.len(),
            count <= i,
            forall|a: int, b: int| 0 <= a < b < positions.len() ==> positions[a] < positions[b],
            forall|k: int| 0 <= k < positions.len() ==> 0 <= #[trigger] positions[k] < i,
            forall|k: int| 0 <= k < i ==> (match_at(s@, p, k) <==> positions.contains(k)),
        decreases bound + 1 - i,
    {
        if match_at_exec(&sv, &pv, i) {
            proof {
                let oldp = positions;
                positions = oldp.push(i as int);
                assert forall|k: int| 0 <= k < i + 1 implies (match_at(s@, p, k)
                    <==> positions.contains(k)) by {
                    if k < i {
                        if match_at(s@, p, k) {
                            assert(oldp.contains(k));
                            let idx = choose|idx: int| 0 <= idx < oldp.len() && oldp[idx] == k;
                            assert(positions[idx] == k);
                            assert(positions.contains(k));
                        } else {
                            if positions.contains(k) {
                                let idx = choose|idx: int|
                                    0 <= idx < positions.len() && positions[idx] == k;
                                if idx < positions.len() - 1 {
                                    assert(oldp[idx] == k);
                                    assert(oldp.contains(k));
                                } else {
                                    assert(positions[idx] == i as int);
                                }
                            }
                        }
                    } else {
                        assert(positions[positions.len() - 1] == k);
                        assert(positions.contains(k));
                    }
                }
                assert forall|a: int, b: int|
                    0 <= a < b < positions.len() implies positions[a] < positions[b] by {
                    if b == positions.len() - 1 {
                        assert(positions[a] == oldp[a]);
                        assert(oldp[a] < i as int);
                    } else {
                        assert(positions[a] == oldp[a] && positions[b] == oldp[b]);
                    }
                }
            }
            count += 1;
        } else {
            proof {
                assert forall|k: int| 0 <= k < i + 1 implies (match_at(s@, p, k)
                    <==> positions.contains(k)) by {}
            }
        }
        i += 1;
    }
    proof {
        assert forall|k: int| match_at(s@, p, k) implies positions.contains(k) by {
            if match_at(s@, p, k) {
                assert(k + p.len() <= s@.len());
                assert(k < i);
            }
        }
        if count == 0 {
            assert forall|k: int| !match_at(s@, p, k) by {
                if match_at(s@, p, k) {
                    assert(positions.contains(k));
                }
            }
            assert(!one_entry(s@)) by {
                if one_entry(s@) {
                    let w = choose|w: int|
                        match_at(s@, p, w) && forall|j: int| match_at(s@, p, j) ==> j == w;
                    assert(false);
                }
            }
        }
        if count == 1 {
            let p0 = positions[0];
            assert(positions.contains(p0));
            assert(match_at(s@, p, p0));
            assert forall|j: int| match_at(s@, p, j) implies j == p0 by {
                assert(positions.contains(j));
                let idx = choose|idx: int| 0 <= idx < positions.len() && positions[idx] == j;
            }
            assert(one_entry(s@));
            assert(!multi_entry(s@)) by {
                if multi_entry(s@) {
                    let (a, b) = choose|a: int, b: int|
                        a != b && match_at(s@, p, a) && match_at(s@, p, b);
                    assert(false);
                }
            }
        }
        if count >= 2 {
            assert(positions[0] < positions[1]);
            assert(positions.contains(positions[0]) && positions.contains(positions[1]));
            assert(multi_entry(s@));
            assert(!one_entry(s@)) by {
                if one_entry(s@) {
                    let w = choose|w: int|
                        match_at(s@, p, w) && forall|j: int| match_at(s@, p, j) ==> j == w;
                    assert(positions[0] == w && positions[1] == w);
                }
            }
        }
        if one_entry(s@) {
            let w = choose|w: int| match_at(s@, p, w) && forall|j: int| match_at(s@, p, j) ==> j == w;
            assert(positions.contains(w));
        }
        if multi_entry(s@) {
            let (a, b) = choose|a: int, b: int|
                a != b && match_at(s@, p, a) && match_at(s@, p, b);
            assert(positions.contains(a) && positions.contains(b));
            let ia = choose|idx: int| 0 <= idx < positions.len() && positions[idx] == a;
            let ib = choose|idx: int| 0 <= idx < positions.len() && positions[idx] == b;
            assert(ia != ib);
            assert(count >= 2) by {
                if count < 2 {
                    assert(ia == 0 && ib == 0);
                }
            }
        }
        if no_entry(s@) {
            assert(count == 0) by {
                if count > 0 {
                    assert(positions.contains(positions[0]));
                    assert(match_at(s@, p, positions[0]));
                }
            }
        }
    }
    count
}

/// Classify raw input by its entry-point count.
pub fn classify_source(code: &str) -> (r: SourceShape)
    ensures
        (r is Fragment) == no_entry(code@),
        (r is Candidate) == one_entry(code@),
        (r is Ambiguous) == multi_entry(code@),
{
    let n = count_entry_points(code);
    if n == 0 {
        SourceShape::Fragment
    } else if n == 1 {
        SourceShape::Candidate
    } else {
        SourceShape::Ambiguous
    }
}

/// The well-formedness decision: input with exactly one entry point whose
/// metadata-only compilation succeeded.  The compiler runs outside the
/// library; its exit status is handed in.
pub fn well_formed_verdict(shape: &SourceShape, compiler_accepts: bool) -> (r: bool)
    ensures
        r == (shape is Candidate && compiler_accepts),
{
    match shape {
        SourceShape::Candidate => compiler_accepts,
        _ => false,
    }
}

} // verus!
