//! Splitting text into lines and delimiter-separated fields, and joining
//! fields back, with the lemmas that make the two directions inverses.

use vstd::prelude::*;
use crate::text::{append_chars, char_free, contains_pat, lemma_subrange_clean, subvec};

verus! {

/// The element views of a sequence of viewable values (the `Seq<char>`s of a
/// `Vec<String>` or `Vec<Vec<char>>`).
pub open spec fn views<T: View>(vs: Seq<T>) -> Seq<T::V> {
    vs.map_values(|t: T| t@)
}

pub proof fn lemma_views_push<T: View>(vs: Seq<T>, x: T)
    ensures
        views(vs.push(x)) == views(vs).push(x@),
{
    assert(views(vs.push(x)) =~= views(vs).push(x@));
}

// ---------------------------------------------------------------------------
// Lines
// ---------------------------------------------------------------------------

/// `l` with one trailing carriage return removed.
pub open spec fn strip_cr(l: Seq<char>) -> Seq<char> {
    if l.len() > 0 && l.last() == '\r' {
        l.drop_last()
    } else {
        l
    }
}

/// The lines of `s`, as std's `str::lines` splits them: lines end at `\n` or
/// `\r\n`, the terminator is not part of the line, and a final terminator is
/// optional.
pub open spec fn text_lines(s: Seq<char>) -> Seq<Seq<char>>
    decreases s.len(),
{
    if s.len() == 0 {
        seq![]
    } else if s[0] == '\n' {
        seq![Seq::<char>::empty()] + text_lines(s.skip(1))
    } else if s[0] == '\r' && s.len() > 1 && s[1] == '\n' {
        seq![Seq::<char>::empty()] + text_lines(s.skip(2))
    } else {
        let rest = text_lines(s.skip(1));
        if rest.len() == 0 {
            seq![seq![s[0]]]
        } else {
            seq![seq![s[0]] + rest[0]] + rest.skip(1)
        }
    }
}

/// A newline-free chunk followed by `\n` contributes exactly one line.
pub proof fn lemma_text_lines_step(l: Seq<char>, rest: Seq<char>)
    requires
        char_free(l, '\n'),
    ensures
        text_lines(l + seq!['\n'] + rest) == seq![strip_cr(l)] + text_lines(rest),
    decreases l.len(),
{
    let s = l + seq!['\n'] + rest;
    if l.len() == 0 {
        assert(s[0] == '\n');
        assert(s.skip(1) =~= rest);
        assert(strip_cr(l) =~= Seq::<char>::empty());
        assert(text_lines(s) =~~= seq![strip_cr(l)] + text_lines(rest));
    } else if l.len() == 1 && l[0] == '\r' {
        assert(s[0] == '\r' && s.len() > 1 && s[1] == '\n');
        assert(s.skip(2) =~= rest);
        assert(strip_cr(l) =~= Seq::<char>::empty());
        assert(text_lines(s) =~~= seq![strip_cr(l)] + text_lines(rest));
    } else {
        let l1 = l.skip(1);
        assert(s[0] == l[0]);
        assert(l[0] != '\n');
        if l[0] == '\r' {
            // the next character exists and is not a newline
            assert(s[1] == l[1]);
            assert(l[1] != '\n');
        }
        lemma_text_lines_step(l1, rest);
        assert(s.skip(1) =~= l1 + seq!['\n'] + rest);
        let rest_lines = text_lines(s.skip(1));
        assert(rest_lines == seq![strip_cr(l1)] + text_lines(rest));
        assert(rest_lines.len() > 0);
        assert(rest_lines[0] == strip_cr(l1));
        assert(seq![l[0]] + strip_cr(l1) =~= strip_cr(l)) by {
            if l1.len() > 0 && l1.last() == '\r' {
                assert(l.last() == '\r');
                assert(seq![l[0]] + l1.drop_last() =~= l.drop_last());
            } else {
                assert(l.len() > 1 ==> l.last() == l1.last());
                assert(seq![l[0]] + l1 =~= l);
            }
        }
        assert(text_lines(s) =~= seq![strip_cr(l)] + text_lines(rest)) by {
            assert(text_lines(s) == seq![seq![s[0]] + rest_lines[0]] + rest_lines.skip(1));
            assert(rest_lines.skip(1) =~= text_lines(rest));
            assert(seq![s[0]] + rest_lines[0] == strip_cr(l));
        }
    }
}

/// A final newline-free chunk is one line on its own; no carriage return is
/// stripped when no newline follows.
pub proof fn lemma_text_lines_last(l: Seq<char>)
    requires
        char_free(l, '\n'),
        l.len() > 0,
    ensures
        text_lines(l) == seq![l],
    decreases l.len(),
{
    if l.len() == 1 {
        assert(text_lines(l.skip(1)) =~= Seq::<Seq<char>>::empty());
        assert(text_lines(l) =~= seq![seq![l[0]]]);
        assert(seq![l[0]] =~= l);
    } else {
        let l1 = l.skip(1);
        assert(l[0] != '\n');
        assert(l[1] != '\n');
        lemma_text_lines_last(l1);
        assert(text_lines(l) =~= seq![seq![l[0]] + l1]);
        assert(seq![l[0]] + l1 =~= l);
    }
}

/// Every line of `s` is a contiguous part of `s`, and the first line starts
/// at the front.
pub proof fn lemma_lines_are_subranges(s: Seq<char>)
    ensures
        forall|i: int|
            #![trigger text_lines(s)[i]]
            0 <= i < text_lines(s).len() ==> exists|a: int, b: int|
                0 <= a <= b <= s.len() && text_lines(s)[i] == s.subrange(a, b),
    decreases s.len(),
{
    if s.len() == 0 {
    } else if s[0] == '\n' {
        lemma_lines_are_subranges(s.skip(1));
        assert forall|i: int| #![trigger text_lines(s)[i]] 0 <= i < text_lines(s).len() implies exists|a: int, b: int|
            0 <= a <= b <= s.len() && text_lines(s)[i] == s.subrange(a, b) by {
            if i == 0 {
                assert(text_lines(s)[0] =~= s.subrange(0, 0));
            } else {
                let (a1, b1) = choose|a1: int, b1: int|
                    0 <= a1 <= b1 <= s.skip(1).len() && text_lines(s.skip(1))[i - 1] == s.skip(
                        1,
                    ).subrange(a1, b1);
                assert(s.skip(1).subrange(a1, b1) =~= s.subrange(a1 + 1, b1 + 1));
                assert(text_lines(s)[i] == s.subrange(a1 + 1, b1 + 1));
            }
        }
    } else if s[0] == '\r' && s.len() > 1 && s[1] == '\n' {
        lemma_lines_are_subranges(s.skip(2));
        assert forall|i: int| #![trigger text_lines(s)[i]] 0 <= i < text_lines(s).len() implies exists|a: int, b: int|
            0 <= a <= b <= s.len() && text_lines(s)[i] == s.subrange(a, b) by {
            if i == 0 {
                assert(text_lines(s)[0] =~= s.subrange(0, 0));
            } else {
                let (a1, b1) = choose|a1: int, b1: int|
                    0 <= a1 <= b1 <= s.skip(2).len() && text_lines(s.skip(2))[i - 1] == s.skip(
                        2,
                    ).subrange(a1, b1);
                assert(s.skip(2).subrange(a1, b1) =~= s.subrange(a1 + 2, b1 + 2));
                assert(text_lines(s)[i] == s.subrange(a1 + 2, b1 + 2));
            }
        }
    } else {
        lemma_lines_are_subranges(s.skip(1));
        if s.len() > 1 {
            lemma_lines_first_prefix(s.skip(1));
        }
        let rest = text_lines(s.skip(1));
        assert forall|i: int| #![trigger text_lines(s)[i]] 0 <= i < text_lines(s).len() implies exists|a: int, b: int|
            0 <= a <= b <= s.len() && text_lines(s)[i] == s.subrange(a, b) by {
            if rest.len() == 0 {
                assert(text_lines(s)[0] =~= seq![s[0]]);
                assert(seq![s[0]] =~= s.subrange(0, 1));
            } else if i == 0 {
                let b1 = choose|b1: int|
                    0 <= b1 <= s.skip(1).len() && rest[0] == s.skip(1).subrange(0, b1);
                assert(seq![s[0]] + s.skip(1).subrange(0, b1) =~= s.subrange(0, b1 + 1));
                assert(text_lines(s)[0] == s.subrange(0, b1 + 1));
            } else {
                let (a1, b1) = choose|a1: int, b1: int|
                    0 <= a1 <= b1 <= s.skip(1).len() && rest[i] == s.skip(1).subrange(a1, b1);
                assert(s.skip(1).subrange(a1, b1) =~= s.subrange(a1 + 1, b1 + 1));
                assert(text_lines(s)[i] == s.subrange(a1 + 1, b1 + 1));
            }
        }
    }
}

/// The first line of a nonempty text is one of its prefixes.
pub proof fn lemma_lines_first_prefix(s: Seq<char>)
    requires
        s.len() > 0,
    ensures
        text_lines(s).len() > 0,
        exists|b: int| 0 <= b <= s.len() && text_lines(s)[0] == s.subrange(0, b),
    decreases s.len(),
{
    if s[0] == '\n' {
        assert(text_lines(s)[0] =~= s.subrange(0, 0));
    } else if s[0] == '\r' && s.len() > 1 && s[1] == '\n' {
        assert(text_lines(s)[0] =~= s.subrange(0, 0));
    } else {
        let rest = text_lines(s.skip(1));
        if rest.len() == 0 {
            assert(text_lines(s)[0] =~= seq![s[0]]);
            assert(seq![s[0]] =~= s.subrange(0, 1));
        } else {
            lemma_lines_first_prefix(s.skip(1));
            let b1 = choose|b1: int|
                0 <= b1 <= s.skip(1).len() && rest[0] == s.skip(1).subrange(0, b1);
            assert(seq![s[0]] + s.skip(1).subrange(0, b1) =~= s.subrange(0, b1 + 1));
            assert(text_lines(s)[0] == s.subrange(0, b1 + 1));
        }
    }
}

/// A pattern absent from a text is absent from each of its lines.
pub proof fn lemma_lines_clean(s: Seq<char>, p: Seq<char>)
    requires
        !contains_pat(s, p),
    ensures
        forall|i: int| 0 <= i < text_lines(s).len() ==> !contains_pat(#[trigger] text_lines(s)[i], p),
{
    lemma_lines_are_subranges(s);
    assert forall|i: int| 0 <= i < text_lines(s).len() implies !contains_pat(
        #[trigger] text_lines(s)[i],
        p,
    ) by {
        let (a, b) = choose|a: int, b: int|
            0 <= a <= b <= s.len() && text_lines(s)[i] == s.subrange(a, b);
        lemma_subrange_clean(s, p, a, b);
    }
}

/// Split into lines; executable counterpart of [`text_lines`].
pub fn split_lines(s: &Vec<char>) -> (r: Vec<Vec<char>>)
    ensures
        views(r@) == text_lines(s@),
{
    let mut r: Vec<Vec<char>> = Vec::new();
    let mut pos: usize = 0;
    proof {
        assert(s@.skip(0) =~= s@);
        assert(views(r@) =~= Seq::<Seq<char>>::empty());
    }
    while pos < s.len()
        invariant
            0 <= pos <= s@.len(),
            views(r@) + text_lines(s@.skip(pos as int)) == text_lines(s@),
        decreases s@.len() - pos,
    {
        // find the next newline
        let mut j: usize = pos;
        while j < s.len() && s[j] != '\n'
            invariant
                pos <= j <= s@.len(),
                forall|k: int| pos <= k < j ==> s@[k] != '\n',
            decreases s@.len() - j,
        {
            j += 1;
        }
        let ghost tail = s@.skip(pos as int);
        let ghost chunk = s@.subrange(pos as int, j as int);
        proof {
            assert forall|k: int| 0 <= k < chunk.len() implies chunk[k] != '\n' by {
                assert(chunk[k] == s@[pos + k]);
            }
        }
        if j == s.len() {
            // final line without terminator
            let line = subvec(s, pos, j);
            proof {
                assert(chunk =~= tail);
                lemma_text_lines_last(tail);
                lemma_views_push(r@, line);
                assert(views(r@).push(line@) + text_lines(s@.skip(j as int)) =~= views(r@)
                    + text_lines(s@.skip(pos as int))) by {
                    assert(s@.skip(j as int) =~= Seq::<char>::empty());
                }
            }
            r.push(line);
            pos = j;
        } else {
            let line = if j > pos && s[j - 1] == '\r' {
                subvec(s, pos, j - 1)
            } else {
                subvec(s, pos, j)
            };
            proof {
                assert(tail =~= chunk + seq!['\n'] + s@.skip(j + 1));
                lemma_text_lines_step(chunk, s@.skip(j + 1));
                assert(line@ == strip_cr(chunk)) by {
                    if j > pos && s@[j - 1] == '\r' {
                        assert(chunk.len() > 0 && chunk.last() == '\r');
                        assert(s@.subrange(pos as int, j - 1) =~= chunk.drop_last());
                    }
                }
                lemma_views_push(r@, line);
                assert(views(r@).push(line@) + text_lines(s@.skip(j + 1)) =~= views(r@) + (seq![
                    strip_cr(chunk),
                ] + text_lines(s@.skip(j + 1))));
            }
            r.push(line);
            pos = j + 1;
        }
    }
    proof {
        assert(text_lines(s@.skip(pos as int)) =~= Seq::<Seq<char>>::empty());
        assert(views(r@) =~= views(r@) + Seq::<Seq<char>>::empty());
    }
    r
}

// ---------------------------------------------------------------------------
// Delimiter-separated fields
// ---------------------------------------------------------------------------

/// The fields of `s` separated by `d`, as std's `str::split` yields them:
/// always at least one field, empty fields kept.
pub open spec fn split_on(s: Seq<char>, d: char) -> Seq<Seq<char>>
    decreases s.len(),
{
    if s.len() == 0 {
        seq![Seq::<char>::empty()]
    } else if s[0] == d {
        seq![Seq::<char>::empty()] + split_on(s.skip(1), d)
    } else {
        let rest = split_on(s.skip(1), d);
        seq![seq![s[0]] + rest[0]] + rest.skip(1)
    }
}

pub proof fn lemma_split_on_len(s: Seq<char>, d: char)
    ensures
        split_on(s, d).len() >= 1,
    decreases s.len(),
{
    if s.len() > 0 {
        lemma_split_on_len(s.skip(1), d);
    }
}

/// A delimiter-free chunk followed by the delimiter contributes exactly one
/// field.
pub proof fn lemma_split_on_step(l: Seq<char>, rest: Seq<char>, d: char)
    requires
        char_free(l, d),
    ensures
        split_on(l + seq![d] + rest, d) == seq![l] + split_on(rest, d),
    decreases l.len(),
{
    let s = l + seq![d] + rest;
    if l.len() == 0 {
        assert(s[0] == d);
        assert(s.skip(1) =~= rest);
        assert(l =~= Seq::<char>::empty());
        assert(split_on(s, d) =~~= seq![l] + split_on(rest, d));
    } else {
        assert(s[0] == l[0]);
        assert(l[0] != d);
        lemma_split_on_step(l.skip(1), rest, d);
        assert(s.skip(1) =~= l.skip(1) + seq![d] + rest);
        let rs = split_on(s.skip(1), d);
        assert(rs == seq![l.skip(1)] + split_on(rest, d));
        assert(seq![s[0]] + rs[0] =~= l);
        assert(split_on(s, d) =~= seq![l] + split_on(rest, d)) by {
            assert(rs.skip(1) =~= split_on(rest, d));
        }
    }
}

/// A delimiter-free text is one field.
pub proof fn lemma_split_on_last(l: Seq<char>, d: char)
    requires
        char_free(l, d),
    ensures
        split_on(l, d) == seq![l],
    decreases l.len(),
{
    if l.len() == 0 {
        assert(l =~= Seq::<char>::empty());
        assert(split_on(l, d) =~~= seq![l]);
    } else {
        lemma_split_on_last(l.skip(1), d);
        assert(seq![l[0]] + l.skip(1) =~= l);
        assert(split_on(l, d) =~= seq![l]) by {
            assert(split_on(l.skip(1), d).skip(1) =~= Seq::<Seq<char>>::empty());
        }
    }
}

/// Fields joined with the delimiter between them.
pub open spec fn join_on(parts: Seq<Seq<char>>, d: char) -> Seq<char>
    decreases parts.len(),
{
    if parts.len() == 0 {
        Seq::empty()
    } else if parts.len() == 1 {
        parts[0]
    } else {
        parts[0] + seq![d] + join_on(parts.skip(1), d)
    }
}

/// Splitting undoes joining, as long as no field contains the delimiter.
pub proof fn lemma_split_join(parts: Seq<Seq<char>>, d: char)
    requires
        parts.len() >= 1,
        forall|i: int| 0 <= i < parts.len() ==> char_free(#[trigger] parts[i], d),
    ensures
        split_on(join_on(parts, d), d) == parts,
    decreases parts.len(),
{
    if parts.len() == 1 {
        lemma_split_on_last(parts[0], d);
        assert(seq![parts[0]] =~= parts);
    } else {
        lemma_split_join(parts.skip(1), d);
        lemma_split_on_step(parts[0], join_on(parts.skip(1), d), d);
        assert(seq![parts[0]] + parts.skip(1) =~= parts);
    }
}


/// Joining undoes splitting: the fields of `s`, glued with the delimiter,
/// are `s` again.
pub proof fn lemma_join_split(s: Seq<char>, d: char)
    ensures
        join_on(split_on(s, d), d) == s,
    decreases s.len(),
{
    if s.len() == 0 {
        assert(split_on(s, d) =~= seq![Seq::<char>::empty()]);
        assert(join_on(split_on(s, d), d) =~= s);
    } else if s[0] == d {
        lemma_join_split(s.skip(1), d);
        lemma_split_on_len(s.skip(1), d);
        let parts = split_on(s, d);
        assert(parts == seq![Seq::<char>::empty()] + split_on(s.skip(1), d));
        assert(parts.len() >= 2);
        assert(parts.skip(1) =~= split_on(s.skip(1), d));
        assert(join_on(parts, d) == parts[0] + seq![d] + join_on(parts.skip(1), d));
        assert(join_on(parts, d) =~= s);
    } else {
        lemma_join_split(s.skip(1), d);
        lemma_split_on_len(s.skip(1), d);
        let r = split_on(s.skip(1), d);
        let parts = split_on(s, d);
        assert(parts == seq![seq![s[0]] + r[0]] + r.skip(1));
        if r.len() == 1 {
            assert(r.skip(1) =~= Seq::<Seq<char>>::empty());
            assert(parts =~= seq![seq![s[0]] + r[0]]);
            assert(parts.len() == 1);
            assert(join_on(parts, d) == parts[0]);
            assert(join_on(r, d) == r[0]);
            assert(r[0] == s.skip(1));
            assert(parts[0] =~= seq![s[0]] + s.skip(1));
            assert(seq![s[0]] + s.skip(1) =~= s);
        } else {
            assert(parts.len() == r.len());
            assert(parts.len() >= 2);
            assert(parts[0] == seq![s[0]] + r[0]);
            assert(parts.skip(1) =~= r.skip(1));
            assert(join_on(parts, d) == parts[0] + seq![d] + join_on(parts.skip(1), d));
            assert(join_on(parts.skip(1), d) == join_on(r.skip(1), d));
            assert(join_on(r, d) == r[0] + seq![d] + join_on(r.skip(1), d));
            assert(r[0] + seq![d] + join_on(r.skip(1), d) == s.skip(1));
            assert(join_on(parts, d) =~= seq![s[0]] + s.skip(1));
            assert(seq![s[0]] + s.skip(1) =~= s);
        }
    }
}

/// Split into delimiter-separated fields; executable counterpart of
/// [`split_on`].
pub fn split_fields(s: &Vec<char>, d: char) -> (r: Vec<Vec<char>>)
    requires
        d != '\u{0}',  // any character works; excluded only to keep one code path below simple
    ensures
        views(r@) == split_on(s@, d),
        r@.len() >= 1,
{
    let mut r: Vec<Vec<char>> = Vec::new();
    let mut pos: usize = 0;
    proof {
        assert(s@.skip(0) =~= s@);
        assert(views(r@) =~= Seq::<Seq<char>>::empty());
    }
    loop
        invariant
            0 <= pos <= s@.len(),
            views(r@) + split_on(s@.skip(pos as int), d) == split_on(s@, d),
        decreases s@.len() - pos + 1,
    {
        let mut j: usize = pos;
        while j < s.len() && s[j] != d
            invariant
                pos <= j <= s@.len(),
                forall|k: int| pos <= k < j ==> s@[k] != d,
            decreases s@.len() - j,
        {
            j += 1;
        }
        let ghost tail = s@.skip(pos as int);
        let ghost chunk = s@.subrange(pos as int, j as int);
        proof {
            assert forall|k: int| 0 <= k < chunk.len() implies chunk[k] != d by {
                assert(chunk[k] == s@[pos + k]);
            }
        }
        let line = subvec(s, pos, j);
        if j == s.len() {
            proof {
                assert(chunk =~= tail);
                lemma_split_on_last(tail, d);
                lemma_views_push(r@, line);
                assert(views(r@).push(line@) =~= views(r@) + seq![chunk]);
                lemma_split_on_len(s@, d);
            }
            r.push(line);
            proof {
                assert(views(r@) =~= split_on(s@, d));
            }
            return r;
        }
        proof {
            assert(tail =~= chunk + seq![d] + s@.skip(j + 1));
            lemma_split_on_step(chunk, s@.skip(j + 1), d);
            lemma_views_push(r@, line);
            assert(views(r@).push(line@) + split_on(s@.skip(j + 1), d) =~= views(r@) + (seq![chunk]
                + split_on(s@.skip(j + 1), d)));
        }
        r.push(line);
        pos = j + 1;
    }
}

/// Join fields with the delimiter; executable counterpart of [`join_on`].
pub fn join_fields(parts: &Vec<Vec<char>>, d: char) -> (r: Vec<char>)
    ensures
        r@ == join_on(views(parts@), d),
{
    let mut r: Vec<char> = Vec::new();
    if parts.len() == 0 {
        return r;
    }
    let mut i: usize = 0;
    proof {
        assert(views(parts@).skip(0) =~= views(parts@));
        assert(r@ + join_on(views(parts@), d) =~= join_on(views(parts@), d));
    }
    while i < parts.len()
        invariant
            0 <= i <= parts@.len(),
            parts@.len() >= 1,
            i < parts@.len() ==> join_on(views(parts@), d) == r@ + join_on(
                views(parts@).skip(i as int),
                d,
            ),
            i == parts@.len() ==> join_on(views(parts@), d) == r@,
        decreases parts@.len() - i,
    {
        proof {
            assert(views(parts@).skip(i as int)[0] == parts@[i as int]@);
        }
        append_chars(&mut r, &parts[i]);
        if i + 1 < parts.len() {
            r.push(d);
            proof {
                let vs = views(parts@).skip(i as int);
                assert(vs.skip(1) =~= views(parts@).skip(i + 1));
                assert(join_on(vs, d) == vs[0] + seq![d] + join_on(vs.skip(1), d));
            }
        } else {
            proof {
                let vs = views(parts@).skip(i as int);
                assert(vs.len() == 1);
                assert(join_on(vs, d) == vs[0]);
            }
        }
        i += 1;
    }
    r
}

} // verus!
