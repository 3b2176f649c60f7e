//! The snippet transformer: rewriting an arbitrary fragment into a complete
//! program and deducing the external packages it must link against.
//!
//! The scan is line oriented, by design: each line is classified by its
//! prefix (header comment, macro-visibility attribute, linkage declaration
//! or import, inner attribute, blank, or the start of the body), and
//! everything from the first body line on is wrapped, indented, in a harness
//! function followed by an entry point.

use vstd::prelude::*;
use crate::text::{
    append_chars, char_free, chars_eq, chars_to_string, contains_pat, find_pat, is_space_char,
    lemma_first_match_is_find, lemma_no_match_is_find_none, match_at, seq_lt, space_free,
    starts_with, starts_with_exec, str_to_chars, subvec, trim_start_idx, trim_start_spec,
};
use crate::classify::{entry_pat, lemma_entry_pat, multi_entry, no_entry, one_entry};
use crate::text::trim_end_spec;
use crate::lines::{lemma_views_push, split_lines, text_lines, views};
use crate::strutil::{after_spec, split_chars, split_spec, word_after_tot, word_after_tot_spec};

verus! {

// ---------------------------------------------------------------------------
// The scan, as a mathematical model
// ---------------------------------------------------------------------------

/// The state the line scan threads from line to line.
pub ghost struct ScanState {
    /// Still before the first significant line (shebangs and header comments
    /// are dropped there).
    pub first: bool,
    /// The body has begun; every further line goes into it verbatim.
    pub in_body: bool,
    /// Inner attributes, floated ahead of everything else.
    pub crate_begin: Seq<char>,
    /// Declarations that must precede the harness: the prelude, generated
    /// linkage lines, and hoisted imports.
    pub prefix: Seq<char>,
    /// The user's code, indented into the harness.
    pub body: Seq<char>,
    /// Link names discovered while scanning, in discovery order.
    pub deduced: Seq<Seq<char>>,
}

/// The body indent: one harness-body level.
pub open spec fn indent() -> Seq<char> {
    seq![' ', ' ', ' ', ' ']
}

/// The deduced root of an import line: the first path segment, unless it is
/// one of the language's own roots with a sub-path behind it.
pub open spec fn use_root(t: Seq<char>) -> Option<Seq<char>> {
    match word_after_tot_spec(t, "use "@) {
        None => None,
        Some(path) => {
            let nr = split_spec(path, ':');
            if !(nr.0 == "std"@ || nr.0 == "core"@ || nr.0 == "alloc"@ || nr.0 == "crate"@)
                || nr.1.len() == 0 {
                Some(nr.0)
            } else {
                None
            }
        },
    }
}

/// How one line changes the scan state.
pub open spec fn scan_line(line: Seq<char>, gt2015: bool, st: ScanState) -> ScanState {
    if st.in_body {
        ScanState { body: st.body + indent() + line + seq!['\n'], ..st }
    } else {
        let t = trim_start_spec(line);
        if st.first && (starts_with(t, "#!/"@) || starts_with(t, "//"@)) {
            st
        } else {
            let st1 = ScanState { first: false, ..st };
            match after_spec(t, "#[macro_use"@) {
                Some(rest) => {
                    let d = match word_after_tot_spec(rest, "extern crate "@) {
                        Some(w) => st1.deduced.push(w),
                        None => st1.deduced,
                    };
                    ScanState { deduced: d, prefix: st1.prefix + t + seq!['\n'], ..st1 }
                },
                None => {
                    if starts_with(t, "extern "@) || starts_with(t, "use "@) {
                        let d1 = match word_after_tot_spec(t, "extern crate "@) {
                            Some(w) => st1.deduced.push(w),
                            None => st1.deduced,
                        };
                        let d2 = if gt2015 {
                            match use_root(t) {
                                Some(n) => d1.push(n),
                                None => d1,
                            }
                        } else {
                            d1
                        };
                        ScanState { deduced: d2, prefix: st1.prefix + t + seq!['\n'], ..st1 }
                    } else if starts_with(t, "#!["@) {
                        ScanState { crate_begin: st1.crate_begin + t + seq!['\n'], ..st1 }
                    } else if t.len() > 0 {
                        ScanState { in_body: true, body: st1.body + indent() + t + seq!['\n'], ..st1 }
                    } else {
                        st1
                    }
                },
            }
        }
    }
}

/// The scan over all lines from index `i` on.
pub open spec fn scan_from(lines: Seq<Seq<char>>, i: int, gt2015: bool, st: ScanState) -> ScanState
    decreases lines.len() - i,
{
    if 0 <= i < lines.len() {
        scan_from(lines, i + 1, gt2015, scan_line(lines[i], gt2015, st))
    } else {
        st
    }
}

// ---------------------------------------------------------------------------
// The generated linkage block
// ---------------------------------------------------------------------------

/// The crate a name is an alias for, if any; a later registration wins.
pub open spec fn alias_of(aliases: Seq<(Seq<char>, Seq<char>)>, c: Seq<char>) -> Option<Seq<char>>
    decreases aliases.len(),
{
    if aliases.len() == 0 {
        None
    } else if aliases.last().0 == c {
        Some(aliases.last().1)
    } else {
        alias_of(aliases.drop_last(), c)
    }
}

/// The linkage declaration generated for one requested name.
pub open spec fn extern_line_for(
    c: Seq<char>,
    macros: Seq<Seq<char>>,
    aliases: Seq<(Seq<char>, Seq<char>)>,
) -> Seq<char> {
    match alias_of(aliases, c) {
        Some(a) => "extern crate "@ + a + " as "@ + c + ";\n"@,
        None => (if macros.contains(c) {
            "#[macro_use] "@
        } else {
            Seq::<char>::empty()
        }) + "extern crate "@ + c + ";\n"@,
    }
}

pub open spec fn extern_lines_from(
    externs: Seq<Seq<char>>,
    macros: Seq<Seq<char>>,
    aliases: Seq<(Seq<char>, Seq<char>)>,
    i: int,
) -> Seq<char>
    decreases externs.len() - i,
{
    if 0 <= i < externs.len() {
        extern_line_for(externs[i], macros, aliases) + extern_lines_from(
            externs,
            macros,
            aliases,
            i + 1,
        )
    } else {
        Seq::empty()
    }
}

/// The glob import generated for one wildcard name.
pub open spec fn wild_line_for(c: Seq<char>) -> Seq<char> {
    "use "@ + c + "::*;\n"@
}

pub open spec fn wild_lines_from(wilds: Seq<Seq<char>>, i: int) -> Seq<char>
    decreases wilds.len() - i,
{
    if 0 <= i < wilds.len() {
        wild_line_for(wilds[i]) + wild_lines_from(wilds, i + 1)
    } else {
        Seq::empty()
    }
}

/// The prefix before any line of the fragment is scanned: the prelude, the
/// linkage lines of the explicitly requested names, and the glob imports of
/// the wildcard names.
pub open spec fn initial_prefix(
    prelude: Seq<char>,
    externs: Seq<Seq<char>>,
    wilds: Seq<Seq<char>>,
    macros: Seq<Seq<char>>,
    aliases: Seq<(Seq<char>, Seq<char>)>,
) -> Seq<char> {
    prelude + extern_lines_from(externs, macros, aliases, 0) + wild_lines_from(wilds, 0)
}

// ---------------------------------------------------------------------------
// Assembly
// ---------------------------------------------------------------------------

/// The harness function's opening line.
pub open spec fn run_header() -> Seq<char> {
    "fn run(args: Vec<String>) -> std::result::Result<(),Box<dyn std::error::Error+Sync+Send>> {\n"@
}

/// Everything after the body: the harness close and the entry point that
/// invokes it and prints a propagated failure.
pub open spec fn harness_tail() -> Seq<char> {
    "    Ok(())\n}\n\nfn main() {\n    if let Err(e) = run(std::env::args().collect()) {\n        println!(\"error: {:?}\",e);\n    }\n}\n"@
}

/// The complete program text.
pub open spec fn assemble(cb: Seq<char>, prefix: Seq<char>, body: Seq<char>) -> Seq<char> {
    cb + seq!['\n'] + prefix + seq!['\n', '\n'] + run_header() + body + harness_tail()
}

/// The state in which the scan of the fragment starts.
pub open spec fn initial_state(
    prelude: Seq<char>,
    externs: Seq<Seq<char>>,
    wilds: Seq<Seq<char>>,
    macros: Seq<Seq<char>>,
    aliases: Seq<(Seq<char>, Seq<char>)>,
    prepend: Seq<char>,
) -> ScanState {
    ScanState {
        first: true,
        in_body: false,
        crate_begin: Seq::empty(),
        prefix: initial_prefix(prelude, externs, wilds, macros, aliases),
        body: prepend,
        deduced: Seq::empty(),
    }
}

/// The scan's final state on a whole fragment.
pub open spec fn scan_result(
    code: Seq<char>,
    prelude: Seq<char>,
    externs: Seq<Seq<char>>,
    wilds: Seq<Seq<char>>,
    macros: Seq<Seq<char>>,
    aliases: Seq<(Seq<char>, Seq<char>)>,
    prepend: Seq<char>,
    gt2015: bool,
) -> ScanState {
    scan_from(
        text_lines(code),
        0,
        gt2015,
        initial_state(prelude, externs, wilds, macros, aliases, prepend),
    )
}

/// The transformed program text for a whole fragment.
pub open spec fn massaged_text(
    code: Seq<char>,
    prelude: Seq<char>,
    externs: Seq<Seq<char>>,
    wilds: Seq<Seq<char>>,
    macros: Seq<Seq<char>>,
    aliases: Seq<(Seq<char>, Seq<char>)>,
    prepend: Seq<char>,
    gt2015: bool,
) -> Seq<char> {
    let st = scan_result(code, prelude, externs, wilds, macros, aliases, prepend, gt2015);
    assemble(st.crate_begin, st.prefix, st.body)
}

/// The views of a list of alias pairs.
pub open spec fn alias_views(aliases: Seq<(String, String)>) -> Seq<(Seq<char>, Seq<char>)> {
    aliases.map_values(|p: (String, String)| (p.0@, p.1@))
}

/// Strictly increasing in the lexicographic order: sorted and free of
/// duplicates.
pub open spec fn strictly_sorted(xs: Seq<Seq<char>>) -> bool {
    forall|i: int, j: int| 0 <= i < j < xs.len() ==> seq_lt(xs[i], xs[j])
}

// ---------------------------------------------------------------------------
// Executable helpers
// ---------------------------------------------------------------------------

/// A copy of a character vector.
pub fn clone_chars(v: &Vec<char>) -> (r: Vec<char>)
    ensures
        r@ == v@,
{
    let n = v.len();
    subvec(v, 0, n)
}

/// Look a name up among the alias pairs; executable counterpart of
/// [`alias_of`].
fn alias_lookup(aliases: &Vec<(String, String)>, c: &Vec<char>) -> (r: Option<Vec<char>>)
    ensures
        match (alias_of(alias_views(aliases@), c@), r) {
            (Some(a), Some(av)) => av@ == a,
            (None, None) => true,
            _ => false,
        },
{
    let ghost av = alias_views(aliases@);
    let mut k = aliases.len();
    proof {
        assert(av.take(k as int) =~= av);
    }
    while k > 0
        invariant
            0 <= k <= aliases@.len(),
            av == alias_views(aliases@),
            av.len() == aliases@.len(),
            alias_of(av, c@) == alias_of(av.take(k as int), c@),
        decreases k,
    {
        k -= 1;
        let key = str_to_chars(aliases[k].0.as_str());
        proof {
            assert(av[k as int] == (aliases@[k as int].0@, aliases@[k as int].1@));
            assert(av.take(k + 1).last() == av[k as int]);
            assert(av.take(k + 1).drop_last() =~= av.take(k as int));
        }
        if chars_eq(&key, c) {
            let val = str_to_chars(aliases[k].1.as_str());
            proof {
                assert(alias_of(av.take(k + 1), c@) == Some(av[k as int].1));
            }
            return Some(val);
        }
    }
    proof {
        assert(av.take(0) =~= Seq::<(Seq<char>, Seq<char>)>::empty());
    }
    None
}

/// Whether one of the names equals `c`.
fn contains_name(names: &Vec<String>, c: &Vec<char>) -> (r: bool)
    ensures
        r == views(names@).contains(c@),
{
    let mut i: usize = 0;
    while i < names.len()
        invariant
            0 <= i <= names@.len(),
            forall|k: int| 0 <= k < i ==> views(names@)[k] != c@,
        decreases names@.len() - i,
    {
        let nv = str_to_chars(names[i].as_str());
        proof {
            assert(views(names@)[i as int] == names@[i as int]@);
        }
        if chars_eq(&nv, c) {
            proof {
                assert(views(names@)[i as int] == c@);
            }
            return true;
        }
        i += 1;
    }
    proof {
        if views(names@).contains(c@) {
            let w = choose|w: int| 0 <= w < views(names@).len() && views(names@)[w] == c@;
            assert(false);
        }
    }
    false
}

proof fn lemma_views_insert(vs: Seq<Vec<char>>, i: int, x: Vec<char>)
    requires
        0 <= i <= vs.len(),
    ensures
        views(vs.insert(i, x)) == views(vs).insert(i, x@),
{
    assert(views(vs.insert(i, x)) =~= views(vs).insert(i, x@));
}

/// Insert into a strictly sorted vector, keeping it strictly sorted; a value
/// already present is not inserted again.
pub fn sorted_insert(v: &mut Vec<Vec<char>>, x: Vec<char>)
    requires
        strictly_sorted(views(old(v)@)),
    ensures
        strictly_sorted(views(final(v)@)),
        forall|y: Seq<char>|
            views(final(v)@).contains(y) <==> (views(old(v)@).contains(y) || y == x@),
{
    let mut pos: usize = 0;
    let mut insert_here = false;
    loop
        invariant
            strictly_sorted(views(v@)),
            v@ == old(v)@,
            0 <= pos <= v@.len(),
            forall|k: int| 0 <= k < pos ==> seq_lt(#[trigger] views(v@)[k], x@),
            insert_here ==> pos < v@.len() && seq_lt(x@, views(v@)[pos as int]),
        ensures
            strictly_sorted(views(v@)),
            v@ == old(v)@,
            0 <= pos <= v@.len(),
            forall|k: int| 0 <= k < pos ==> seq_lt(#[trigger] views(v@)[k], x@),
            insert_here || pos == v@.len(),
            insert_here ==> pos < v@.len() && seq_lt(x@, views(v@)[pos as int]),
        decreases v@.len() - pos + (if insert_here {
            0int
        } else {
            1int
        }),
    {
        if insert_here || pos == v.len() {
            break;
        }
        let cmp = crate::text::chars_cmp(&v[pos], &x);
        proof {
            assert(views(v@)[pos as int] == v@[pos as int]@);
        }
        if cmp == 0 {
            // already present
            proof {
                assert(views(v@)[pos as int] == x@);
                assert(views(v@).contains(x@));
            }
            return;
        }
        if cmp == 1 {
            insert_here = true;
        } else {
            pos += 1;
        }
    }
    proof {
        assert forall|j: int| pos <= j < views(v@).len() implies seq_lt(x@, #[trigger] views(
            v@,
        )[j]) by {
            if j > pos {
                crate::text::lemma_seq_lt_trans(x@, views(v@)[pos as int], views(v@)[j]);
            }
        }
    }
    let ghost pre = v@;
    v.insert(pos, x);
    proof {
        lemma_views_insert(pre, pos as int, x);
        let nv = views(v@);
        let ov = views(pre);
        assert(nv == ov.insert(pos as int, x@));
        assert(nv.len() == ov.len() + 1);
        assert forall|a: int, b: int| 0 <= a < b < nv.len() implies seq_lt(nv[a], nv[b]) by {
            let xa = if a < pos {
                ov[a]
            } else if a == pos {
                x@
            } else {
                ov[a - 1]
            };
            let xb = if b < pos {
                ov[b]
            } else if b == pos {
                x@
            } else {
                ov[b - 1]
            };
            assert(nv[a] == xa && nv[b] == xb);
            if a < pos && b == pos {
                assert(seq_lt(ov[a], x@));
            } else if a == pos {
                assert(seq_lt(x@, ov[b - 1]));
            } else if a < pos && b > pos {
                assert(seq_lt(ov[a], x@) && seq_lt(x@, ov[b - 1]));
                crate::text::lemma_seq_lt_trans(ov[a], x@, ov[b - 1]);
            } else {
            }
        }
        assert forall|y: Seq<char>| nv.contains(y) <==> (ov.contains(y) || y == x@) by {
            if nv.contains(y) {
                let i = choose|i: int| 0 <= i < nv.len() && nv[i] == y;
                if i < pos {
                    assert(ov[i] == y);
                    assert(ov.contains(y));
                } else if i == pos {
                } else {
                    assert(ov[i - 1] == y);
                    assert(ov.contains(y));
                }
            }
            if ov.contains(y) {
                let i = choose|i: int| 0 <= i < ov.len() && ov[i] == y;
                if i < pos {
                    assert(nv[i] == y);
                } else {
                    assert(nv[i + 1] == y);
                }
                assert(nv.contains(y));
            }
            if y == x@ {
                assert(nv[pos as int] == y);
                assert(nv.contains(y));
            }
        }
    }
}

pub proof fn lemma_contains_take_step<A>(s: Seq<A>, i: int)
    requires
        0 <= i < s.len(),
    ensures
        forall|y: A| s.take(i + 1).contains(y) <==> (s.take(i).contains(y) || y == s[i]),
{
    assert forall|y: A| s.take(i + 1).contains(y) <==> (s.take(i).contains(y) || y == s[i]) by {
        if s.take(i + 1).contains(y) {
            let k = choose|k: int| 0 <= k < i + 1 && (#[trigger] s.take(i + 1)[k]) == y;
            if k < i {
                assert(s.take(i)[k] == y);
                assert(s.take(i).contains(y));
            } else {
                assert(y == s[i]);
            }
        }
        if s.take(i).contains(y) {
            let k = choose|k: int| 0 <= k < i && (#[trigger] s.take(i)[k]) == y;
            assert(s.take(i + 1)[k] == y);
            assert(s.take(i + 1).contains(y));
        }
        if y == s[i] {
            assert(s.take(i + 1)[i] == y);
            assert(s.take(i + 1).contains(y));
        }
    }
}

/// Convert each character vector to a `String`.
pub fn to_strings(v: &Vec<Vec<char>>) -> (r: Vec<String>)
    ensures
        views(r@) == views(v@),
{
    let mut r: Vec<String> = Vec::new();
    let mut i: usize = 0;
    proof {
        assert(views(r@) =~= views(v@).take(0));
    }
    while i < v.len()
        invariant
            0 <= i <= v@.len(),
            views(r@) == views(v@).take(i as int),
        decreases v@.len() - i,
    {
        let s = chars_to_string(&v[i]);
        proof {
            lemma_views_push(r@, s);
            assert(views(v@).take(i as int).push(views(v@)[i as int]) =~= views(v@).take(i + 1));
            assert(views(v@)[i as int] == v@[i as int]@);
        }
        r.push(s);
        i += 1;
    }
    proof {
        assert(views(v@).take(v@.len() as int) =~= views(v@));
    }
    r
}

// ---------------------------------------------------------------------------
// The transformer
// ---------------------------------------------------------------------------

/// Rewrite a fragment into a complete program.
///
/// Returns the program text — exactly [`massaged_text`] of the inputs — and
/// the deduced link names: the names discovered while scanning together with
/// every explicitly requested name, wildcard and macro-visibility names
/// included, deduplicated and sorted.
#[verifier::rlimit(50)]
pub fn massage_snippet(
    code: &str,
    prelude: String,
    extern_crates: Vec<String>,
    wild_crates: Vec<String>,
    macro_crates: Vec<String>,
    prepend: &str,
    gt2015: bool,
    aliases: Vec<(String, String)>,
) -> (r: (String, Vec<String>))
    ensures
        r.0@ == massaged_text(
            code@,
            prelude@,
            views(extern_crates@),
            views(wild_crates@),
            views(macro_crates@),
            alias_views(aliases@),
            prepend@,
            gt2015,
        ),
        strictly_sorted(views(r.1@)),
        forall|y: Seq<char>|
            #![trigger views(r.1@).contains(y)]
            views(r.1@).contains(y) <==> (scan_result(
                code@,
                prelude@,
                views(extern_crates@),
                views(wild_crates@),
                views(macro_crates@),
                alias_views(aliases@),
                prepend@,
                gt2015,
            ).deduced.contains(y) || views(extern_crates@).contains(y) || views(
                wild_crates@,
            ).contains(y) || views(macro_crates@).contains(y)),
{
    let ghost ev = views(extern_crates@);
    let ghost wv = views(wild_crates@);
    let ghost mv = views(macro_crates@);
    let ghost av = alias_views(aliases@);

    // ---- the prefix before scanning: prelude, then the linkage block ----
    let mut prefix: Vec<char> = str_to_chars(prelude.as_str());
    let p_ec = str_to_chars("extern crate ");
    let p_as = str_to_chars(" as ");
    let p_semi = str_to_chars(";\n");
    let p_macro = str_to_chars("#[macro_use] ");
    let ghost after_externs = prelude@ + extern_lines_from(ev, mv, av, 0);
    let mut ei: usize = 0;
    while ei < extern_crates.len()
        invariant
            ev == views(extern_crates@),
            mv == views(macro_crates@),
            av == alias_views(aliases@),
            p_ec@ == "extern crate "@,
            p_as@ == " as "@,
            p_semi@ == ";\n"@,
            p_macro@ == "#[macro_use] "@,
            0 <= ei <= extern_crates@.len(),
            ev.len() == extern_crates@.len(),
            after_externs == prelude@ + extern_lines_from(ev, mv, av, 0),
            prefix@ + extern_lines_from(ev, mv, av, ei as int) == after_externs,
        decreases extern_crates@.len() - ei,
    {
        let c = str_to_chars(extern_crates[ei].as_str());
        proof {
            assert(ev[ei as int] == extern_crates@[ei as int]@);
        }
        let ghost pre_prefix = prefix@;
        match alias_lookup(&aliases, &c) {
            Some(a) => {
                append_chars(&mut prefix, &p_ec);
                append_chars(&mut prefix, &a);
                append_chars(&mut prefix, &p_as);
                append_chars(&mut prefix, &c);
                append_chars(&mut prefix, &p_semi);
                proof {
                    assert(prefix@ =~= pre_prefix + extern_line_for(ev[ei as int], mv, av));
                }
            },
            None => {
                if contains_name(&macro_crates, &c) {
                    append_chars(&mut prefix, &p_macro);
                }
                append_chars(&mut prefix, &p_ec);
                append_chars(&mut prefix, &c);
                append_chars(&mut prefix, &p_semi);
                proof {
                    assert(prefix@ =~= pre_prefix + extern_line_for(ev[ei as int], mv, av));
                }
            },
        }
        proof {
            assert(prefix@ + extern_lines_from(ev, mv, av, ei + 1) =~= pre_prefix
                + extern_lines_from(ev, mv, av, ei as int));
        }
        ei += 1;
    }
    proof {
        assert(extern_lines_from(ev, mv, av, ev.len() as int) =~= Seq::<char>::empty());
        assert(prefix@ =~= prefix@ + Seq::<char>::empty());
        assert(prefix@ == after_externs);
    }
    let p_use = str_to_chars("use ");
    let p_glob = str_to_chars("::*;\n");
    let ghost after_wilds = after_externs + wild_lines_from(wv, 0);
    let mut wi: usize = 0;
    while wi < wild_crates.len()
        invariant
            wv == views(wild_crates@),
            p_use@ == "use "@,
            p_glob@ == "::*;\n"@,
            0 <= wi <= wild_crates@.len(),
            wv.len() == wild_crates@.len(),
            after_wilds == after_externs + wild_lines_from(wv, 0),
            prefix@ + wild_lines_from(wv, wi as int) == after_wilds,
        decreases wild_crates@.len() - wi,
    {
        let c = str_to_chars(wild_crates[wi].as_str());
        proof {
            assert(wv[wi as int] == wild_crates@[wi as int]@);
        }
        let ghost pre_prefix = prefix@;
        append_chars(&mut prefix, &p_use);
        append_chars(&mut prefix, &c);
        append_chars(&mut prefix, &p_glob);
        proof {
            assert(prefix@ =~= pre_prefix + wild_line_for(wv[wi as int]));
            assert(prefix@ + wild_lines_from(wv, wi + 1) =~= pre_prefix + wild_lines_from(
                wv,
                wi as int,
            ));
        }
        wi += 1;
    }
    proof {
        assert(wild_lines_from(wv, wv.len() as int) =~= Seq::<char>::empty());
        assert(prefix@ =~= prefix@ + Seq::<char>::empty());
        assert(prefix@ == initial_prefix(prelude@, ev, wv, mv, av));
    }

    // ---- scan the fragment line by line ----
    let mut body: Vec<char> = str_to_chars(prepend);
    let mut crate_begin: Vec<char> = Vec::new();
    let mut deduced: Vec<Vec<char>> = Vec::new();
    let code_chars = str_to_chars(code);
    let lines = split_lines(&code_chars);
    let ghost lv = text_lines(code@);
    let ghost st0 = initial_state(prelude@, ev, wv, mv, av, prepend@);
    let mut first = true;
    let mut in_body = false;

    let p_shebang = str_to_chars("#!/");
    let p_comment = str_to_chars("//");
    let p_mu = str_to_chars("#[macro_use");
    let p_extern = str_to_chars("extern ");
    let p_use2 = str_to_chars("use ");
    let p_ec2 = str_to_chars("extern crate ");
    let p_inner = str_to_chars("#![");
    let p_std = str_to_chars("std");
    let p_core = str_to_chars("core");
    let p_alloc = str_to_chars("alloc");
    let p_crate = str_to_chars("crate");
    let mut ind: Vec<char> = Vec::new();
    ind.push(' ');
    ind.push(' ');
    ind.push(' ');
    ind.push(' ');
    proof {
        assert(ind@ =~= indent());
        assert(crate_begin@ =~= Seq::<char>::empty());
        assert(views(deduced@) =~= Seq::<Seq<char>>::empty());
        assert((ScanState {
            first: first,
            in_body: in_body,
            crate_begin: crate_begin@,
            prefix: prefix@,
            body: body@,
            deduced: views(deduced@),
        }) == st0);
    }

    let mut li: usize = 0;
    while li < lines.len()
        invariant
            ev == views(extern_crates@),
            wv == views(wild_crates@),
            mv == views(macro_crates@),
            av == alias_views(aliases@),
            st0 == initial_state(prelude@, ev, wv, mv, av, prepend@),
            lv == text_lines(code@),
            views(lines@) == lv,
            lines@.len() == lv.len(),
            p_shebang@ == "#!/"@,
            p_comment@ == "//"@,
            p_mu@ == "#[macro_use"@,
            p_extern@ == "extern "@,
            p_use2@ == "use "@,
            p_ec2@ == "extern crate "@,
            p_inner@ == "#!["@,
            p_std@ == "std"@,
            p_core@ == "core"@,
            p_alloc@ == "alloc"@,
            p_crate@ == "crate"@,
            ind@ == indent(),
            0 <= li <= lines@.len(),
            scan_from(lv, 0, gt2015, st0) == scan_from(
                lv,
                li as int,
                gt2015,
                (ScanState {
                    first: first,
                    in_body: in_body,
                    crate_begin: crate_begin@,
                    prefix: prefix@,
                    body: body@,
                    deduced: views(deduced@),
                }),
            ),
        decreases lines@.len() - li,
    {
        let ghost pre_st = ScanState {
            first: first,
            in_body: in_body,
            crate_begin: crate_begin@,
            prefix: prefix@,
            body: body@,
            deduced: views(deduced@),
        };
        let ghost post_st = scan_line(lv[li as int], gt2015, pre_st);
        let line = &lines[li];
        proof {
            assert(line@ == views(lines@)[li as int]);
        }
        if in_body {
            let ghost pb = body@;
            append_chars(&mut body, &ind);
            append_chars(&mut body, line);
            body.push('\n');
            proof {
                assert(body@ =~= pb + indent() + lv[li as int] + seq!['\n']);
            }
        } else {
            let ti = trim_start_idx(line);
            let ll = line.len();
            let t = subvec(line, ti, ll);
            proof {
                assert(t@ == trim_start_spec(lv[li as int]));
            }
            let header_skip = first && (starts_with_exec(&t, &p_shebang) || starts_with_exec(
                &t,
                &p_comment,
            ));
            if header_skip {
            } else {
                first = false;
                match find_pat(&t, &p_mu) {
                    Some(m) => {
                        proof {
                            lemma_first_match_is_find(t@, "#[macro_use"@, m as int);
                        }
                        let tn = t.len();
                        let rest = subvec(&t, m + p_mu.len(), tn);
                        proof {
                            assert(after_spec(t@, "#[macro_use"@) == Some(rest@));
                        }
                        match word_after_tot(&rest, &p_ec2) {
                            Some(w) => {
                                proof {
                                    lemma_views_push(deduced@, w);
                                }
                                deduced.push(w);
                            },
                            None => {},
                        }
                        let ghost pp = prefix@;
                        append_chars(&mut prefix, &t);
                        prefix.push('\n');
                        proof {
                            assert(prefix@ =~= pp + t@ + seq!['\n']);
                        }
                    },
                    None => {
                        proof {
                            lemma_no_match_is_find_none(t@, "#[macro_use"@);
                        }
                        if starts_with_exec(&t, &p_extern) || starts_with_exec(&t, &p_use2) {
                            match word_after_tot(&t, &p_ec2) {
                                Some(w) => {
                                    proof {
                                        lemma_views_push(deduced@, w);
                                    }
                                    deduced.push(w);
                                },
                                None => {},
                            }
                            if gt2015 {
                                match word_after_tot(&t, &p_use2) {
                                    Some(path) => {
                                        let nr = split_chars(&path, ':');
                                        let reserved = chars_eq(&nr.0, &p_std) || chars_eq(
                                            &nr.0,
                                            &p_core,
                                        ) || chars_eq(&nr.0, &p_alloc) || chars_eq(&nr.0, &p_crate);
                                        if !reserved || nr.1.len() == 0 {
                                            proof {
                                                lemma_views_push(deduced@, nr.0);
                                            }
                                            deduced.push(nr.0);
                                        }
                                    },
                                    None => {},
                                }
                            }
                            let ghost pp = prefix@;
                            append_chars(&mut prefix, &t);
                            prefix.push('\n');
                            proof {
                                assert(prefix@ =~= pp + t@ + seq!['\n']);
                            }
                        } else if starts_with_exec(&t, &p_inner) {
                            let ghost pc = crate_begin@;
                            append_chars(&mut crate_begin, &t);
                            crate_begin.push('\n');
                            proof {
                                assert(crate_begin@ =~= pc + t@ + seq!['\n']);
                            }
                        } else if t.len() > 0 {
                            in_body = true;
                            let ghost pb = body@;
                            append_chars(&mut body, &ind);
                            append_chars(&mut body, &t);
                            body.push('\n');
                            proof {
                                assert(body@ =~= pb + indent() + t@ + seq!['\n']);
                            }
                        } else {
                        }
                    },
                }
            }
        }
        proof {
            assert((ScanState {
                first: first,
                in_body: in_body,
                crate_begin: crate_begin@,
                prefix: prefix@,
                body: body@,
                deduced: views(deduced@),
            }) == post_st);
            assert(scan_from(lv, li as int, gt2015, pre_st) == scan_from(
                lv,
                li + 1,
                gt2015,
                post_st,
            ));
        }
        li += 1;
    }
    let ghost fin = scan_result(code@, prelude@, ev, wv, mv, av, prepend@, gt2015);
    proof {
        assert(fin == (ScanState {
            first: first,
            in_body: in_body,
            crate_begin: crate_begin@,
            prefix: prefix@,
            body: body@,
            deduced: views(deduced@),
        }));
    }

    // ---- assemble the program text ----
    let mut out: Vec<char> = Vec::new();
    append_chars(&mut out, &crate_begin);
    out.push('\n');
    append_chars(&mut out, &prefix);
    out.push('\n');
    out.push('\n');
    let hdr = str_to_chars(
        "fn run(args: Vec<String>) -> std::result::Result<(),Box<dyn std::error::Error+Sync+Send>> {\n",
    );
    append_chars(&mut out, &hdr);
    append_chars(&mut out, &body);
    let tail = str_to_chars(
        "    Ok(())\n}\n\nfn main() {\n    if let Err(e) = run(std::env::args().collect()) {\n        println!(\"error: {:?}\",e);\n    }\n}\n",
    );
    append_chars(&mut out, &tail);
    proof {
        assert(out@ =~= assemble(crate_begin@, prefix@, body@));
    }

    // ---- deduplicate and sort the deduced names ----
    let mut sorted_d: Vec<Vec<char>> = Vec::new();
    let mut di: usize = 0;
    proof {
        assert(views(sorted_d@) =~= Seq::<Seq<char>>::empty());
        assert forall|y: Seq<char>|
            !views(deduced@).take(0).contains(y) && !views(sorted_d@).contains(y) by {}
    }
    while di < deduced.len()
        invariant
            0 <= di <= deduced@.len(),
            strictly_sorted(views(sorted_d@)),
            forall|y: Seq<char>|
                views(sorted_d@).contains(y) <==> views(deduced@).take(di as int).contains(y),
        decreases deduced@.len() - di,
    {
        let x = clone_chars(&deduced[di]);
        proof {
            assert(x@ == views(deduced@)[di as int]);
            lemma_contains_take_step(views(deduced@), di as int);
        }
        sorted_insert(&mut sorted_d, x);
        di += 1;
    }
    proof {
        assert(views(deduced@).take(views(deduced@).len() as int) =~= views(deduced@));
    }
    let mut xi: usize = 0;
    proof {
        assert(ev.take(0) =~= Seq::<Seq<char>>::empty());
    }
    while xi < extern_crates.len()
        invariant
            ev == views(extern_crates@),
            ev.len() == extern_crates@.len(),
            0 <= xi <= extern_crates@.len(),
            strictly_sorted(views(sorted_d@)),
            forall|y: Seq<char>|
                views(sorted_d@).contains(y) <==> (views(deduced@).contains(y) || ev.take(
                    xi as int,
                ).contains(y)),
        decreases extern_crates@.len() - xi,
    {
        let x = str_to_chars(extern_crates[xi].as_str());
        proof {
            assert(x@ == ev[xi as int]);
            lemma_contains_take_step(ev, xi as int);
        }
        sorted_insert(&mut sorted_d, x);
        xi += 1;
    }
    proof {
        assert(ev.take(ev.len() as int) =~= ev);
        assert(wv.take(0) =~= Seq::<Seq<char>>::empty());
    }
    let mut yi: usize = 0;
    while yi < wild_crates.len()
        invariant
            ev == views(extern_crates@),
            wv == views(wild_crates@),
            wv.len() == wild_crates@.len(),
            0 <= yi <= wild_crates@.len(),
            strictly_sorted(views(sorted_d@)),
            forall|y: Seq<char>|
                #![trigger views(sorted_d@).contains(y)]
                views(sorted_d@).contains(y) <==> (views(deduced@).contains(y) || ev.contains(y)
                    || wv.take(yi as int).contains(y)),
        decreases wild_crates@.len() - yi,
    {
        let x = str_to_chars(wild_crates[yi].as_str());
        let ghost pre_sorted = views(sorted_d@);
        proof {
            assert(x@ == wv[yi as int]);
            lemma_contains_take_step(wv, yi as int);
        }
        sorted_insert(&mut sorted_d, x);
        proof {
            assert forall|y: Seq<char>|
                #![trigger views(sorted_d@).contains(y)]
                views(sorted_d@).contains(y) <==> (views(deduced@).contains(y) || ev.contains(y)
                    || wv.take(yi + 1).contains(y)) by {
                assert(views(sorted_d@).contains(y) <==> (pre_sorted.contains(y) || y == wv[yi as int]));
                assert(wv.take(yi + 1).contains(y) <==> (wv.take(yi as int).contains(y) || y
                    == wv[yi as int]));
            }
        }
        yi += 1;
    }
    proof {
        assert(wv.take(wv.len() as int) =~= wv);
        assert(mv.take(0) =~= Seq::<Seq<char>>::empty());
    }
    let mut zi: usize = 0;
    while zi < macro_crates.len()
        invariant
            ev == views(extern_crates@),
            wv == views(wild_crates@),
            mv == views(macro_crates@),
            mv.len() == macro_crates@.len(),
            0 <= zi <= macro_crates@.len(),
            strictly_sorted(views(sorted_d@)),
            forall|y: Seq<char>|
                #![trigger views(sorted_d@).contains(y)]
                views(sorted_d@).contains(y) <==> (views(deduced@).contains(y) || ev.contains(y)
                    || wv.contains(y) || mv.take(zi as int).contains(y)),
        decreases macro_crates@.len() - zi,
    {
        let x = str_to_chars(macro_crates[zi].as_str());
        let ghost pre_sorted = views(sorted_d@);
        proof {
            assert(x@ == mv[zi as int]);
            lemma_contains_take_step(mv, zi as int);
        }
        sorted_insert(&mut sorted_d, x);
        proof {
            assert forall|y: Seq<char>|
                #![trigger views(sorted_d@).contains(y)]
                views(sorted_d@).contains(y) <==> (views(deduced@).contains(y) || ev.contains(y)
                    || wv.contains(y) || mv.take(zi + 1).contains(y)) by {
                assert(views(sorted_d@).contains(y) <==> (pre_sorted.contains(y) || y == mv[zi as int]));
                assert(mv.take(zi + 1).contains(y) <==> (mv.take(zi as int).contains(y) || y
                    == mv[zi as int]));
            }
        }
        zi += 1;
    }
    proof {
        assert(mv.take(mv.len() as int) =~= mv);
    }

    let out_string = chars_to_string(&out);
    let deduced_strings = to_strings(&sorted_d);
    proof {
        assert(views(deduced_strings@) == views(sorted_d@));
        assert(fin.deduced == views(deduced@));
    }
    (out_string, deduced_strings)
}

// ---------------------------------------------------------------------------
// Laws of the transformer
// ---------------------------------------------------------------------------

/// `s` ends in a newline, or is empty: a later chunk starts on a fresh line.
pub open spec fn ends_nl(s: Seq<char>) -> bool {
    s.len() == 0 || s.last() == '\n'
}

/// The head of the generated harness function.
pub open spec fn harness_pat() -> Seq<char> {
    "fn run("@
}

/// Exactly one position of `s` carries the marker `p`.
pub open spec fn unique_pat(s: Seq<char>, p: Seq<char>) -> bool {
    exists|i: int| match_at(s, p, i) && forall|j: int| match_at(s, p, j) ==> j == i
}

/// The shape the transformer's two markers — the entry-point head and the
/// harness head — share, and all the cleanliness lemmas below need: seven
/// characters opening `fn `, the fourth not an `a`, no newline.
pub open spec fn marker_shaped(p: Seq<char>) -> bool {
    &&& p.len() == 7
    &&& p[0] == 'f'
    &&& p[1] == 'n'
    &&& p[2] == ' '
    &&& p[3] != 'a'
    &&& char_free(p, '\n')
}

/// No occurrence of the marker in any chunk the scan accumulates, each
/// chunk ending on a line boundary.
pub open spec fn clean_state(st: ScanState, p: Seq<char>) -> bool {
    &&& !contains_pat(st.crate_begin, p) && ends_nl(st.crate_begin)
    &&& !contains_pat(st.prefix, p) && ends_nl(st.prefix)
    &&& !contains_pat(st.body, p) && ends_nl(st.body)
}

/// Appending a newline to marker-free text keeps it marker-free.
proof fn lemma_append_nl_clean(t: Seq<char>, p: Seq<char>)
    requires
        marker_shaped(p),
        !contains_pat(t, p),
    ensures
        !contains_pat(t + seq!['\n'], p),
{
    let s = t + seq!['\n'];
    assert forall|i: int| !match_at(s, p, i) by {
        if match_at(s, p, i) {
            if i + p.len() <= t.len() {
                assert forall|j: int| 0 <= j < p.len() implies t[i + j] == p[j] by {
                    assert(s[i + j] == p[j]);
                }
                assert(match_at(t, p, i));
            } else {
                // the match would cover the appended newline
                let j = s.len() - 1 - i;
                assert(s[i + j] == '\n');
                assert(p[j] == '\n');
            }
        }
    }
}

/// Marker-free text stays marker-free when indented and newline-terminated.
proof fn lemma_indent_clean(line: Seq<char>, p: Seq<char>)
    requires
        marker_shaped(p),
        !contains_pat(line, p),
    ensures
        !contains_pat(indent() + line + seq!['\n'], p),
{
    let s = indent() + line + seq!['\n'];
    assert forall|i: int| !match_at(s, p, i) by {
        if match_at(s, p, i) {
            if i < 4 {
                assert(s[i] == ' ');
                assert(s[i] == p[0]);
            } else if i + p.len() <= 4 + line.len() {
                assert forall|j: int| 0 <= j < p.len() implies line[i - 4 + j] == p[j] by {
                    assert(s[i + j] == p[j]);
                }
                assert(match_at(line, p, i - 4));
            } else {
                let j = s.len() - 1 - i;
                assert(s[i + j] == '\n');
                assert(p[j] == '\n');
            }
        }
    }
}

/// Leading whitespace removed from marker-free text leaves it marker-free.
proof fn lemma_trim_clean(line: Seq<char>, p: Seq<char>)
    requires
        !contains_pat(line, p),
    ensures
        !contains_pat(trim_start_spec(line), p),
{
    crate::text::lemma_trim_start(line);
    let i = choose|i: int|
        0 <= i <= line.len() && trim_start_spec(line) == line.subrange(i, line.len() as int) && (
        forall|k: int| 0 <= k < i ==> is_space_char(line[k]));
    crate::text::lemma_subrange_clean(line, p, i, line.len() as int);
}

/// A generated line of the shape `A ++ name ++ B` holds no marker, as long
/// as `A` has no `f`, the name no whitespace, and `B` neither a space nor
/// an `f`.
proof fn lemma_link_line_clean(a: Seq<char>, c: Seq<char>, b: Seq<char>, p: Seq<char>)
    requires
        marker_shaped(p),
        char_free(a, 'f'),
        space_free(c),
        char_free(b, ' '),
        char_free(b, 'f'),
    ensures
        !contains_pat(a + c + b, p),
{
    let s = a + c + b;
    assert forall|i: int| !match_at(s, p, i) by {
        if match_at(s, p, i) {
            assert(s[i] == 'f');
            assert(s[i + 2] == ' ');
            // `f` can only be inside the name
            assert(a.len() <= i < a.len() + c.len());
            // so the space two places on is inside the name or inside `B`
            assert(i + 2 >= a.len());
            if i + 2 < a.len() + c.len() {
                assert(s[i + 2] == c[i + 2 - a.len()]);
                assert(!is_space_char(c[i + 2 - a.len()]));
            } else {
                assert(s[i + 2] == b[i + 2 - a.len() - c.len()]);
            }
        }
    }
}

/// An aliased linkage line holds no marker.
proof fn lemma_alias_line_clean(a: Seq<char>, c: Seq<char>, p: Seq<char>)
    requires
        marker_shaped(p),
        space_free(a),
        space_free(c),
    ensures
        !contains_pat("extern crate "@ + a + " as "@ + c + ";\n"@, p),
{
    let s = "extern crate "@ + a + " as "@ + c + ";\n"@;
    reveal_strlit("extern crate ");
    reveal_strlit(" as ");
    reveal_strlit(";\n");
    let la = "extern crate "@.len();
    let lm = " as "@.len();
    assert(char_free("extern crate "@, 'f'));
    assert(char_free(" as "@, 'f'));
    assert(char_free(";\n"@, 'f'));
    assert forall|i: int| !match_at(s, p, i) by {
        if match_at(s, p, i) {
            assert(s[i] == 'f');
            assert(s[i + 2] == ' ');
            assert(s[i + 3] == p[3]);
            // `f` lies in one of the two names
            if la <= i < la + a.len() {
                // the space two on lies in the alias name (impossible), in
                // `" as "` at its first or second position, or further on
                if i + 2 < la + a.len() {
                    assert(!is_space_char(a[i + 2 - la]));
                } else if i + 2 == la + a.len() {
                    // s[i + 3] is the `a` of `" as "`
                    assert(s[i + 3] == 'a');
                } else {
                    assert(i + 2 == la + a.len() + 1);
                    assert(s[i + 2] == 'a');
                }
            } else if la + a.len() + lm <= i < la + a.len() + lm + c.len() {
                if i + 2 < la + a.len() + lm + c.len() {
                    assert(!is_space_char(c[i + 2 - la - a.len() - lm]));
                } else {
                    assert(char_free(";\n"@, ' '));
                    assert(s[i + 2] == ";\n"@[i + 2 - la - a.len() - lm - c.len()]);
                }
            } else if i < la {
                assert(s[i] == "extern crate "@[i]);
            } else {
                assert(la + a.len() <= i < la + a.len() + lm || la + a.len() + lm + c.len() <= i);
                if la + a.len() <= i < la + a.len() + lm {
                    assert(s[i] == " as "@[i - la - a.len()]);
                } else {
                    assert(s[i] == ";\n"@[i - la - a.len() - lm - c.len()]);
                }
            }
        }
    }
}

/// Every generated linkage line is marker-free and newline-terminated.
proof fn lemma_extern_line_clean(
    c: Seq<char>,
    macros: Seq<Seq<char>>,
    aliases: Seq<(Seq<char>, Seq<char>)>,
    p: Seq<char>,
)
    requires
        marker_shaped(p),
        space_free(c),
        forall|k: int| 0 <= k < aliases.len() ==> space_free(#[trigger] aliases[k].1),
    ensures
        !contains_pat(extern_line_for(c, macros, aliases), p),
        ends_nl(extern_line_for(c, macros, aliases)),
        extern_line_for(c, macros, aliases).len() > 0,
    decreases aliases.len(),
{
    reveal_strlit("extern crate ");
    reveal_strlit("#[macro_use] ");
    reveal_strlit(";\n");
    let line = extern_line_for(c, macros, aliases);
    match alias_of(aliases, c) {
        Some(a) => {
            lemma_alias_of_is_value(aliases, c);
            lemma_alias_line_clean(a, c, p);
            assert(line.last() == '\n');
        },
        None => {
            if macros.contains(c) {
                assert(char_free("#[macro_use] "@ + "extern crate "@, 'f')) by {
                    assert(forall|k: int|
                        0 <= k < ("#[macro_use] "@ + "extern crate "@).len() ==> ("#[macro_use] "@
                            + "extern crate "@)[k] != 'f');
                }
                assert(char_free(";\n"@, ' ') && char_free(";\n"@, 'f'));
                lemma_link_line_clean("#[macro_use] "@ + "extern crate "@, c, ";\n"@, p);
                assert(line =~= ("#[macro_use] "@ + "extern crate "@) + c + ";\n"@);
                assert(!contains_pat(line, p));
                assert(line.last() == '\n');
            } else {
                assert(char_free("extern crate "@, 'f'));
                assert(char_free(";\n"@, ' ') && char_free(";\n"@, 'f'));
                lemma_link_line_clean("extern crate "@, c, ";\n"@, p);
                assert(line =~= "extern crate "@ + c + ";\n"@);
                assert(!contains_pat(line, p));
                assert(line.last() == '\n');
            }
        },
    }
}

/// A resolved alias is one of the registered targets.
proof fn lemma_alias_of_is_value(aliases: Seq<(Seq<char>, Seq<char>)>, c: Seq<char>)
    ensures
        match alias_of(aliases, c) {
            Some(a) => exists|k: int| 0 <= k < aliases.len() && #[trigger] aliases[k].1 == a,
            None => true,
        },
    decreases aliases.len(),
{
    if aliases.len() > 0 {
        if aliases.last().0 == c {
            assert(aliases[aliases.len() - 1].1 == aliases.last().1);
        } else {
            lemma_alias_of_is_value(aliases.drop_last(), c);
            match alias_of(aliases.drop_last(), c) {
                Some(a) => {
                    let k = choose|k: int|
                        0 <= k < aliases.drop_last().len() && #[trigger] aliases.drop_last()[k].1
                            == a;
                    assert(aliases[k].1 == a);
                },
                None => {},
            }
        }
    }
}

/// A generated glob-import line is marker-free and newline-terminated.
proof fn lemma_wild_line_clean(c: Seq<char>, p: Seq<char>)
    requires
        marker_shaped(p),
        space_free(c),
    ensures
        !contains_pat(wild_line_for(c), p),
        ends_nl(wild_line_for(c)),
        wild_line_for(c).len() > 0,
{
    reveal_strlit("use ");
    reveal_strlit("::*;\n");
    assert(char_free("use "@, 'f'));
    assert(char_free("::*;\n"@, ' ') && char_free("::*;\n"@, 'f'));
    lemma_link_line_clean("use "@, c, "::*;\n"@, p);
    assert(wild_line_for(c).last() == '\n');
}

/// The whole generated linkage block is marker-free and ends on a line
/// boundary.
proof fn lemma_extern_lines_clean(
    externs: Seq<Seq<char>>,
    macros: Seq<Seq<char>>,
    aliases: Seq<(Seq<char>, Seq<char>)>,
    i: int,
    p: Seq<char>,
)
    requires
        marker_shaped(p),
        forall|k: int| 0 <= k < externs.len() ==> space_free(#[trigger] externs[k]),
        forall|k: int| 0 <= k < aliases.len() ==> space_free(#[trigger] aliases[k].1),
    ensures
        !contains_pat(extern_lines_from(externs, macros, aliases, i), p),
        ends_nl(extern_lines_from(externs, macros, aliases, i)),
    decreases externs.len() - i,
{
    if 0 <= i < externs.len() {
        lemma_extern_line_clean(externs[i], macros, aliases, p);
        lemma_extern_lines_clean(externs, macros, aliases, i + 1, p);
        let line = extern_line_for(externs[i], macros, aliases);
        let rest = extern_lines_from(externs, macros, aliases, i + 1);
        crate::text::lemma_concat_clean(line, rest, p);
        assert(ends_nl(line + rest)) by {
            if rest.len() == 0 {
                assert((line + rest).last() == line.last());
            } else {
                assert((line + rest).last() == rest.last());
            }
        }
    } else {
        assert(forall|k: int| !match_at(Seq::<char>::empty(), p, k));
    }
}

/// The glob-import block is marker-free and ends on a line boundary.
proof fn lemma_wild_lines_clean(wilds: Seq<Seq<char>>, i: int, p: Seq<char>)
    requires
        marker_shaped(p),
        forall|k: int| 0 <= k < wilds.len() ==> space_free(#[trigger] wilds[k]),
    ensures
        !contains_pat(wild_lines_from(wilds, i), p),
        ends_nl(wild_lines_from(wilds, i)),
    decreases wilds.len() - i,
{
    if 0 <= i < wilds.len() {
        lemma_wild_line_clean(wilds[i], p);
        lemma_wild_lines_clean(wilds, i + 1, p);
        let line = wild_line_for(wilds[i]);
        let rest = wild_lines_from(wilds, i + 1);
        crate::text::lemma_concat_clean(line, rest, p);
        assert(ends_nl(line + rest)) by {
            if rest.len() == 0 {
                assert((line + rest).last() == line.last());
            } else {
                assert((line + rest).last() == rest.last());
            }
        }
    } else {
        assert(forall|k: int| !match_at(Seq::<char>::empty(), p, k));
    }
}

/// One scanned line keeps the accumulated chunks marker-free.
proof fn lemma_scan_line_clean(line: Seq<char>, gt2015: bool, st: ScanState, p: Seq<char>)
    requires
        marker_shaped(p),
        clean_state(st, p),
        !contains_pat(line, p),
    ensures
        clean_state(scan_line(line, gt2015, st), p),
{
    let out = scan_line(line, gt2015, st);
    if st.in_body {
        lemma_indent_clean(line, p);
        crate::text::lemma_concat_clean(st.body, indent() + line + seq!['\n'], p);
        assert(st.body + indent() + line + seq!['\n'] =~= st.body + (indent() + line
            + seq!['\n']));
        assert(ends_nl(out.body)) by {
            assert(out.body.last() == '\n');
        }
    } else {
        let t = trim_start_spec(line);
        lemma_trim_clean(line, p);
        lemma_append_nl_clean(t, p);
        crate::text::lemma_concat_clean(st.prefix, t + seq!['\n'], p);
        crate::text::lemma_concat_clean(st.crate_begin, t + seq!['\n'], p);
        lemma_indent_clean(t, p);
        crate::text::lemma_concat_clean(st.body, indent() + t + seq!['\n'], p);
        assert(st.prefix + t + seq!['\n'] =~= st.prefix + (t + seq!['\n']));
        assert(st.crate_begin + t + seq!['\n'] =~= st.crate_begin + (t + seq!['\n']));
        assert(st.body + indent() + t + seq!['\n'] =~= st.body + (indent() + t + seq!['\n']));
        assert(clean_state(out, p)) by {
            assert(!contains_pat(out.crate_begin, p) && !contains_pat(out.prefix, p)
                && !contains_pat(out.body, p));
            assert(ends_nl(out.crate_begin)) by {
                if out.crate_begin != st.crate_begin {
                    assert(out.crate_begin.last() == '\n');
                }
            }
            assert(ends_nl(out.prefix)) by {
                if out.prefix != st.prefix {
                    assert(out.prefix.last() == '\n');
                }
            }
            assert(ends_nl(out.body)) by {
                if out.body != st.body {
                    assert(out.body.last() == '\n');
                }
            }
        }
    }
}

/// The whole scan keeps the accumulated chunks marker-free.
proof fn lemma_scan_from_clean(
    lines: Seq<Seq<char>>,
    i: int,
    gt2015: bool,
    st: ScanState,
    p: Seq<char>,
)
    requires
        marker_shaped(p),
        clean_state(st, p),
        forall|k: int| 0 <= k < lines.len() ==> !contains_pat(#[trigger] lines[k], p),
    ensures
        clean_state(scan_from(lines, i, gt2015, st), p),
    decreases lines.len() - i,
{
    if 0 <= i < lines.len() {
        lemma_scan_line_clean(lines[i], gt2015, st, p);
        lemma_scan_from_clean(lines, i + 1, gt2015, scan_line(lines[i], gt2015, st), p);
    }
}

/// Facts about the harness tail: its sole entry point sits right after the
/// harness close, at position 14.
proof fn lemma_harness_tail()
    ensures
        forall|i: int| match_at(harness_tail(), entry_pat(), i) ==> i == 14,
        match_at(harness_tail(), entry_pat(), 14),
        harness_tail().last() == '\n',
        no_entry(run_header()),
        run_header().last() == '\n',
{
    lemma_entry_pat();
    let p = entry_pat();
    let t = harness_tail();
    reveal_strlit(
        "    Ok(())\n}\n\nfn main() {\n    if let Err(e) = run(std::env::args().collect()) {\n        println!(\"error: {:?}\",e);\n    }\n}\n",
    );
    reveal_strlit(
        "fn run(args: Vec<String>) -> std::result::Result<(),Box<dyn std::error::Error+Sync+Send>> {\n",
    );
    // the tail holds exactly one `m`, inside `fn main`
    assert(forall|k: int| 0 <= k < t.len() && t[k] == 'm' ==> k == 17);
    assert forall|i: int| match_at(t, p, i) implies i == 14 by {
        assert(t[i + 3] == 'm');
    }
    assert(match_at(t, p, 14)) by {
        assert(forall|j: int| 0 <= j < 7 ==> t[14 + j] == p[j]);
    }
    assert(char_free(run_header(), 'm'));
    crate::text::lemma_char_free_clean(run_header(), p, 'm', 3);
}

/// The transformer's guarantee on fragments: the assembled program holds
/// exactly one entry point, however many comments, blank lines or
/// declarations precede the body.
///
/// The fragment, the prelude and the prepended statement must be free of
/// entry points themselves, end on line boundaries where nonempty, and the
/// requested link names must be single words.
pub proof fn lemma_transform_one_entry(
    code: Seq<char>,
    prelude: Seq<char>,
    externs: Seq<Seq<char>>,
    wilds: Seq<Seq<char>>,
    macros: Seq<Seq<char>>,
    aliases: Seq<(Seq<char>, Seq<char>)>,
    prepend: Seq<char>,
    gt2015: bool,
)
    requires
        no_entry(code),
        no_entry(prelude),
        no_entry(prepend),
        ends_nl(prelude),
        ends_nl(prepend),
        forall|k: int| 0 <= k < externs.len() ==> space_free(#[trigger] externs[k]),
        forall|k: int| 0 <= k < wilds.len() ==> space_free(#[trigger] wilds[k]),
        forall|k: int| 0 <= k < aliases.len() ==> space_free(#[trigger] aliases[k].1),
    ensures
        one_entry(massaged_text(code, prelude, externs, wilds, macros, aliases, prepend, gt2015)),
{
    lemma_entry_pat();
    let p = entry_pat();
    assert(marker_shaped(p));

    // the initial state is clean
    let st0 = initial_state(prelude, externs, wilds, macros, aliases, prepend);
    assert(clean_state(st0, p)) by {
        lemma_extern_lines_clean(externs, macros, aliases, 0, p);
        lemma_wild_lines_clean(wilds, 0, p);
        let el = extern_lines_from(externs, macros, aliases, 0);
        let wl = wild_lines_from(wilds, 0);
        crate::text::lemma_concat_clean(prelude, el, p);
        crate::text::lemma_concat_clean(prelude + el, wl, p);
        assert(ends_nl(prelude + el)) by {
            if el.len() == 0 {
                assert(prelude + el =~= prelude);
            } else {
                assert((prelude + el).last() == el.last());
            }
        }
        assert(ends_nl(prelude + el + wl)) by {
            if wl.len() == 0 {
                assert((prelude + el + wl).last() == (prelude + el).last());
            } else {
                assert((prelude + el + wl).last() == wl.last());
            }
        }
        assert(forall|k: int| !match_at(Seq::<char>::empty(), p, k));
    }

    // every line of the fragment is entry-free, so the scan stays clean
    let lv = text_lines(code);
    crate::lines::lemma_lines_clean(code, p);
    let fin = scan_from(lv, 0, gt2015, st0);
    lemma_scan_from_clean(lv, 0, gt2015, st0, p);

    // assemble: everything before the tail is entry-free and newline-ended
    lemma_harness_tail();
    let nl = seq!['\n'];
    let nl2 = seq!['\n', '\n'];
    assert(no_entry(nl) && no_entry(nl2)) by {
        assert(forall|k: int| !match_at(nl, p, k));
        assert(forall|k: int| !match_at(nl2, p, k));
    }
    let c1 = fin.crate_begin + nl;
    crate::text::lemma_concat_clean(fin.crate_begin, nl, p);
    assert(c1.last() == '\n');
    let c2 = c1 + fin.prefix;
    crate::text::lemma_concat_clean(c1, fin.prefix, p);
    assert(ends_nl(c2)) by {
        if fin.prefix.len() == 0 {
            assert(c2.last() == c1.last());
        } else {
            assert(c2.last() == fin.prefix.last());
        }
    }
    let c3 = c2 + nl2;
    crate::text::lemma_concat_clean(c2, nl2, p);
    assert(c3.last() == '\n');
    let c4 = c3 + run_header();
    crate::text::lemma_concat_clean(c3, run_header(), p);
    assert(c4.last() == '\n') by {
        assert(c4.last() == run_header().last());
    }
    let c5 = c4 + fin.body;
    crate::text::lemma_concat_clean(c4, fin.body, p);
    assert(ends_nl(c5) && c5.len() > 0) by {
        if fin.body.len() == 0 {
            assert(c5.last() == c4.last());
        } else {
            assert(c5.last() == fin.body.last());
        }
    }

    let out = massaged_text(code, prelude, externs, wilds, macros, aliases, prepend, gt2015);
    assert(out =~= c5 + harness_tail());

    // the unique entry point: position 14 of the tail
    let w = c5.len() as int + 14;
    crate::text::lemma_concat_keeps_right(c5, harness_tail(), p, 14);
    assert(match_at(out, p, w));
    assert forall|j: int| match_at(out, p, j) implies j == w by {
        if j + p.len() <= c5.len() {
            assert forall|x: int| 0 <= x < p.len() implies c5[j + x] == p[x] by {
                assert(out[j + x] == p[x]);
            }
            assert(match_at(c5, p, j));
        } else if j >= c5.len() {
            assert forall|x: int| 0 <= x < p.len() implies harness_tail()[j - c5.len() + x]
                == p[x] by {
                assert(out[j + x] == p[x]);
            }
            assert(match_at(harness_tail(), p, j - c5.len()));
        } else {
            // a crossing match would cover the final newline of the front part
            let x = c5.len() - 1 - j;
            assert(out[c5.len() - 1] == c5.last());
            assert(p[x] == '\n');
        }
    }
    assert(one_entry(out));
}

/// Facts about the harness head: the generated header line opens with it
/// and holds it nowhere else, and the harness tail holds it nowhere.
proof fn lemma_harness_facts()
    ensures
        marker_shaped(harness_pat()),
        match_at(run_header(), harness_pat(), 0),
        forall|i: int| match_at(run_header(), harness_pat(), i) ==> i == 0,
        !contains_pat(harness_tail(), harness_pat()),
{
    reveal_strlit("fn run(");
    reveal_strlit(
        "fn run(args: Vec<String>) -> std::result::Result<(),Box<dyn std::error::Error+Sync+Send>> {\n",
    );
    reveal_strlit(
        "    Ok(())\n}\n\nfn main() {\n    if let Err(e) = run(std::env::args().collect()) {\n        println!(\"error: {:?}\",e);\n    }\n}\n",
    );
    let p = harness_pat();
    let r = run_header();
    let t = harness_tail();
    assert(match_at(r, p, 0)) by {
        assert(forall|j: int| 0 <= j < 7 ==> r[j] == p[j]);
    }
    // the header's only `f` opens it
    assert(forall|k: int| 1 <= k < r.len() ==> r[k] != 'f');
    assert forall|i: int| match_at(r, p, i) implies i == 0 by {
        reveal_strlit("fn run(");
        reveal_strlit(
            "fn run(args: Vec<String>) -> std::result::Result<(),Box<dyn std::error::Error+Sync+Send>> {\n",
        );
        assert(r[i] == p[0]);
        assert(r[i] == 'f');
    }
    // in the tail, `fn` occurs only inside the entry point, whose fourth
    // character is not the harness's
    assert(forall|k: int|
        #![trigger t[k]]
        0 <= k < t.len() - 1 && t[k] == 'f' && t[k + 1] == 'n' ==> k == 14);
    assert forall|i: int| !match_at(t, p, i) by {
        if match_at(t, p, i) {
            reveal_strlit("fn run(");
            reveal_strlit(
                "    Ok(())\n}\n\nfn main() {\n    if let Err(e) = run(std::env::args().collect()) {\n        println!(\"error: {:?}\",e);\n    }\n}\n",
            );
            assert(t[i] == p[0] && t[i + 1] == p[1]);
            assert(t[i] == 'f' && t[i + 1] == 'n');
            assert(i == 14);
            assert(t[i + 3] == p[3]);
        }
    }
}

/// The transformer's other structural guarantee on fragments: the assembled
/// program holds exactly one harness function head, the one it generates.
///
/// The hypotheses are those of [`lemma_transform_one_entry`], for the
/// harness head in place of the entry-point marker.
pub proof fn lemma_transform_single_harness(
    code: Seq<char>,
    prelude: Seq<char>,
    externs: Seq<Seq<char>>,
    wilds: Seq<Seq<char>>,
    macros: Seq<Seq<char>>,
    aliases: Seq<(Seq<char>, Seq<char>)>,
    prepend: Seq<char>,
    gt2015: bool,
)
    requires
        !contains_pat(code, harness_pat()),
        !contains_pat(prelude, harness_pat()),
        !contains_pat(prepend, harness_pat()),
        ends_nl(prelude),
        ends_nl(prepend),
        forall|k: int| 0 <= k < externs.len() ==> space_free(#[trigger] externs[k]),
        forall|k: int| 0 <= k < wilds.len() ==> space_free(#[trigger] wilds[k]),
        forall|k: int| 0 <= k < aliases.len() ==> space_free(#[trigger] aliases[k].1),
    ensures
        unique_pat(
            massaged_text(code, prelude, externs, wilds, macros, aliases, prepend, gt2015),
            harness_pat(),
        ),
{
    lemma_harness_facts();
    let p = harness_pat();

    // the initial state is clean
    let st0 = initial_state(prelude, externs, wilds, macros, aliases, prepend);
    assert(clean_state(st0, p)) by {
        lemma_extern_lines_clean(externs, macros, aliases, 0, p);
        lemma_wild_lines_clean(wilds, 0, p);
        let el = extern_lines_from(externs, macros, aliases, 0);
        let wl = wild_lines_from(wilds, 0);
        crate::text::lemma_concat_clean(prelude, el, p);
        crate::text::lemma_concat_clean(prelude + el, wl, p);
        assert(ends_nl(prelude + el)) by {
            if el.len() == 0 {
                assert(prelude + el =~= prelude);
            } else {
                assert((prelude + el).last() == el.last());
            }
        }
        assert(ends_nl(prelude + el + wl)) by {
            if wl.len() == 0 {
                assert((prelude + el + wl).last() == (prelude + el).last());
            } else {
                assert((prelude + el + wl).last() == wl.last());
            }
        }
        assert(forall|k: int| !match_at(Seq::<char>::empty(), p, k));
    }

    // every line of the fragment is free of the head, so the scan stays clean
    let lv = text_lines(code);
    crate::lines::lemma_lines_clean(code, p);
    let fin = scan_from(lv, 0, gt2015, st0);
    lemma_scan_from_clean(lv, 0, gt2015, st0, p);

    // everything before the header, and everything after it, is clean
    let nl = seq!['\n'];
    let nl2 = seq!['\n', '\n'];
    assert(!contains_pat(nl, p) && !contains_pat(nl2, p)) by {
        assert(forall|k: int| !match_at(nl, p, k));
        assert(forall|k: int| !match_at(nl2, p, k));
    }
    let c1 = fin.crate_begin + nl;
    crate::text::lemma_concat_clean(fin.crate_begin, nl, p);
    assert(c1.last() == '\n');
    let c2 = c1 + fin.prefix;
    crate::text::lemma_concat_clean(c1, fin.prefix, p);
    assert(ends_nl(c2)) by {
        if fin.prefix.len() == 0 {
            assert(c2.last() == c1.last());
        } else {
            assert(c2.last() == fin.prefix.last());
        }
    }
    let c3 = c2 + nl2;
    crate::text::lemma_concat_clean(c2, nl2, p);
    assert(c3.last() == '\n' && c3.len() > 0);

    let rest = fin.body + harness_tail();
    crate::text::lemma_concat_clean(fin.body, harness_tail(), p);

    // the header carries the unique occurrence
    let mid = run_header() + rest;
    crate::text::lemma_concat_keeps_left(run_header(), rest, p, 0);
    assert forall|j: int| match_at(mid, p, j) implies j == 0 by {
        if j + p.len() <= run_header().len() {
            assert forall|x: int| 0 <= x < p.len() implies run_header()[j + x] == p[x] by {
                assert(mid[j + x] == p[x]);
            }
            assert(match_at(run_header(), p, j));
        } else if j >= run_header().len() {
            assert forall|x: int| 0 <= x < p.len() implies rest[j - run_header().len() + x]
                == p[x] by {
                assert(mid[j + x] == p[x]);
            }
            assert(match_at(rest, p, j - run_header().len()));
        } else {
            // a crossing occurrence would cover the header's final newline
            let x = run_header().len() - 1 - j;
            reveal_strlit(
                "fn run(args: Vec<String>) -> std::result::Result<(),Box<dyn std::error::Error+Sync+Send>> {\n",
            );
            assert(mid[run_header().len() - 1] == run_header().last());
            assert(p[x] == '\n');
        }
    }

    let out = massaged_text(code, prelude, externs, wilds, macros, aliases, prepend, gt2015);
    assert(out =~= c3 + mid);
    let w = c3.len() as int;
    crate::text::lemma_concat_keeps_right(c3, mid, p, 0);
    assert(match_at(out, p, w));
    assert forall|j: int| match_at(out, p, j) implies j == w by {
        if j + p.len() <= c3.len() {
            assert forall|x: int| 0 <= x < p.len() implies c3[j + x] == p[x] by {
                assert(out[j + x] == p[x]);
            }
            assert(match_at(c3, p, j));
        } else if j >= c3.len() {
            assert forall|x: int| 0 <= x < p.len() implies mid[j - c3.len() + x] == p[x] by {
                assert(out[j + x] == p[x]);
            }
            assert(match_at(mid, p, j - c3.len()));
        } else {
            // a crossing occurrence would cover the front part's final newline
            let x = c3.len() - 1 - j;
            assert(out[c3.len() - 1] == c3.last());
            assert(p[x] == '\n');
        }
    }
    assert(unique_pat(out, p));
}

/// The deduced-link list is deduplicated, sorted, and a superset of both the
/// names found while scanning and the names explicitly requested.  This holds
/// by [`massage_snippet`]'s contract; stated here over the scan model.
pub proof fn lemma_deduced_sorted_superset(
    deduced: Seq<Seq<char>>,
    scan_found: Seq<Seq<char>>,
    externs: Seq<Seq<char>>,
    wilds: Seq<Seq<char>>,
    macros: Seq<Seq<char>>,
)
    requires
        strictly_sorted(deduced),
        forall|y: Seq<char>|
            deduced.contains(y) <==> (scan_found.contains(y) || externs.contains(y)
                || wilds.contains(y) || macros.contains(y)),
    ensures
        // sorted
        forall|i: int, j: int| 0 <= i < j < deduced.len() ==> seq_lt(deduced[i], deduced[j]),
        // deduplicated
        forall|i: int, j: int| 0 <= i < j < deduced.len() ==> deduced[i] != deduced[j],
        // a superset of everything found while scanning and of every
        // requested name, wildcard and macro-visibility names included
        forall|k: int| 0 <= k < scan_found.len() ==> deduced.contains(#[trigger] scan_found[k]),
        forall|k: int| 0 <= k < externs.len() ==> deduced.contains(#[trigger] externs[k]),
        forall|k: int| 0 <= k < wilds.len() ==> deduced.contains(#[trigger] wilds[k]),
        forall|k: int| 0 <= k < macros.len() ==> deduced.contains(#[trigger] macros[k]),
{
    assert forall|i: int, j: int| 0 <= i < j < deduced.len() implies deduced[i] != deduced[j] by {
        crate::text::lemma_seq_lt_trichotomy(deduced[i], deduced[j]);
    }
    assert forall|k: int| 0 <= k < scan_found.len() implies deduced.contains(
        #[trigger] scan_found[k],
    ) by {
        assert(scan_found.contains(scan_found[k]));
    }
    assert forall|k: int| 0 <= k < externs.len() implies deduced.contains(
        #[trigger] externs[k],
    ) by {
        assert(externs.contains(externs[k]));
    }
    assert forall|k: int| 0 <= k < wilds.len() implies deduced.contains(#[trigger] wilds[k]) by {
        assert(wilds.contains(wilds[k]));
    }
    assert forall|k: int| 0 <= k < macros.len() implies deduced.contains(#[trigger] macros[k]) by {
        assert(macros.contains(macros[k]));
    }
}

/// The scan's state after its first `i` lines.
pub open spec fn scan_upto(lines: Seq<Seq<char>>, i: int, gt2015: bool, st: ScanState) -> ScanState
    decreases i,
{
    if 0 < i <= lines.len() {
        scan_line(lines[i - 1], gt2015, scan_upto(lines, i - 1, gt2015, st))
    } else {
        st
    }
}

/// The whole scan is the scan of the first `i` lines continued over the
/// rest.
proof fn lemma_scan_split(lines: Seq<Seq<char>>, i: int, gt2015: bool, st: ScanState)
    requires
        0 <= i <= lines.len(),
    ensures
        scan_from(lines, 0, gt2015, st) == scan_from(lines, i, gt2015, scan_upto(lines, i, gt2015, st)),
    decreases i,
{
    if i > 0 {
        lemma_scan_split(lines, i - 1, gt2015, st);
    }
}

/// The scan never drops a deduced name: whatever stands in the list before
/// some line still stands, at the same place, at the end.
proof fn lemma_scan_deduced_monotone(lines: Seq<Seq<char>>, i: int, gt2015: bool, st: ScanState)
    ensures
        scan_from(lines, i, gt2015, st).deduced.len() >= st.deduced.len(),
        forall|k: int|
            0 <= k < st.deduced.len() ==> scan_from(lines, i, gt2015, st).deduced[k]
                == st.deduced[k],
    decreases lines.len() - i,
{
    if 0 <= i < lines.len() {
        let st1 = scan_line(lines[i], gt2015, st);
        assert(st1.deduced.len() >= st.deduced.len() && forall|k: int|
            0 <= k < st.deduced.len() ==> st1.deduced[k] == st.deduced[k]);
        lemma_scan_deduced_monotone(lines, i + 1, gt2015, st1);
    }
}

/// Every name the scan reads out of any line — an explicit-linkage
/// declaration's crate, or a deduced import root — stands in the scan's
/// final deduced list; by [`massage_snippet`]'s contract it then stands in
/// the returned deduced-link list.
pub proof fn lemma_scanned_name_deduced(
    code: Seq<char>,
    prelude: Seq<char>,
    externs: Seq<Seq<char>>,
    wilds: Seq<Seq<char>>,
    macros: Seq<Seq<char>>,
    aliases: Seq<(Seq<char>, Seq<char>)>,
    prepend: Seq<char>,
    gt2015: bool,
    i: int,
)
    requires
        0 <= i < text_lines(code).len(),
    ensures
        ({
            let st0 = initial_state(prelude, externs, wilds, macros, aliases, prepend);
            let lines = text_lines(code);
            let stepped = scan_line(lines[i], gt2015, scan_upto(lines, i, gt2015, st0));
            forall|x: Seq<char>|
                stepped.deduced.contains(x) ==> scan_result(
                    code,
                    prelude,
                    externs,
                    wilds,
                    macros,
                    aliases,
                    prepend,
                    gt2015,
                ).deduced.contains(x)
        }),
{
    let st0 = initial_state(prelude, externs, wilds, macros, aliases, prepend);
    let lines = text_lines(code);
    let before = scan_upto(lines, i, gt2015, st0);
    let stepped = scan_line(lines[i], gt2015, before);
    lemma_scan_split(lines, i + 1, gt2015, st0);
    assert(scan_upto(lines, i + 1, gt2015, st0) == stepped);
    lemma_scan_deduced_monotone(lines, i + 1, gt2015, stepped);
    let fin = scan_result(code, prelude, externs, wilds, macros, aliases, prepend, gt2015);
    assert(fin == scan_from(lines, i + 1, gt2015, stepped));
    assert forall|x: Seq<char>| stepped.deduced.contains(x) implies fin.deduced.contains(x) by {
        let k = choose|k: int| 0 <= k < stepped.deduced.len() && stepped.deduced[k] == x;
        assert(fin.deduced[k] == x);
    }
}

/// Feeding the transformer's output back through the classifier's counting
/// stage always yields a candidate program, never a fragment: the output is
/// not wrapped twice.
pub proof fn lemma_transform_classified_once(
    code: Seq<char>,
    prelude: Seq<char>,
    externs: Seq<Seq<char>>,
    wilds: Seq<Seq<char>>,
    macros: Seq<Seq<char>>,
    aliases: Seq<(Seq<char>, Seq<char>)>,
    prepend: Seq<char>,
    gt2015: bool,
)
    requires
        no_entry(code),
        no_entry(prelude),
        no_entry(prepend),
        ends_nl(prelude),
        ends_nl(prepend),
        forall|k: int| 0 <= k < externs.len() ==> space_free(#[trigger] externs[k]),
        forall|k: int| 0 <= k < wilds.len() ==> space_free(#[trigger] wilds[k]),
        forall|k: int| 0 <= k < aliases.len() ==> space_free(#[trigger] aliases[k].1),
    ensures
        one_entry(massaged_text(code, prelude, externs, wilds, macros, aliases, prepend, gt2015)),
        !no_entry(massaged_text(code, prelude, externs, wilds, macros, aliases, prepend, gt2015)),
        !multi_entry(massaged_text(code, prelude, externs, wilds, macros, aliases, prepend, gt2015)),
{
    lemma_transform_one_entry(code, prelude, externs, wilds, macros, aliases, prepend, gt2015);
    let out = massaged_text(code, prelude, externs, wilds, macros, aliases, prepend, gt2015);
    let w = choose|w: int|
        match_at(out, entry_pat(), w) && forall|j: int| match_at(out, entry_pat(), j) ==> j == w;
    assert(!no_entry(out));
    if multi_entry(out) {
        let (a, b) = choose|a: int, b: int|
            a != b && match_at(out, entry_pat(), a) && match_at(out, entry_pat(), b);
        assert(false);
    }
}


// ---------------------------------------------------------------------------
// Linkage declarations of a complete program
// ---------------------------------------------------------------------------

/// The crate names a complete program declares, line by line: the word after
/// each line's first explicit-linkage marker, where one occurs.
pub open spec fn extern_names_of(ls: Seq<Seq<char>>, i: int) -> Seq<Seq<char>>
    decreases ls.len() - i,
{
    if 0 <= i < ls.len() {
        (match word_after_tot_spec(ls[i], "extern crate "@) {
            None => Seq::<Seq<char>>::empty(),
            Some(w) => seq![w],
        }) + extern_names_of(ls, i + 1)
    } else {
        Seq::empty()
    }
}

/// The declared link names of a complete program, in order of declaration:
/// what a well-formed program must still be linked against.
pub fn extern_crate_names(code: &str) -> (r: Vec<String>)
    ensures
        views(r@) == extern_names_of(text_lines(code@), 0),
{
    let cv = str_to_chars(code);
    let lines = split_lines(&cv);
    let ghost ls = text_lines(code@);
    let p_ec = str_to_chars("extern crate ");
    let mut r: Vec<String> = Vec::new();
    let mut i: usize = 0;
    proof {
        assert(views(r@) =~= Seq::<Seq<char>>::empty());
        assert(views(r@) + extern_names_of(ls, 0) =~= extern_names_of(ls, 0));
    }
    while i < lines.len()
        invariant
            ls == text_lines(code@),
            views(lines@) == ls,
            lines@.len() == ls.len(),
            p_ec@ == "extern crate "@,
            0 <= i <= lines@.len(),
            views(r@) + extern_names_of(ls, i as int) == extern_names_of(ls, 0),
        decreases lines@.len() - i,
    {
        proof {
            assert(lines@[i as int]@ == ls[i as int]);
        }
        match word_after_tot(&lines[i], &p_ec) {
            Some(w) => {
                let ghost pre = r@;
                let name = chars_to_string(&w);
                proof {
                    lemma_views_push(pre, name);
                    assert(views(r@).push(name@) + extern_names_of(ls, i + 1) =~= views(pre)
                        + extern_names_of(ls, i as int));
                }
                r.push(name);
            },
            None => {
                proof {
                    assert(extern_names_of(ls, i as int) =~= extern_names_of(ls, i + 1));
                }
            },
        }
        i += 1;
    }
    proof {
        assert(extern_names_of(ls, ls.len() as int) =~= Seq::<Seq<char>>::empty());
        assert(views(r@) =~= views(r@) + Seq::<Seq<char>>::empty());
    }
    r
}

// ---------------------------------------------------------------------------
// From request values to a program
// ---------------------------------------------------------------------------

/// Consecutive duplicates removed, the first of each run kept.
pub open spec fn dedup_adjacent_from(s: Seq<Seq<char>>, i: int) -> Seq<Seq<char>>
    decreases s.len() - i,
{
    if 0 <= i < s.len() {
        (if i > 0 && s[i] == s[i - 1] {
            Seq::empty()
        } else {
            seq![s[i]]
        }) + dedup_adjacent_from(s, i + 1)
    } else {
        Seq::empty()
    }
}

/// Every written `\n` escape replaced by a line break: undoes the shell's
/// escaping of a prepended statement.
pub open spec fn unescaped_newlines(s: Seq<char>) -> Seq<char>
    decreases s.len(),
{
    match crate::text::find_index(s, seq!['\\', 'n']) {
        None => s,
        Some(i) => {
            if 0 <= i && i + 2 <= s.len() {
                s.take(i) + seq!['\n'] + unescaped_newlines(s.skip(i + 2))
            } else {
                s
            }
        },
    }
}

/// The body-prepend text as the harness receives it: newline escapes
/// undone, a closing semicolon and line break added; an empty prepend stays
/// empty.
pub open spec fn prepend_munged(p: Seq<char>) -> Seq<char> {
    if p.len() == 0 {
        p
    } else {
        unescaped_newlines(p) + seq![';', '\n']
    }
}

/// Replace newline escapes; executable counterpart of
/// [`unescaped_newlines`].
fn unescape_newlines(s: &str) -> (r: Vec<char>)
    ensures
        r@ == unescaped_newlines(s@),
{
    let mut pat: Vec<char> = Vec::new();
    pat.push('\\');
    pat.push('n');
    proof {
        assert(pat@ =~= seq!['\\', 'n']);
    }
    let mut out: Vec<char> = Vec::new();
    let mut rest = str_to_chars(s);
    proof {
        assert(out@ + unescaped_newlines(rest@) =~= unescaped_newlines(s@));
    }
    loop
        invariant
            pat@ == seq!['\\', 'n'],
            out@ + unescaped_newlines(rest@) == unescaped_newlines(s@),
        decreases rest@.len(),
    {
        match find_pat(&rest, &pat) {
            None => {
                proof {
                    lemma_no_match_is_find_none(rest@, seq!['\\', 'n']);
                }
                append_chars(&mut out, &rest);
                return out;
            },
            Some(i) => {
                proof {
                    lemma_first_match_is_find(rest@, seq!['\\', 'n'], i as int);
                }
                let rn = rest.len();
                let before = subvec(&rest, 0, i);
                append_chars(&mut out, &before);
                out.push('\n');
                let next = subvec(&rest, i + 2, rn);
                proof {
                    assert(out@ + unescaped_newlines(next@) =~= unescaped_newlines(s@));
                }
                rest = next;
            },
        }
    }
}

/// The explicitly requested names as the transformer receives them: the
/// plain names deduplicated, then the wildcard names, then the
/// macro-visibility names.
pub open spec fn merged_extern_names(
    externs: Seq<Seq<char>>,
    wilds: Seq<Seq<char>>,
    macros: Seq<Seq<char>>,
) -> Seq<Seq<char>> {
    dedup_adjacent_from(externs, 0) + wilds + macros
}

/// Turn request values into a complete program: merge the requested names,
/// undo escaping in the prepended statement, choose the prelude, pick the
/// epoch's import rules, and run the transformer.  Returns the program text
/// and the deduced link names.
#[verifier::rlimit(30)]
pub fn snippet_to_program(
    code: &str,
    prelude: String,
    extern_crates: Vec<String>,
    wild_crates: Vec<String>,
    macro_crates: Vec<String>,
    prepend: &str,
    no_prelude: bool,
    edition: &str,
    aliases: Vec<(String, String)>,
) -> (r: (String, Vec<String>))
    ensures
        ({
            let merged = merged_extern_names(
                views(extern_crates@),
                views(wild_crates@),
                views(macro_crates@),
            );
            let used_prelude = if no_prelude {
                Seq::<char>::empty()
            } else {
                prelude@
            };
            let gt2015 = seq_lt("2015"@, edition@);
            &&& r.0@ == massaged_text(
                code@,
                used_prelude,
                merged,
                views(wild_crates@),
                views(macro_crates@),
                alias_views(aliases@),
                prepend_munged(prepend@),
                gt2015,
            )
            &&& strictly_sorted(views(r.1@))
            &&& forall|y: Seq<char>|
                #![trigger views(r.1@).contains(y)]
                views(r.1@).contains(y) <==> (scan_result(
                    code@,
                    used_prelude,
                    merged,
                    views(wild_crates@),
                    views(macro_crates@),
                    alias_views(aliases@),
                    prepend_munged(prepend@),
                    gt2015,
                ).deduced.contains(y) || merged.contains(y))
        }),
{
    let ghost ev = views(extern_crates@);
    let ghost wv = views(wild_crates@);
    let ghost mv = views(macro_crates@);
    let ghost merged = merged_extern_names(ev, wv, mv);

    // deduplicate adjacent requested names
    let mut names: Vec<String> = Vec::new();
    let mut i: usize = 0;
    proof {
        assert(views(names@) + dedup_adjacent_from(ev, 0) =~= dedup_adjacent_from(ev, 0));
    }
    while i < extern_crates.len()
        invariant
            ev == views(extern_crates@),
            ev.len() == extern_crates@.len(),
            0 <= i <= extern_crates@.len(),
            views(names@) + dedup_adjacent_from(ev, i as int) == dedup_adjacent_from(ev, 0),
        decreases extern_crates@.len() - i,
    {
        let keep = if i == 0 {
            true
        } else {
            let a = str_to_chars(extern_crates[i].as_str());
            let b = str_to_chars(extern_crates[i - 1].as_str());
            proof {
                assert(ev[i as int] == extern_crates@[i as int]@);
                assert(ev[i - 1] == extern_crates@[i - 1]@);
            }
            !chars_eq(&a, &b)
        };
        let ghost pre = names@;
        if keep {
            proof {
                lemma_views_push(pre, extern_crates@[i as int]);
            }
            names.push(extern_crates[i].clone());
            proof {
                assert(views(names@) =~= views(pre) + seq![ev[i as int]]);
            }
        }
        proof {
            assert(views(names@) + dedup_adjacent_from(ev, i + 1) =~= views(pre)
                + dedup_adjacent_from(ev, i as int));
        }
        i += 1;
    }
    proof {
        assert(dedup_adjacent_from(ev, ev.len() as int) =~= Seq::<Seq<char>>::empty());
        assert(views(names@) =~= views(names@) + Seq::<Seq<char>>::empty());
        assert(views(names@) == dedup_adjacent_from(ev, 0));
    }
    // then the wildcard names, then the macro-visibility names
    let mut wi: usize = 0;
    while wi < wild_crates.len()
        invariant
            wv == views(wild_crates@),
            wv.len() == wild_crates@.len(),
            0 <= wi <= wild_crates@.len(),
            views(names@) == dedup_adjacent_from(ev, 0) + wv.take(wi as int),
        decreases wild_crates@.len() - wi,
    {
        let ghost pre = names@;
        proof {
            lemma_views_push(pre, wild_crates@[wi as int]);
            assert(wv[wi as int] == wild_crates@[wi as int]@);
        }
        names.push(wild_crates[wi].clone());
        proof {
            assert(views(names@) =~= dedup_adjacent_from(ev, 0) + wv.take(wi + 1));
        }
        wi += 1;
    }
    let mut mi: usize = 0;
    proof {
        assert(wv.take(wv.len() as int) =~= wv);
    }
    while mi < macro_crates.len()
        invariant
            mv == views(macro_crates@),
            mv.len() == macro_crates@.len(),
            0 <= mi <= macro_crates@.len(),
            views(names@) == dedup_adjacent_from(ev, 0) + wv + mv.take(mi as int),
        decreases macro_crates@.len() - mi,
    {
        let ghost pre = names@;
        proof {
            lemma_views_push(pre, macro_crates@[mi as int]);
            assert(mv[mi as int] == macro_crates@[mi as int]@);
        }
        names.push(macro_crates[mi].clone());
        proof {
            assert(views(names@) =~= dedup_adjacent_from(ev, 0) + wv + mv.take(mi + 1));
        }
        mi += 1;
    }
    proof {
        assert(mv.take(mv.len() as int) =~= mv);
        assert(views(names@) == merged);
    }

    // the prepended statement, unescaped and closed
    let prepend_used = if prepend.unicode_len() > 0 {
        let mut pv = unescape_newlines(prepend);
        pv.push(';');
        pv.push('\n');
        proof {
            assert(pv@ =~= prepend_munged(prepend@));
        }
        chars_to_string(&pv)
    } else {
        proof {
            assert(prepend@ =~= Seq::<char>::empty());
        }
        String::new()
    };

    let prelude_used = if no_prelude {
        String::new()
    } else {
        prelude
    };

    // the epoch's import rules
    let e2015 = str_to_chars("2015");
    let ecur = str_to_chars(edition);
    let cmp = crate::text::chars_cmp(&e2015, &ecur);
    let gt2015 = cmp == -1;
    proof {
        crate::text::lemma_seq_lt_trichotomy("2015"@, edition@);
        assert(gt2015 == seq_lt("2015"@, edition@));
    }

    let ghost names_v = views(names@);
    let ghost prelude_v = prelude_used@;
    let ghost prepend_v = prepend_used@;
    proof {
        assert(names_v == merged_extern_names(ev, wv, mv));
        assert(prelude_v == (if no_prelude { Seq::<char>::empty() } else { prelude@ }));
        assert(prepend_v == prepend_munged(prepend@));
    }
    let result = massage_snippet(
        code,
        prelude_used,
        names,
        wild_crates,
        macro_crates,
        prepend_used.as_str(),
        gt2015,
        aliases,
    );
    proof {
        assert(result.0@ == massaged_text(
            code@,
            prelude_v,
            names_v,
            wv,
            mv,
            alias_views(aliases@),
            prepend_v,
            gt2015,
        ));
        let merged2 = merged_extern_names(views(extern_crates@), views(wild_crates@), views(macro_crates@));
        let used_prelude2 = if no_prelude { Seq::<char>::empty() } else { prelude@ };
        let g2 = seq_lt("2015"@, edition@);
        assert(merged2 == names_v);
        assert(used_prelude2 == prelude_v);
        assert(g2 == gt2015);
        assert(result.0@ == massaged_text(
            code@,
            used_prelude2,
            merged2,
            views(wild_crates@),
            views(macro_crates@),
            alias_views(aliases@),
            prepend_munged(prepend@),
            g2,
        ));
        assert(strictly_sorted(views(result.1@)));
        assert(scan_result(
            code@,
            prelude_v,
            names_v,
            wv,
            mv,
            alias_views(aliases@),
            prepend_v,
            gt2015,
        ) == scan_result(
            code@,
            used_prelude2,
            merged2,
            views(wild_crates@),
            views(macro_crates@),
            alias_views(aliases@),
            prepend_munged(prepend@),
            g2,
        ));
        assert forall|y: Seq<char>| wv.contains(y) || mv.contains(y) implies merged2.contains(
            y,
        ) by {
            let d = dedup_adjacent_from(views(extern_crates@), 0);
            if wv.contains(y) {
                let k = choose|k: int| 0 <= k < wv.len() && wv[k] == y;
                assert(merged2[d.len() + k] == y);
            } else {
                let k = choose|k: int| 0 <= k < mv.len() && mv[k] == y;
                assert(merged2[d.len() + wv.len() + k] == y);
            }
        }
        assert(forall|y: Seq<char>|
            #![trigger views(result.1@).contains(y)]
            views(result.1@).contains(y) <==> (scan_result(
                code@,
                used_prelude2,
                merged2,
                views(wild_crates@),
                views(macro_crates@),
                alias_views(aliases@),
                prepend_munged(prepend@),
                g2,
            ).deduced.contains(y) || merged2.contains(y)));
    }
    result
}

// ---------------------------------------------------------------------------
// Preprocessing by request kind
// ---------------------------------------------------------------------------

/// What the raw text becomes under each request kind: an expression is
/// wrapped in a debug print (unless already a complete program), an
/// iterator request prints every yielded value, a line-wise request
/// evaluates it per line of standard input, and a plain request only loses
/// trailing whitespace.
pub open spec fn preprocessed(
    expression: bool,
    iterator: bool,
    lines_mode: bool,
    well_formed: bool,
    raw: Seq<char>,
) -> Seq<char> {
    if expression {
        if well_formed {
            raw
        } else {
            "println!(\"{:?}\","@ + trim_end_spec(raw) + ");"@
        }
    } else if iterator {
        "for val in "@ + raw + " {\n println!(\"{:?}\",val);\n}"@
    } else if lines_mode {
        "\n            let stdin = io::stdin();\n            for line in stdin.lock().lines() {\n                let line = line?;\n        "@
            + (if trim_end_spec(raw).len() > 0 && trim_end_spec(raw).last() == '}' {
            "  "@ + raw + ";"@
        } else {
            "let val = "@ + raw + ";\nprintln!(\"{:?}\",val);"@
        }) + "\n}"@
    } else {
        trim_end_spec(raw)
    }
}

/// Prepare the raw text for its request kind; executable counterpart of
/// [`preprocessed`].
pub fn preprocess_code_type(
    expression: bool,
    iterator: bool,
    lines_mode: bool,
    well_formed: bool,
    raw_code: &str,
) -> (r: String)
    ensures
        r@ == preprocessed(expression, iterator, lines_mode, well_formed, raw_code@),
{
    let raw = str_to_chars(raw_code);
    if expression {
        if well_formed {
            return chars_to_string(&raw);
        }
        let e = crate::text::trim_end_idx(&raw);
        let trimmed = subvec(&raw, 0, e);
        let mut out = str_to_chars("println!(\"{:?}\",");
        append_chars(&mut out, &trimmed);
        let close = str_to_chars(");");
        append_chars(&mut out, &close);
        proof {
            assert(out@ =~= preprocessed(expression, iterator, lines_mode, well_formed, raw_code@));
        }
        return chars_to_string(&out);
    }
    if iterator {
        let mut out = str_to_chars("for val in ");
        append_chars(&mut out, &raw);
        let close = str_to_chars(" {\n println!(\"{:?}\",val);\n}");
        append_chars(&mut out, &close);
        proof {
            assert(out@ =~= preprocessed(expression, iterator, lines_mode, well_formed, raw_code@));
        }
        return chars_to_string(&out);
    }
    if lines_mode {
        let mut out = str_to_chars(
            "\n            let stdin = io::stdin();\n            for line in stdin.lock().lines() {\n                let line = line?;\n        ",
        );
        let e = crate::text::trim_end_idx(&raw);
        let closes_block = e > 0 && raw[e - 1] == '}';
        proof {
            assert(trim_end_spec(raw@).len() == e);
            if e > 0 {
                assert(trim_end_spec(raw@).last() == raw@[e - 1]);
            }
        }
        if closes_block {
            let open = str_to_chars("  ");
            append_chars(&mut out, &open);
            append_chars(&mut out, &raw);
            let semi = str_to_chars(";");
            append_chars(&mut out, &semi);
        } else {
            let open = str_to_chars("let val = ");
            append_chars(&mut out, &open);
            append_chars(&mut out, &raw);
            let close = str_to_chars(";\nprintln!(\"{:?}\",val);");
            append_chars(&mut out, &close);
        }
        let brace = str_to_chars("\n}");
        append_chars(&mut out, &brace);
        proof {
            assert(out@ =~= preprocessed(expression, iterator, lines_mode, well_formed, raw_code@));
        }
        return chars_to_string(&out);
    }
    let e = crate::text::trim_end_idx(&raw);
    let trimmed = subvec(&raw, 0, e);
    chars_to_string(&trimmed)
}

} // verus!
