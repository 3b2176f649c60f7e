//! Cache layout and the small pure computations around cache management:
//! directory paths, shell-quote normalization, the default prelude, alias
//! registrations, build-log separation and argument comments.
//!
//! Creating the directories, reading and writing the files and running the
//! build manager are I/O and happen outside the library.

use vstd::prelude::*;
use crate::compile::State;
use crate::lines::{split_lines, text_lines, views, lemma_views_push};
use crate::text::{
    append_chars, chars_to_string, str_to_chars, subvec, trim_end_idx, trim_spec, trim_start_idx,
    find_pat, lemma_first_match_is_find, lemma_no_match_is_find_none, starts_with, starts_with_exec,
};
use vstd::string::StrSliceExecFns;

verus! {

// ---------------------------------------------------------------------------
// Quoting
// ---------------------------------------------------------------------------

/// On the platform whose shell quoting swallows single quotes, they become
/// double quotes; elsewhere the text is untouched.
pub open spec fn quoted(s: Seq<char>, windows: bool) -> Seq<char> {
    if windows {
        s.map_values(|c: char| if c == '\'' { '"' } else { c })
    } else {
        s
    }
}

/// Normalize quotes in an expression for the platform's shell.
pub fn quote(s: String, windows: bool) -> (r: String)
    ensures
        r@ == quoted(s@, windows),
{
    if !windows {
        return s;
    }
    let v = str_to_chars(s.as_str());
    let mut out: Vec<char> = Vec::new();
    let mut i: usize = 0;
    proof {
        assert(out@ =~= quoted(v@.take(0), true));
    }
    while i < v.len()
        invariant
            v@ == s@,
            0 <= i <= v@.len(),
            out@ == quoted(v@.take(i as int), true),
        decreases v@.len() - i,
    {
        let c = v[i];
        if c == '\'' {
            out.push('"');
        } else {
            out.push(c);
        }
        proof {
            assert(out@ =~= quoted(v@.take(i + 1), true));
        }
        i += 1;
    }
    proof {
        assert(v@.take(v@.len() as int) =~= v@);
    }
    chars_to_string(&out)
}

// ---------------------------------------------------------------------------
// Directory layout
// ---------------------------------------------------------------------------

/// The tool's root directory under the package manager's home; a separate
/// one when running on an unstable toolchain.
pub fn runner_directory(cargo_home: &str, unstable: bool) -> (r: String)
    ensures
        r@ == cargo_home@ + "/.runner"@ + (if unstable {
            "/unstable"@
        } else {
            Seq::<char>::empty()
        }),
{
    let mut v = str_to_chars(cargo_home);
    let base = str_to_chars("/.runner");
    append_chars(&mut v, &base);
    if unstable {
        let u = str_to_chars("/unstable");
        append_chars(&mut v, &u);
    } else {
        proof {
            assert(v@ =~= v@ + Seq::<char>::empty());
        }
    }
    chars_to_string(&v)
}

/// The durable cache's project directory.
pub fn static_cache_dir(runner_dir: &str) -> (r: String)
    ensures
        r@ == runner_dir@ + "/static-cache"@,
{
    let mut v = str_to_chars(runner_dir);
    let s = str_to_chars("/static-cache");
    append_chars(&mut v, &s);
    chars_to_string(&v)
}

/// The directory artifacts are linked from: the durable cache's profile
/// directory, or the flat ephemeral cache.
pub fn get_cache(runner_dir: &str, state: &State) -> (r: String)
    ensures
        r@ == runner_dir@ + (if state@.build_static {
            "/static-cache/target/"@ + (if state@.optimize {
                "release"@
            } else {
                "debug"@
            }) + "/deps"@
        } else {
            "/dy-cache"@
        }),
{
    let mut v = str_to_chars(runner_dir);
    if state.build_static {
        let a = str_to_chars("/static-cache/target/");
        append_chars(&mut v, &a);
        if state.optimize {
            let b = str_to_chars("release");
            append_chars(&mut v, &b);
        } else {
            let b = str_to_chars("debug");
            append_chars(&mut v, &b);
        }
        let c = str_to_chars("/deps");
        append_chars(&mut v, &c);
    } else {
        let a = str_to_chars("/dy-cache");
        append_chars(&mut v, &a);
    }
    chars_to_string(&v)
}

// ---------------------------------------------------------------------------
// The default prelude
// ---------------------------------------------------------------------------

/// The prelude first written to the tool's directory, for the user to edit.
pub open spec fn default_prelude_text() -> Seq<char> {
    "\n#![allow(unused_imports)]\n#![allow(unused_variables)]\n#![allow(dead_code)]\n#![allow(unused_macros)]\nuse std::fs;\nuse std::fs::File;\nuse std::io;\nuse std::io::prelude::*;\nuse std::env;\nuse std::path::{PathBuf,Path};\nuse std::collections::HashMap;\n"@
}

/// The default prelude for snippets.
pub fn default_prelude() -> (r: &'static str)
    ensures
        r@ == default_prelude_text(),
{
    "\n#![allow(unused_imports)]\n#![allow(unused_variables)]\n#![allow(dead_code)]\n#![allow(unused_macros)]\nuse std::fs;\nuse std::fs::File;\nuse std::io;\nuse std::io::prelude::*;\nuse std::env;\nuse std::path::{PathBuf,Path};\nuse std::collections::HashMap;\n"
}

// ---------------------------------------------------------------------------
// Aliases
// ---------------------------------------------------------------------------

/// The alias pairs of one registration line: the trimmed text left and right
/// of the equals sign; a line without one registers nothing.
pub open spec fn alias_pair_of(l: Seq<char>) -> Option<(Seq<char>, Seq<char>)> {
    match crate::text::find_index(l, seq!['=']) {
        None => None,
        Some(i) => Some(
            (trim_spec(l.subrange(0, i)), trim_spec(l.subrange(i + 1, l.len() as int))),
        ),
    }
}

pub open spec fn alias_pairs_of(ls: Seq<Seq<char>>, i: int) -> Seq<(Seq<char>, Seq<char>)>
    decreases ls.len() - i,
{
    if 0 <= i < ls.len() {
        (match alias_pair_of(ls[i]) {
            None => Seq::empty(),
            Some(p) => seq![p],
        }) + alias_pairs_of(ls, i + 1)
    } else {
        Seq::empty()
    }
}

/// Trim both ends of a character vector.
fn trim_chars(v: &Vec<char>) -> (r: Vec<char>)
    ensures
        r@ == trim_spec(v@),
{
    let a = trim_start_idx(v);
    let n = v.len();
    let t1 = subvec(v, a, n);
    let b = trim_end_idx(&t1);
    subvec(&t1, 0, b)
}

/// The alias registrations in a whole alias file.
pub fn parse_aliases(contents: &str) -> (r: Vec<(String, String)>)
    ensures
        crate::snippet::alias_views(r@) == alias_pairs_of(text_lines(contents@), 0),
{
    let cv = str_to_chars(contents);
    let lines = split_lines(&cv);
    let ghost ls = text_lines(contents@);
    let mut r: Vec<(String, String)> = Vec::new();
    let mut i: usize = 0;
    let ghost total = alias_pairs_of(ls, 0);
    proof {
        assert(crate::snippet::alias_views(r@) =~= Seq::<(Seq<char>, Seq<char>)>::empty());
        assert(crate::snippet::alias_views(r@) + alias_pairs_of(ls, 0) =~= total);
    }
    while i < lines.len()
        invariant
            ls == text_lines(contents@),
            views(lines@) == ls,
            lines@.len() == ls.len(),
            total == alias_pairs_of(ls, 0),
            0 <= i <= lines@.len(),
            crate::snippet::alias_views(r@) + alias_pairs_of(ls, i as int) == total,
        decreases lines@.len() - i,
    {
        let line = &lines[i];
        proof {
            assert(line@ == ls[i as int]);
        }
        let mut eqv: Vec<char> = Vec::new();
        eqv.push('=');
        proof {
            assert(eqv@ =~= seq!['=']);
        }
        match find_pat(line, &eqv) {
            None => {
                proof {
                    lemma_no_match_is_find_none(line@, seq!['=']);
                    assert(alias_pairs_of(ls, i as int) =~= alias_pairs_of(ls, i + 1));
                }
            },
            Some(p) => {
                proof {
                    lemma_first_match_is_find(line@, seq!['='], p as int);
                }
                let n = line.len();
                let left = trim_chars(&subvec(line, 0, p));
                let right = trim_chars(&subvec(line, p + 1, n));
                let pair = (chars_to_string(&left), chars_to_string(&right));
                let ghost pre = r@;
                r.push(pair);
                proof {
                    assert(crate::snippet::alias_views(r@) =~= crate::snippet::alias_views(pre)
                        + seq![(left@, right@)]);
                    assert(crate::snippet::alias_views(r@) + alias_pairs_of(ls, i + 1)
                        =~= crate::snippet::alias_views(pre) + alias_pairs_of(ls, i as int));
                }
            },
        }
        i += 1;
    }
    proof {
        assert(alias_pairs_of(ls, ls.len() as int) =~= Seq::<(Seq<char>, Seq<char>)>::empty());
        assert(crate::snippet::alias_views(r@) =~= crate::snippet::alias_views(r@) + Seq::<
            (Seq<char>, Seq<char>),
        >::empty());
    }
    r
}

// ---------------------------------------------------------------------------
// The build log
// ---------------------------------------------------------------------------

/// Whether a build-output line is a machine-readable record.
pub open spec fn is_record_line(l: Seq<char>) -> bool {
    l.len() > 0 && l[0] == '{'
}

/// Whether one build-output line is a machine-readable record; for callers
/// that drain the build's output line by line while it runs.
pub fn is_log_record(line: &str) -> (r: bool)
    ensures
        r == is_record_line(line@),
{
    let lv = str_to_chars(line);
    lv.len() > 0 && lv[0] == '{'
}

/// The machine-readable records of a build output, newline-joined.
pub open spec fn record_lines_of(ls: Seq<Seq<char>>, i: int) -> Seq<char>
    decreases ls.len() - i,
{
    if 0 <= i < ls.len() {
        (if is_record_line(ls[i]) {
            ls[i] + seq!['\n']
        } else {
            Seq::empty()
        }) + record_lines_of(ls, i + 1)
    } else {
        Seq::empty()
    }
}

/// The human-readable remainder of a build output, line by line.
pub open spec fn passthrough_lines_of(ls: Seq<Seq<char>>, i: int) -> Seq<Seq<char>>
    decreases ls.len() - i,
{
    if 0 <= i < ls.len() {
        (if is_record_line(ls[i]) {
            Seq::empty()
        } else {
            seq![ls[i]]
        }) + passthrough_lines_of(ls, i + 1)
    } else {
        Seq::empty()
    }
}

/// Separate a build output into the machine-readable record lines — handed
/// to the metadata store — and the pass-through text shown to the user.
pub fn split_build_log(output: &str) -> (r: (String, Vec<String>))
    ensures
        r.0@ == record_lines_of(text_lines(output@), 0),
        views(r.1@) == passthrough_lines_of(text_lines(output@), 0),
{
    let ov = str_to_chars(output);
    let lines = split_lines(&ov);
    let ghost ls = text_lines(output@);
    let mut records: Vec<char> = Vec::new();
    let mut passthrough: Vec<String> = Vec::new();
    let mut i: usize = 0;
    proof {
        assert(records@ + record_lines_of(ls, 0) =~= record_lines_of(ls, 0));
        assert(views(passthrough@) =~= Seq::<Seq<char>>::empty());
        assert(views(passthrough@) + passthrough_lines_of(ls, 0) =~= passthrough_lines_of(ls, 0));
    }
    while i < lines.len()
        invariant
            ls == text_lines(output@),
            views(lines@) == ls,
            lines@.len() == ls.len(),
            0 <= i <= lines@.len(),
            records@ + record_lines_of(ls, i as int) == record_lines_of(ls, 0),
            views(passthrough@) + passthrough_lines_of(ls, i as int) == passthrough_lines_of(
                ls,
                0,
            ),
        decreases lines@.len() - i,
    {
        let line = &lines[i];
        proof {
            assert(line@ == ls[i as int]);
        }
        if line.len() > 0 && line[0] == '{' {
            let ghost pre = records@;
            append_chars(&mut records, line);
            records.push('\n');
            proof {
                assert(records@ =~= pre + (ls[i as int] + seq!['\n']));
                assert(records@ + record_lines_of(ls, i + 1) =~= pre + record_lines_of(
                    ls,
                    i as int,
                ));
                assert(passthrough_lines_of(ls, i as int) =~= passthrough_lines_of(ls, i + 1));
            }
        } else {
            let ghost prep = passthrough@;
            let owned = chars_to_string(line);
            proof {
                lemma_views_push(prep, owned);
            }
            passthrough.push(owned);
            proof {
                assert(views(passthrough@) + passthrough_lines_of(ls, i + 1) =~= views(prep)
                    + passthrough_lines_of(ls, i as int));
                assert(record_lines_of(ls, i as int) =~= record_lines_of(ls, i + 1));
            }
        }
        i += 1;
    }
    proof {
        assert(record_lines_of(ls, ls.len() as int) =~= Seq::<char>::empty());
        assert(records@ =~= records@ + Seq::<char>::empty());
        assert(passthrough_lines_of(ls, ls.len() as int) =~= Seq::<Seq<char>>::empty());
        assert(views(passthrough@) =~= views(passthrough@) + Seq::<Seq<char>>::empty());
    }
    (chars_to_string(&records), passthrough)
}

// ---------------------------------------------------------------------------
// Argument comments
// ---------------------------------------------------------------------------

/// The arguments a source file carries in its argument comment: the first
/// line — or the one after a shebang — when it starts with the marker, with
/// the marker removed.
pub open spec fn arg_comment_of(s: Seq<char>) -> Option<Seq<char>> {
    let ls = text_lines(s);
    if ls.len() == 0 {
        None
    } else {
        let first = ls[0];
        if starts_with(first, "#!"@) {
            if ls.len() < 2 {
                None
            } else if starts_with(ls[1], "//: "@) {
                Some(ls[1].skip("//: "@.len() as int))
            } else {
                None
            }
        } else if starts_with(first, "//: "@) {
            Some(first.skip("//: "@.len() as int))
        } else {
            None
        }
    }
}

/// Read the argument comment out of a source text, if it has one.
pub fn extract_arg_comment(contents: &str) -> (r: Option<String>)
    ensures
        match (arg_comment_of(contents@), r) {
            (Some(a), Some(s)) => s@ == a,
            (None, None) => true,
            _ => false,
        },
{
    let cv = str_to_chars(contents);
    let lines = split_lines(&cv);
    let ghost ls = text_lines(contents@);
    if lines.len() == 0 {
        return None;
    }
    let shebang = str_to_chars("#!");
    let marker = str_to_chars("//: ");
    proof {
        assert(lines@[0]@ == ls[0]);
    }
    let line = if starts_with_exec(&lines[0], &shebang) {
        if lines.len() < 2 {
            return None;
        }
        proof {
            assert(lines@[1]@ == ls[1]);
        }
        &lines[1]
    } else {
        &lines[0]
    };
    if starts_with_exec(line, &marker) {
        let n = line.len();
        let rest = subvec(line, marker.len(), n);
        proof {
            assert(rest@ =~= line@.skip("//: "@.len() as int));
        }
        Some(chars_to_string(&rest))
    } else {
        None
    }
}

// ---------------------------------------------------------------------------
// Requested crates
// ---------------------------------------------------------------------------

/// What one requested crate argument means for the durable cache's
/// manifest: `name=version` pins a version; a path to a local project —
/// looked up by the caller, since only it can see the filesystem — becomes
/// a path dependency; anything else asks for the newest version.
pub fn crate_spec_entry(c: &str, local: Option<(String, String)>) -> (r: (String, String, bool))
    ensures
        match crate::text::find_index(c@, seq!['=']) {
            Some(i) => r.0@ == c@.subrange(0, i) && r.1@ == c@.subrange(i + 1, c@.len() as int)
                && r.2,
            None => match local {
                Some(np) => r.0@ == np.0@ && r.1@ == np.1@ && !r.2,
                None => r.0@ == c@ && r.1@ == "*"@ && r.2,
            },
        },
{
    let cv = str_to_chars(c);
    let mut eqv: Vec<char> = Vec::new();
    eqv.push('=');
    proof {
        assert(eqv@ =~= seq!['=']);
    }
    match find_pat(&cv, &eqv) {
        Some(i) => {
            proof {
                lemma_first_match_is_find(c@, seq!['='], i as int);
            }
            let n = cv.len();
            let name = subvec(&cv, 0, i);
            let vs = subvec(&cv, i + 1, n);
            (chars_to_string(&name), chars_to_string(&vs), true)
        },
        None => {
            proof {
                lemma_no_match_is_find_none(c@, seq!['=']);
            }
            match local {
                Some(np) => (np.0, np.1, false),
                None => (c.to_owned(), "*".to_owned(), true),
            }
        },
    }
}

} // verus!
