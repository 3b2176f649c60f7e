//! The compile-command synthesizer: from a resolved dependency set to the
//! exact argument list of the compiler invocation, plus the simplification
//! of its diagnostics.  Spawning the compiler happens outside the library;
//! it receives the argument list built here.

use vstd::prelude::*;
use crate::crate_utils::normalized_name;
use crate::lines::views;
use crate::meta::{matches_name, best_upto, Meta};
use crate::text::{
    append_chars, chars_to_string, find_pat, lemma_first_match_is_find,
    lemma_no_match_is_find_none, str_to_chars, subvec,
};
use vstd::string::StrSliceExecFns;

verus! {

// ---------------------------------------------------------------------------
// Build state
// ---------------------------------------------------------------------------

/// How one invocation builds: which cache, which profile, which target kind,
/// which language epoch.
pub struct State {
    /// Build against the durable, versioned cache (else the ephemeral one).
    pub build_static: bool,
    /// The optimized profile.
    pub optimize: bool,
    /// Building an executable (else a dynamic library).
    pub exe: bool,
    /// The language epoch, as its year.
    pub edition: String,
}

/// The mathematical value of a [`State`].
pub ghost struct StateModel {
    pub build_static: bool,
    pub optimize: bool,
    pub exe: bool,
    pub edition: Seq<char>,
}

impl View for State {
    type V = StateModel;

    open spec fn view(&self) -> StateModel {
        StateModel {
            build_static: self.build_static,
            optimize: self.optimize,
            exe: self.exe,
            edition: self.edition@,
        }
    }
}

impl State {
    /// The state of an executable build.
    pub fn exe(is_static: bool, optimized: bool, edition: &str) -> (r: State)
        ensures
            r@.build_static == is_static,
            r@.optimize == optimized,
            r@.exe,
            r@.edition == edition@,
    {
        State { build_static: is_static, optimize: optimized, exe: true, edition: edition.to_owned() }
    }

    /// The state of a dynamic-library build: always against the ephemeral
    /// cache.
    pub fn dll(optimized: bool, edition: &str) -> (r: State)
        ensures
            !r@.build_static,
            r@.optimize == optimized,
            !r@.exe,
            r@.edition == edition@,
    {
        State { build_static: false, optimize: optimized, exe: false, edition: edition.to_owned() }
    }
}

// ---------------------------------------------------------------------------
// Resolving link names to artifacts
// ---------------------------------------------------------------------------

/// The artifact a name resolves to in the store for the given profile:
/// that of the newest matching row.
pub open spec fn resolved_artifact(es: Seq<crate::meta::EntryModel>, name: Seq<char>, debug: bool) -> Option<
    Seq<char>,
> {
    match best_upto(es, name, es.len() as int) {
        None => None,
        Some(b) => Some(
            if debug {
                es[b].debug_name
            } else {
                es[b].release_name
            },
        ),
    }
}

/// Resolve every requested link name against the durable cache's store.
/// `Ok` carries one `(artifact file name, link name)` pair per request, in
/// request order; `Err` names the first link name the store cannot resolve —
/// the caller reports it and tells the user to add the package first.
pub fn resolve_externs(meta: &Meta, names: &Vec<String>, debug: bool) -> (r: Result<
    Vec<(String, String)>,
    String,
>)
    ensures
        match r {
            Ok(v) => {
                &&& v@.len() == names@.len()
                &&& forall|k: int|
                    #![trigger names@[k]]
                    0 <= k < names@.len() ==> resolved_artifact(meta@, names@[k]@, debug) == Some(
                        v@[k].0@,
                    ) && v@[k].1@ == names@[k]@
            },
            Err(n) => exists|k: int|
                0 <= k < names@.len() && resolved_artifact(meta@, (#[trigger] names@[k])@, debug).is_none()
                    && n@ == names@[k]@ && (forall|j: int|
                    0 <= j < k ==> resolved_artifact(meta@, (#[trigger] names@[j])@, debug).is_some()),
        },
{
    let mut v: Vec<(String, String)> = Vec::new();
    let mut i: usize = 0;
    while i < names.len()
        invariant
            0 <= i <= names@.len(),
            v@.len() == i,
            forall|k: int|
                #![trigger names@[k]]
                0 <= k < i ==> resolved_artifact(meta@, names@[k]@, debug) == Some(v@[k].0@)
                    && v@[k].1@ == names@[k]@,
        decreases names@.len() - i,
    {
        let name = &names[i];
        match meta.get_full_crate_name(name.as_str(), debug) {
            Some(artifact) => {
                v.push((artifact, name.clone()));
            },
            None => {
                proof {
                    crate::meta::lemma_best_upto(meta@, names@[i as int]@, meta@.len() as int);
                    match best_upto(meta@, names@[i as int]@, meta@.len() as int) {
                        Some(b) => {
                            assert(matches_name(meta@[b], names@[i as int]@));
                        },
                        None => {},
                    }
                    assert(resolved_artifact(meta@, names@[i as int]@, debug).is_none());
                    assert(forall|j: int|
                        0 <= j < i ==> resolved_artifact(
                            meta@,
                            (#[trigger] names@[j])@,
                            debug,
                        ).is_some());
                }
                let out = name.clone();
                proof {
                    assert(out@ == names@[i as int]@);
                    assert(exists|k: int|
                        0 <= k < names@.len() && resolved_artifact(
                            meta@,
                            (#[trigger] names@[k])@,
                            debug,
                        ).is_none() && out@ == names@[k]@ && (forall|j: int|
                            0 <= j < k ==> resolved_artifact(
                                meta@,
                                (#[trigger] names@[j])@,
                                debug,
                            ).is_some())) by {
                        let w: int = i as int;
                        assert(0 <= w < names@.len() && resolved_artifact(
                            meta@,
                            (names@[w])@,
                            debug,
                        ).is_none() && out@ == names@[w]@ && (forall|j: int|
                            0 <= j < w ==> resolved_artifact(
                                meta@,
                                (#[trigger] names@[j])@,
                                debug,
                            ).is_some()));
                    }
                }
                return Err(out);
            },
        }
        i += 1;
    }
    Ok(v)
}

/// The artifact file name the ephemeral cache uses for a link name: the
/// platform's dynamic-library naming convention, prefix and suffix handed in
/// by the caller.
pub fn dynamic_extern_pairs(names: &Vec<String>, dll_prefix: &str, dll_suffix: &str) -> (r: Vec<
    (String, String),
>)
    ensures
        r@.len() == names@.len(),
        forall|k: int|
            0 <= k < names@.len() ==> (#[trigger] r@[k]).0@ == dll_prefix@ + names@[k]@
                + dll_suffix@ && r@[k].1@ == names@[k]@,
{
    let mut v: Vec<(String, String)> = Vec::new();
    let mut i: usize = 0;
    while i < names.len()
        invariant
            0 <= i <= names@.len(),
            v@.len() == i,
            forall|k: int|
                0 <= k < i ==> (#[trigger] v@[k]).0@ == dll_prefix@ + names@[k]@ + dll_suffix@
                    && v@[k].1@ == names@[k]@,
        decreases names@.len() - i,
    {
        let mut full = str_to_chars(dll_prefix);
        let nv = str_to_chars(names[i].as_str());
        let sv = str_to_chars(dll_suffix);
        append_chars(&mut full, &nv);
        append_chars(&mut full, &sv);
        proof {
            assert(full@ =~= dll_prefix@ + names@[i as int]@ + dll_suffix@);
        }
        v.push((chars_to_string(&full), names[i].clone()));
        i += 1;
    }
    v
}


/// The link names one invocation uses: the deduced names and the explicitly
/// passed ones merged, sorted and deduplicated — and, when asked to link the
/// special-case C library, its name appended last.
pub fn merge_link_names(base: Vec<String>, extra: Vec<String>, libc: bool) -> (r: Vec<String>)
    ensures
        ({
            let merged = views(r@);
            let all = views(base@) + views(extra@);
            if libc {
                &&& merged.len() >= 1
                &&& merged.last() == "libc"@
                &&& crate::snippet::strictly_sorted(merged.drop_last())
                &&& forall|y: Seq<char>| merged.drop_last().contains(y) <==> all.contains(y)
            } else {
                &&& crate::snippet::strictly_sorted(merged)
                &&& forall|y: Seq<char>| merged.contains(y) <==> all.contains(y)
            }
        }),
{
    let ghost all = views(base@) + views(extra@);
    let mut sorted: Vec<Vec<char>> = Vec::new();
    let ghost bv = views(base@);
    let ghost xv = views(extra@);
    let mut i: usize = 0;
    proof {
        assert(views(sorted@) =~= Seq::<Seq<char>>::empty());
        assert(bv.take(0) =~= Seq::<Seq<char>>::empty());
    }
    while i < base.len()
        invariant
            bv == views(base@),
            bv.len() == base@.len(),
            0 <= i <= base@.len(),
            crate::snippet::strictly_sorted(views(sorted@)),
            forall|y: Seq<char>|
                #![trigger views(sorted@).contains(y)]
                views(sorted@).contains(y) <==> bv.take(i as int).contains(y),
        decreases base@.len() - i,
    {
        let x = str_to_chars(base[i].as_str());
        proof {
            assert(x@ == bv[i as int]);
            crate::snippet::lemma_contains_take_step(bv, i as int);
        }
        crate::snippet::sorted_insert(&mut sorted, x);
        i += 1;
    }
    let mut j: usize = 0;
    proof {
        assert(bv.take(bv.len() as int) =~= bv);
        assert(xv.take(0) =~= Seq::<Seq<char>>::empty());
    }
    while j < extra.len()
        invariant
            bv == views(base@),
            xv == views(extra@),
            xv.len() == extra@.len(),
            0 <= j <= extra@.len(),
            crate::snippet::strictly_sorted(views(sorted@)),
            forall|y: Seq<char>|
                #![trigger views(sorted@).contains(y)]
                views(sorted@).contains(y) <==> (bv.contains(y) || xv.take(j as int).contains(y)),
        decreases extra@.len() - j,
    {
        let x = str_to_chars(extra[j].as_str());
        let ghost pre = views(sorted@);
        proof {
            assert(x@ == xv[j as int]);
            crate::snippet::lemma_contains_take_step(xv, j as int);
        }
        crate::snippet::sorted_insert(&mut sorted, x);
        proof {
            assert forall|y: Seq<char>|
                #![trigger views(sorted@).contains(y)]
                views(sorted@).contains(y) <==> (bv.contains(y) || xv.take(j + 1).contains(
                y,
            )) by {
                assert(views(sorted@).contains(y) <==> (pre.contains(y) || y == xv[j as int]));
                assert(pre.contains(y) <==> (bv.contains(y) || xv.take(j as int).contains(y)));
                assert(xv.take(j + 1).contains(y) <==> (xv.take(j as int).contains(y) || y
                    == xv[j as int]));
            }
        }
        j += 1;
    }
    proof {
        assert(xv.take(xv.len() as int) =~= xv);
        assert forall|y: Seq<char>| views(sorted@).contains(y) <==> all.contains(y) by {
            if bv.contains(y) {
                let k = choose|k: int| 0 <= k < bv.len() && bv[k] == y;
                assert(all[k] == y);
                assert(all.contains(y));
            }
            if xv.contains(y) {
                let k = choose|k: int| 0 <= k < xv.len() && xv[k] == y;
                assert(all[bv.len() + k] == y);
                assert(all.contains(y));
            }
            if all.contains(y) {
                let k = choose|k: int| 0 <= k < all.len() && all[k] == y;
                if k < bv.len() {
                    assert(bv[k] == y);
                    assert(bv.contains(y));
                } else {
                    assert(xv[k - bv.len()] == y);
                    assert(xv.contains(y));
                }
            }
        }
    }
    let mut r = crate::snippet::to_strings(&sorted);
    let ghost merged_base = views(r@);
    if libc {
        let name = "libc".to_owned();
        proof {
            crate::lines::lemma_views_push(r@, name);
        }
        r.push(name);
        proof {
            assert(views(r@).drop_last() =~= merged_base);
            assert(views(r@).last() == "libc"@);
        }
    }
    r
}


/// The features one invocation enables: the explicitly passed ones override
/// any implied by a resolved package record.
pub open spec fn effective_features(implied: Seq<Seq<char>>, explicit: Seq<Seq<char>>) -> Seq<
    Seq<char>,
> {
    if explicit.len() == 0 {
        implied
    } else {
        explicit
    }
}

/// The synthetic configuration flag of one feature name.
pub open spec fn feature_cfg(f: Seq<char>) -> Seq<char> {
    "feature=\""@ + f + "\""@
}

/// Extend the configuration flags with one synthetic `feature="NAME"` flag
/// per enabled feature.
pub fn feature_cfgs(cfgs: Vec<String>, implied: Vec<String>, explicit: Vec<String>) -> (r: Vec<
    String,
>)
    ensures
        ({
            let chosen = effective_features(views(implied@), views(explicit@));
            views(r@) == views(cfgs@) + chosen.map_values(|f: Seq<char>| feature_cfg(f))
        }),
{
    let features = if explicit.len() == 0 {
        implied
    } else {
        explicit
    };
    let ghost fv = views(features@);
    let ghost base = views(cfgs@);
    let mut r = cfgs;
    let mut i: usize = 0;
    proof {
        assert(views(r@) =~= base + fv.take(0).map_values(|f: Seq<char>| feature_cfg(f)));
    }
    while i < features.len()
        invariant
            fv == views(features@),
            fv.len() == features@.len(),
            0 <= i <= features@.len(),
            views(r@) == base + fv.take(i as int).map_values(|f: Seq<char>| feature_cfg(f)),
        decreases features@.len() - i,
    {
        let mut flag = str_to_chars("feature=\"");
        let name = str_to_chars(features[i].as_str());
        let closing = str_to_chars("\"");
        append_chars(&mut flag, &name);
        append_chars(&mut flag, &closing);
        proof {
            assert(fv[i as int] == features@[i as int]@);
            assert(flag@ =~= feature_cfg(fv[i as int]));
        }
        let owned = chars_to_string(&flag);
        proof {
            crate::lines::lemma_views_push(r@, owned);
            assert(views(r@).push(owned@) =~= base + fv.take(i + 1).map_values(
                |f: Seq<char>| feature_cfg(f),
            ));
        }
        r.push(owned);
        i += 1;
    }
    proof {
        assert(fv.take(fv.len() as int) =~= fv);
    }
    r
}

// ---------------------------------------------------------------------------
// The argument list
// ---------------------------------------------------------------------------

/// One `--cfg` per configuration flag.
pub open spec fn cfg_args_from(cfgs: Seq<Seq<char>>, i: int) -> Seq<Seq<char>>
    decreases cfgs.len() - i,
{
    if 0 <= i < cfgs.len() {
        seq!["--cfg"@, cfgs[i]] + cfg_args_from(cfgs, i + 1)
    } else {
        Seq::empty()
    }
}

/// One `--extern NAME=DIR/ARTIFACT` per resolved dependency.
pub open spec fn extern_args_from(
    pairs: Seq<(Seq<char>, Seq<char>)>,
    cache: Seq<char>,
    i: int,
) -> Seq<Seq<char>>
    decreases pairs.len() - i,
{
    if 0 <= i < pairs.len() {
        seq!["--extern"@, pairs[i].1 + "="@ + cache + "/"@ + pairs[i].0] + extern_args_from(
            pairs,
            cache,
            i + 1,
        )
    } else {
        Seq::empty()
    }
}

/// The compiler's whole argument list.
///
/// The construction rules: the epoch flag unless it is the original epoch;
/// optimized durable builds get `-O` and no debug info, unoptimized ones
/// `-g`; ephemeral builds prefer dynamic linking, suppress debug info and may
/// add one extra search path; the cache directory is always searched;
/// an executable names its output file, a library its crate type, output
/// directory and normalized crate name; then the configuration flags, the
/// resolved dependencies, the source path, and color when diagnostics are
/// captured on an interactive terminal.
pub open spec fn rustc_args(
    st: StateModel,
    cache: Seq<char>,
    crate_name: Seq<char>,
    crate_path: Seq<char>,
    output_program: Seq<char>,
    link: Option<Seq<char>>,
    cfgs: Seq<Seq<char>>,
    extern_pairs: Seq<(Seq<char>, Seq<char>)>,
    color: bool,
) -> Seq<Seq<char>> {
    (if st.edition != "2015"@ {
        seq!["--edition"@, st.edition]
    } else {
        Seq::empty()
    }) + (if st.build_static {
        seq![if st.optimize {
            "-O"@
        } else {
            "-g"@
        }] + (if st.optimize {
            seq!["-C"@, "debuginfo=0"@]
        } else {
            Seq::empty()
        })
    } else {
        seq!["-C"@, "prefer-dynamic"@, "-C"@, "debuginfo=0"@] + (match link {
            Some(l) => seq!["-L"@, l],
            None => Seq::empty(),
        })
    }) + seq!["-L"@, cache] + (if st.exe {
        seq!["-o"@, output_program]
    } else {
        seq!["--crate-type"@, "dylib"@, "--out-dir"@, cache, "--crate-name"@, normalized_name(
            crate_name,
        )]
    }) + cfg_args_from(cfgs, 0) + extern_args_from(extern_pairs, cache, 0) + seq![crate_path] + (
    if color {
        seq!["--color"@, "always"@]
    } else {
        Seq::empty()
    })
}

/// Build the compiler's argument list; executable counterpart of
/// [`rustc_args`].
#[verifier::rlimit(50)]
pub fn build_rustc_args(
    state: &State,
    cache: &str,
    crate_name: &str,
    crate_path: &str,
    output_program: &str,
    link: Option<&str>,
    cfgs: &Vec<String>,
    extern_pairs: &Vec<(String, String)>,
    color: bool,
) -> (r: Vec<String>)
    ensures
        views(r@) == rustc_args(
            state@,
            cache@,
            crate_name@,
            crate_path@,
            output_program@,
            match link {
                Some(l) => Some(l@),
                None => None,
            },
            views(cfgs@),
            crate::snippet::alias_views(extern_pairs@),
            color,
        ),
{
    let ghost linkv: Option<Seq<char>> = match link {
        Some(l) => Some(l@),
        None => None,
    };
    let ghost cfv = views(cfgs@);
    let ghost epv = crate::snippet::alias_views(extern_pairs@);
    let ghost full = rustc_args(
        state@,
        cache@,
        crate_name@,
        crate_path@,
        output_program@,
        linkv,
        cfv,
        epv,
        color,
    );
    let mut r: Vec<String> = Vec::new();

    let e2015 = str_to_chars("2015");
    let ev = str_to_chars(state.edition.as_str());
    if !crate::text::chars_eq(&ev, &e2015) {
        r.push("--edition".to_owned());
        r.push(state.edition.clone());
    }
    if state.build_static {
        if state.optimize {
            r.push("-O".to_owned());
            r.push("-C".to_owned());
            r.push("debuginfo=0".to_owned());
        } else {
            r.push("-g".to_owned());
        }
    } else {
        r.push("-C".to_owned());
        r.push("prefer-dynamic".to_owned());
        r.push("-C".to_owned());
        r.push("debuginfo=0".to_owned());
        match link {
            Some(l) => {
                r.push("-L".to_owned());
                r.push(l.to_owned());
            },
            None => {},
        }
    }
    r.push("-L".to_owned());
    r.push(cache.to_owned());
    if state.exe {
        r.push("-o".to_owned());
        r.push(output_program.to_owned());
    } else {
        r.push("--crate-type".to_owned());
        r.push("dylib".to_owned());
        r.push("--out-dir".to_owned());
        r.push(cache.to_owned());
        r.push("--crate-name".to_owned());
        r.push(crate::crate_utils::proper_crate_name(crate_name));
    }
    let ghost head = views(r@);
    proof {
        assert(full =~= head + cfg_args_from(cfv, 0) + extern_args_from(epv, cache@, 0) + seq![
            crate_path@,
        ] + (if color {
            seq!["--color"@, "always"@]
        } else {
            Seq::<Seq<char>>::empty()
        })) by {
            assert(head =~= (if state@.edition != "2015"@ {
                seq!["--edition"@, state@.edition]
            } else {
                Seq::<Seq<char>>::empty()
            }) + (if state@.build_static {
                seq![if state@.optimize {
                    "-O"@
                } else {
                    "-g"@
                }] + (if state@.optimize {
                    seq!["-C"@, "debuginfo=0"@]
                } else {
                    Seq::<Seq<char>>::empty()
                })
            } else {
                seq!["-C"@, "prefer-dynamic"@, "-C"@, "debuginfo=0"@] + (match linkv {
                    Some(l) => seq!["-L"@, l],
                    None => Seq::<Seq<char>>::empty(),
                })
            }) + seq!["-L"@, cache@] + (if state@.exe {
                seq!["-o"@, output_program@]
            } else {
                seq!["--crate-type"@, "dylib"@, "--out-dir"@, cache@, "--crate-name"@, normalized_name(
                    crate_name@,
                )]
            }));
        }
    }
    // the configuration flags
    let mut ci: usize = 0;
    while ci < cfgs.len()
        invariant
            cfv == views(cfgs@),
            0 <= ci <= cfgs@.len(),
            views(r@) + cfg_args_from(cfv, ci as int) == head + cfg_args_from(cfv, 0),
        decreases cfgs@.len() - ci,
    {
        let ghost pre = views(r@);
        r.push("--cfg".to_owned());
        r.push(cfgs[ci].clone());
        proof {
            crate::lines::lemma_views_push(r@.drop_last(), r@.last());
            assert(views(r@) =~= pre + seq!["--cfg"@, cfv[ci as int]]);
            assert(views(r@) + cfg_args_from(cfv, ci + 1) =~= pre + cfg_args_from(cfv, ci as int));
        }
        ci += 1;
    }
    proof {
        assert(cfg_args_from(cfv, cfgs@.len() as int) =~= Seq::<Seq<char>>::empty());
        assert(views(r@) =~= views(r@) + Seq::<Seq<char>>::empty());
    }
    // the resolved dependencies
    let cachev = str_to_chars(cache);
    let mut xi: usize = 0;
    while xi < extern_pairs.len()
        invariant
            epv == crate::snippet::alias_views(extern_pairs@),
            cachev@ == cache@,
            0 <= xi <= extern_pairs@.len(),
            views(r@) + extern_args_from(epv, cache@, xi as int) == head + cfg_args_from(cfv, 0)
                + extern_args_from(epv, cache@, 0),
        decreases extern_pairs@.len() - xi,
    {
        let ghost pre = views(r@);
        proof {
            assert(epv[xi as int] == (extern_pairs@[xi as int].0@, extern_pairs@[xi as int].1@));
        }
        let mut ext = str_to_chars(extern_pairs[xi].1.as_str());
        let eq = str_to_chars("=");
        let slash = str_to_chars("/");
        let art = str_to_chars(extern_pairs[xi].0.as_str());
        append_chars(&mut ext, &eq);
        append_chars(&mut ext, &cachev);
        append_chars(&mut ext, &slash);
        append_chars(&mut ext, &art);
        proof {
            assert(ext@ =~= epv[xi as int].1 + "="@ + cache@ + "/"@ + epv[xi as int].0);
        }
        r.push("--extern".to_owned());
        r.push(chars_to_string(&ext));
        proof {
            assert(views(r@) =~= pre + seq!["--extern"@, epv[xi as int].1 + "="@ + cache@ + "/"@
                + epv[xi as int].0]);
            assert(views(r@) + extern_args_from(epv, cache@, xi + 1) =~= pre + extern_args_from(
                epv,
                cache@,
                xi as int,
            ));
        }
        xi += 1;
    }
    proof {
        assert(extern_args_from(epv, cache@, extern_pairs@.len() as int) =~= Seq::<
            Seq<char>,
        >::empty());
        assert(views(r@) =~= views(r@) + Seq::<Seq<char>>::empty());
    }
    // the source, then color for captured interactive diagnostics
    let ghost before_path = views(r@);
    r.push(crate_path.to_owned());
    proof {
        assert(views(r@) =~= before_path + seq![crate_path@]);
    }
    if color {
        let ghost pre = views(r@);
        r.push("--color".to_owned());
        r.push("always".to_owned());
        proof {
            assert(views(r@) =~= pre + seq!["--color"@, "always"@]);
        }
    }
    proof {
        assert(views(r@) =~= full);
    }
    r
}

// ---------------------------------------------------------------------------
// Diagnostic simplification
// ---------------------------------------------------------------------------

/// Diagnostics with every fully-qualified standard-library path shortened:
/// each `std::` and the path segment after it are dropped, leaving the final
/// components.
pub open spec fn simplified(s: Seq<char>) -> Seq<char>
    decreases s.len(),
{
    match crate::text::find_index(s, "std::"@) {
        None => s,
        Some(i) => {
            if 0 <= i && i + "std::"@.len() <= s.len() && "std::"@.len() > 0 {
                let rest = s.skip(i + "std::"@.len());
                let rest2 = match crate::text::find_index(rest, "::"@) {
                    None => rest,
                    Some(j) => {
                        if 0 <= j && j + "::"@.len() <= rest.len() {
                            rest.skip(j + "::"@.len())
                        } else {
                            rest
                        }
                    },
                };
                s.take(i) + simplified(rest2)
            } else {
                s
            }
        },
    }
}

/// Shorten fully-qualified standard-library paths in captured diagnostics.
pub fn simplify_qualified_names(text: &str) -> (r: String)
    ensures
        r@ == simplified(text@),
{
    let pat = str_to_chars("std::");
    let sep = str_to_chars("::");
    proof {
        reveal_strlit("std::");
        reveal_strlit("::");
    }
    let mut out: Vec<char> = Vec::new();
    let mut s = str_to_chars(text);
    proof {
        assert(out@ + simplified(s@) =~= simplified(text@));
    }
    loop
        invariant
            pat@ == "std::"@,
            sep@ == "::"@,
            pat@.len() == 5,
            sep@.len() == 2,
            out@ + simplified(s@) == simplified(text@),
        decreases s@.len(),
    {
        match find_pat(&s, &pat) {
            None => {
                proof {
                    lemma_no_match_is_find_none(s@, "std::"@);
                }
                append_chars(&mut out, &s);
                return chars_to_string(&out);
            },
            Some(i) => {
                proof {
                    lemma_first_match_is_find(s@, "std::"@, i as int);
                }
                let sn = s.len();
                let before = subvec(&s, 0, i);
                let rest = subvec(&s, i + 5, sn);
                append_chars(&mut out, &before);
                let next = match find_pat(&rest, &sep) {
                    None => {
                        proof {
                            lemma_no_match_is_find_none(rest@, "::"@);
                        }
                        rest
                    },
                    Some(j) => {
                        proof {
                            lemma_first_match_is_find(rest@, "::"@, j as int);
                        }
                        let rn = rest.len();
                        subvec(&rest, j + 2, rn)
                    },
                };
                proof {
                    assert(out@ + simplified(next@) =~= simplified(text@));
                }
                s = next;
            },
        }
    }
}

// ---------------------------------------------------------------------------
// The program's run-time library search paths
// ---------------------------------------------------------------------------

/// The value of the dynamic-library search variable before exec: the
/// existing value, the platform's separator, then the cache path.
pub fn library_search_path(base: &str, cache: &str, windows: bool) -> (r: String)
    ensures
        r@ == base@ + (if windows {
            ";"@
        } else {
            ":"@
        }) + cache@,
{
    let mut v = str_to_chars(base);
    let sepw = str_to_chars(";");
    let sepu = str_to_chars(":");
    if windows {
        append_chars(&mut v, &sepw);
    } else {
        append_chars(&mut v, &sepu);
    }
    let cv = str_to_chars(cache);
    append_chars(&mut v, &cv);
    chars_to_string(&v)
}

/// The fallback search value: the cache path first, then the toolchain's
/// library directory.
pub fn fallback_search_path(cache: &str, rustup_lib: &str) -> (r: String)
    ensures
        r@ == cache@ + ":"@ + rustup_lib@,
{
    let mut v = str_to_chars(cache);
    let sep = str_to_chars(":");
    let rv = str_to_chars(rustup_lib);
    append_chars(&mut v, &sep);
    append_chars(&mut v, &rv);
    chars_to_string(&v)
}

} // verus!
