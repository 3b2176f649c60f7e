//! The compile-command synthesizer, the cache helpers and the string
//! utilities.

use runner::cache::{
    crate_spec_entry, default_prelude, extract_arg_comment, get_cache, parse_aliases, quote,
    runner_directory, split_build_log, static_cache_dir,
};
use runner::compile::{
    build_rustc_args, dynamic_extern_pairs, fallback_search_path, library_search_path,
    feature_cfgs, merge_link_names, simplify_qualified_names, State,
};
use runner::crate_utils::{plain_name, proper_crate_name};
use runner::manifest::crate_info;
use runner::strutil::{after, next_2, split, tokens, word_after};

#[test]
fn state_constructors() {
    let e = State::exe(true, false, "2021");
    assert!(e.build_static && !e.optimize && e.exe);
    assert_eq!(e.edition, "2021");
    let d = State::dll(true, "2018");
    assert!(!d.build_static && d.optimize && !d.exe);
    assert_eq!(d.edition, "2018");
}

#[test]
fn static_optimized_invocation() {
    let state = State::exe(true, true, "2021");
    let args = build_rustc_args(
        &state,
        "/cache/deps",
        "",
        "/bin/tmp.rs",
        "/bin/tmp",
        None,
        &vec!["feature=\"extra\"".to_string()],
        &vec![("libmypkg-new.rlib".to_string(), "mypkg".to_string())],
        false,
    );
    assert_eq!(
        args,
        vec![
            "--edition".to_string(),
            "2021".to_string(),
            "-O".to_string(),
            "-C".to_string(),
            "debuginfo=0".to_string(),
            "-L".to_string(),
            "/cache/deps".to_string(),
            "-o".to_string(),
            "/bin/tmp".to_string(),
            "--cfg".to_string(),
            "feature=\"extra\"".to_string(),
            "--extern".to_string(),
            "mypkg=/cache/deps/libmypkg-new.rlib".to_string(),
            "/bin/tmp.rs".to_string(),
        ]
    );
}

#[test]
fn dynamic_library_invocation() {
    let state = State::dll(false, "2015");
    let args = build_rustc_args(
        &state,
        "/dy",
        "my-crate",
        "/src/my-crate.rs",
        "",
        Some("/extra/libs"),
        &Vec::new(),
        &Vec::new(),
        true,
    );
    assert_eq!(
        args,
        vec![
            // the original epoch gets no epoch flag
            "-C".to_string(),
            "prefer-dynamic".to_string(),
            "-C".to_string(),
            "debuginfo=0".to_string(),
            "-L".to_string(),
            "/extra/libs".to_string(),
            "-L".to_string(),
            "/dy".to_string(),
            "--crate-type".to_string(),
            "dylib".to_string(),
            "--out-dir".to_string(),
            "/dy".to_string(),
            "--crate-name".to_string(),
            "my_crate".to_string(),
            "/src/my-crate.rs".to_string(),
            "--color".to_string(),
            "always".to_string(),
        ]
    );
}

#[test]
fn unoptimized_static_keeps_debug_info() {
    let state = State::exe(true, false, "2015");
    let args = build_rustc_args(
        &state, "/c", "", "/a.rs", "/a", None, &Vec::new(), &Vec::new(), false,
    );
    assert_eq!(
        args,
        vec![
            "-g".to_string(),
            "-L".to_string(),
            "/c".to_string(),
            "-o".to_string(),
            "/a".to_string(),
            "/a.rs".to_string(),
        ]
    );
}

#[test]
fn ephemeral_resolution_by_naming_convention() {
    let pairs = dynamic_extern_pairs(&vec!["mylib".to_string()], "lib", ".so");
    assert_eq!(pairs, vec![("libmylib.so".to_string(), "mylib".to_string())]);
}

#[test]
fn diagnostics_shortened() {
    assert_eq!(
        simplify_qualified_names("expected std::result::Result found std::vec::Vec"),
        "expected Result found Vec"
    );
    assert_eq!(simplify_qualified_names("no qualified names"), "no qualified names");
    assert_eq!(simplify_qualified_names("std::io"), "io");
}

#[test]
fn search_paths() {
    assert_eq!(library_search_path("/old", "/dy", false), "/old:/dy");
    assert_eq!(library_search_path("C:\\old", "C:\\dy", true), "C:\\old;C:\\dy");
    assert_eq!(fallback_search_path("/dy", "/rustup/lib"), "/dy:/rustup/lib");
}

#[test]
fn cache_directories() {
    let rd = runner_directory("/home/u/.cargo", false);
    assert_eq!(rd, "/home/u/.cargo/.runner");
    assert_eq!(runner_directory("/home/u/.cargo", true), "/home/u/.cargo/.runner/unstable");
    assert_eq!(static_cache_dir(&rd), "/home/u/.cargo/.runner/static-cache");
    assert_eq!(
        get_cache(&rd, &State::exe(true, true, "2021")),
        "/home/u/.cargo/.runner/static-cache/target/release/deps"
    );
    assert_eq!(
        get_cache(&rd, &State::exe(true, false, "2021")),
        "/home/u/.cargo/.runner/static-cache/target/debug/deps"
    );
    assert_eq!(get_cache(&rd, &State::dll(false, "2021")), "/home/u/.cargo/.runner/dy-cache");
}

#[test]
fn shell_quoting() {
    assert_eq!(quote("'hello'".to_string(), true), "\"hello\"");
    assert_eq!(quote("'hello'".to_string(), false), "'hello'");
}

#[test]
fn prelude_text() {
    let p = default_prelude();
    assert!(p.contains("#![allow(unused_imports)]"));
    assert!(p.contains("use std::collections::HashMap;"));
}

#[test]
fn alias_file_lines() {
    let pairs = parse_aliases("es = easy_shortcuts\nno delimiter here\nx=y\n");
    assert_eq!(
        pairs,
        vec![
            ("es".to_string(), "easy_shortcuts".to_string()),
            ("x".to_string(), "y".to_string()),
        ]
    );
}

#[test]
fn build_log_separated() {
    let (records, passthrough) = split_build_log("{\"a\":1}\nCompiling foo\n{\"b\":2}");
    assert_eq!(records, "{\"a\":1}\n{\"b\":2}\n");
    assert_eq!(passthrough, vec!["Compiling foo".to_string()]);
}

#[test]
fn argument_comments() {
    assert_eq!(
        extract_arg_comment("//: -s -O\nfn main() {}\n"),
        Some("-s -O".to_string())
    );
    assert_eq!(
        extract_arg_comment("#!/usr/bin/env run\n//: --static\nlet x = 1;\n"),
        Some("--static".to_string())
    );
    assert_eq!(extract_arg_comment("fn main() {}\n"), None);
    assert_eq!(extract_arg_comment(""), None);
}

#[test]
fn requested_crate_forms() {
    assert_eq!(
        crate_spec_entry("serde=1.0", None),
        ("serde".to_string(), "1.0".to_string(), true)
    );
    assert_eq!(
        crate_spec_entry("serde", None),
        ("serde".to_string(), "*".to_string(), true)
    );
    assert_eq!(
        crate_spec_entry("./here", Some(("local".to_string(), "/abs/here".to_string()))),
        ("local".to_string(), "/abs/here".to_string(), false)
    );
}

#[test]
fn crate_names() {
    assert_eq!(proper_crate_name("easy-shortcuts"), "easy_shortcuts");
    assert_eq!(proper_crate_name("plain"), "plain");
    assert!(plain_name("serde"));
    assert!(!plain_name("./dir"));
    assert!(!plain_name("file.rs"));
}

#[test]
fn manifest_name_and_epoch() {
    let info = crate_info("[package]\nname = \"actual-name\"\nedition = \"2021\"\n")
        .expect("a manifest with a package");
    assert_eq!(info.name, "actual-name");
    assert_eq!(info.edition, "2021");
    // an undeclared epoch is the original one
    let old = crate_info("[package]\nname = \"old\"\n").expect("a manifest with a package");
    assert_eq!(old.edition, "2015");
    assert!(crate_info("not a manifest [").is_none());
}

#[test]
fn string_utilities() {
    assert_eq!(after("hello world", "hello "), Some("world"));
    assert_eq!(after("hello", "xyz"), None);
    assert_eq!(word_after("extern crate foo;", "extern crate "), Some("foo".to_string()));
    assert_eq!(word_after("no declaration", "extern crate "), None);
    assert_eq!(word_after("use std::fs;", "use "), Some("std::fs".to_string()));
    assert_eq!(split("std::fs", ':'), ("std", ":fs"));
    assert_eq!(split("plain", ':'), ("plain", ""));
    let toks = tokens("mypkg 1.0.0 (registry)");
    assert_eq!(
        toks,
        vec!["mypkg".to_string(), "1.0.0".to_string(), "(registry)".to_string()]
    );
    let (a, b) = next_2(&toks);
    assert_eq!(a, "mypkg");
    assert_eq!(b, "1.0.0");
}

#[test]
fn link_names_merged_sorted_deduplicated() {
    let merged = merge_link_names(
        vec!["serde".to_string(), "rand".to_string()],
        vec!["serde".to_string(), "alpha".to_string()],
        false,
    );
    assert_eq!(
        merged,
        vec!["alpha".to_string(), "rand".to_string(), "serde".to_string()]
    );
    let with_libc = merge_link_names(vec!["b".to_string()], vec!["a".to_string()], true);
    assert_eq!(
        with_libc,
        vec!["a".to_string(), "b".to_string(), "libc".to_string()]
    );
}

#[test]
fn explicit_features_override_implied() {
    let cfgs = feature_cfgs(
        vec!["unix".to_string()],
        vec!["implied".to_string()],
        vec!["chosen".to_string()],
    );
    assert_eq!(cfgs, vec!["unix".to_string(), "feature=\"chosen\"".to_string()]);
    let fallback = feature_cfgs(Vec::new(), vec!["implied".to_string()], Vec::new());
    assert_eq!(fallback, vec!["feature=\"implied\"".to_string()]);
}
