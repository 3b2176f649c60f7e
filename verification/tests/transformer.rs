//! The snippet transformer and the well-formedness classifier, end to end.

use runner::classify::{classify_source, count_entry_points, well_formed_verdict, SourceShape};
use runner::snippet::{extern_crate_names, massage_snippet, preprocess_code_type, snippet_to_program};

fn no_names() -> Vec<String> {
    Vec::new()
}

fn no_aliases() -> Vec<(String, String)> {
    Vec::new()
}

#[test]
fn fragment_gains_exactly_one_entry_point() {
    // comments and blank lines before the first statement change nothing:
    // the output holds exactly one entry point and exactly one harness
    let code = "// a header comment\n\nlet x = 1;\nprintln!(\"{}\", x);\n";
    let (program, _) = massage_snippet(
        code,
        String::new(),
        no_names(),
        no_names(),
        no_names(),
        "",
        true,
        no_aliases(),
    );
    assert_eq!(count_entry_points(&program), 1);
    assert_eq!(program.matches("fn run(").count(), 1);

    let code2 = "#!/usr/bin/env run\n// doc\n\n\nlet y = 2;\n";
    let (program2, _) = massage_snippet(
        code2,
        String::new(),
        no_names(),
        no_names(),
        no_names(),
        "",
        true,
        no_aliases(),
    );
    assert_eq!(count_entry_points(&program2), 1);
}

#[test]
fn declaration_only_fragment_still_valid() {
    // a snippet that is only declarations produces a harness that does
    // nothing, still with exactly one entry point
    let code = "use std::fs;\nextern crate serde;\n";
    let (program, deduced) = massage_snippet(
        code,
        String::new(),
        no_names(),
        no_names(),
        no_names(),
        "",
        true,
        no_aliases(),
    );
    assert_eq!(count_entry_points(&program), 1);
    assert!(program.contains("use std::fs;"));
    assert!(program.contains("extern crate serde;"));
    assert_eq!(deduced, vec!["serde".to_string()]);
}

#[test]
fn deduced_links_deduplicated_sorted_superset() {
    let code = "extern crate zlib;\nlet x = 1;\n";
    let externs = vec!["beta".to_string(), "alpha".to_string(), "beta".to_string()];
    let (_, deduced) = massage_snippet(
        code,
        String::new(),
        externs,
        no_names(),
        no_names(),
        "",
        true,
        no_aliases(),
    );
    // sorted, duplicates gone, and a superset of the scanned name and of
    // every requested name
    assert_eq!(
        deduced,
        vec!["alpha".to_string(), "beta".to_string(), "zlib".to_string()]
    );
}

#[test]
fn transformer_output_classifies_as_candidate() {
    // idempotence at the classifier's counting stage: transformed output is
    // never a fragment again
    let code = "println!(\"hi\");";
    let (program, _) = massage_snippet(
        code,
        String::new(),
        no_names(),
        no_names(),
        no_names(),
        "",
        true,
        no_aliases(),
    );
    assert!(matches!(classify_source(&program), SourceShape::Candidate));
    assert!(well_formed_verdict(&classify_source(&program), true));
}

#[test]
fn epoch_decides_import_deduction() {
    let code = "use serde::Deserialize;\n";
    // a modern epoch deduces the external package from a bare import
    let (_, deduced_modern) = massage_snippet(
        code,
        String::new(),
        no_names(),
        no_names(),
        no_names(),
        "",
        true,
        no_aliases(),
    );
    assert_eq!(deduced_modern, vec!["serde".to_string()]);
    // the legacy epoch needs the explicit declaration and deduces nothing
    let (_, deduced_legacy) = massage_snippet(
        code,
        String::new(),
        no_names(),
        no_names(),
        no_names(),
        "",
        false,
        no_aliases(),
    );
    assert!(deduced_legacy.is_empty());
}

#[test]
fn own_language_roots_not_deduced() {
    let code = "use std::collections::HashMap;\nuse crate::helper;\nlet x = 1;\n";
    let (_, deduced) = massage_snippet(
        code,
        String::new(),
        no_names(),
        no_names(),
        no_names(),
        "",
        true,
        no_aliases(),
    );
    assert!(deduced.is_empty());
    // but a bare import of a root with no sub-path is still recorded
    let (_, deduced_bare) = massage_snippet(
        "use std;\n",
        String::new(),
        no_names(),
        no_names(),
        no_names(),
        "",
        true,
        no_aliases(),
    );
    assert_eq!(deduced_bare, vec!["std".to_string()]);
}

#[test]
fn simple_statement_end_to_end() {
    let (program, deduced) = massage_snippet(
        "println!(\"hi\");",
        String::new(),
        no_names(),
        no_names(),
        no_names(),
        "",
        true,
        no_aliases(),
    );
    assert!(deduced.is_empty());
    let expected = "\n\n\nfn run(args: Vec<String>) -> std::result::Result<(),Box<dyn std::error::Error+Sync+Send>> {\n    println!(\"hi\");\n    Ok(())\n}\n\nfn main() {\n    if let Err(e) = run(std::env::args().collect()) {\n        println!(\"error: {:?}\",e);\n    }\n}\n";
    assert_eq!(program, expected);
}

#[test]
fn inner_attributes_float_to_the_top() {
    let code = "#![allow(dead_code)]\nlet x = 1;\n";
    let (program, _) = massage_snippet(
        code,
        String::new(),
        no_names(),
        no_names(),
        no_names(),
        "",
        true,
        no_aliases(),
    );
    assert!(program.starts_with("#![allow(dead_code)]\n"));
}

#[test]
fn generated_linkage_lines() {
    let (program, deduced) = massage_snippet(
        "let x = 1;\n",
        String::new(),
        vec!["plain".to_string(), "es".to_string(), "mac".to_string()],
        no_names(),
        vec!["mac".to_string()],
        "",
        true,
        vec![("es".to_string(), "easy_shortcuts".to_string())],
    );
    assert!(program.contains("extern crate plain;\n"));
    assert!(program.contains("extern crate easy_shortcuts as es;\n"));
    assert!(program.contains("#[macro_use] extern crate mac;\n"));
    assert_eq!(
        deduced,
        vec!["es".to_string(), "mac".to_string(), "plain".to_string()]
    );
}

#[test]
fn wildcard_names_get_glob_imports() {
    let (program, deduced) = snippet_to_program(
        "let x = 1;\n",
        String::new(),
        vec!["dup".to_string(), "dup".to_string()],
        vec!["wild".to_string()],
        vec!["mac".to_string()],
        "",
        true,
        "2021",
        Vec::new(),
    );
    assert!(program.contains("extern crate dup;\n"));
    assert!(program.contains("extern crate wild;\n"));
    assert!(program.contains("use wild::*;\n"));
    assert!(program.contains("#[macro_use] extern crate mac;\n"));
    assert_eq!(
        deduced,
        vec!["dup".to_string(), "mac".to_string(), "wild".to_string()]
    );
}

#[test]
fn prepend_restored_and_closed() {
    let (program, _) = snippet_to_program(
        "println!(\"{}\", n);",
        String::new(),
        Vec::new(),
        Vec::new(),
        Vec::new(),
        "let n = 1\\nlet m = 2",
        true,
        "2021",
        Vec::new(),
    );
    assert!(program.contains("let n = 1\nlet m = 2;\n"));
}

#[test]
fn no_prelude_switch() {
    let prelude = "use std::io;\n".to_string();
    let (with, _) = snippet_to_program(
        "let x = 1;\n",
        prelude.clone(),
        Vec::new(),
        Vec::new(),
        Vec::new(),
        "",
        false,
        "2021",
        Vec::new(),
    );
    assert!(with.contains("use std::io;\n"));
    let (without, _) = snippet_to_program(
        "let x = 1;\n",
        prelude,
        Vec::new(),
        Vec::new(),
        Vec::new(),
        "",
        true,
        "2021",
        Vec::new(),
    );
    assert!(!without.contains("use std::io;\n"));
}

#[test]
fn classifier_counts() {
    assert_eq!(count_entry_points(""), 0);
    assert_eq!(count_entry_points("let x = 1;"), 0);
    assert_eq!(count_entry_points("fn main() {}"), 1);
    assert_eq!(count_entry_points("fn main() {}\nfn main2() {}"), 2);
    assert!(matches!(classify_source("let x = 1;"), SourceShape::Fragment));
    assert!(matches!(classify_source("fn main() {}"), SourceShape::Candidate));
    // more than one entry point is an invalid input, not a fragment
    assert!(matches!(
        classify_source("fn main() {}\nfn main() {}"),
        SourceShape::Ambiguous
    ));
}

#[test]
fn verdict_needs_compiler_confirmation() {
    let candidate = classify_source("fn main() {}");
    assert!(well_formed_verdict(&candidate, true));
    assert!(!well_formed_verdict(&candidate, false));
    let fragment = classify_source("let x = 1;");
    assert!(!well_formed_verdict(&fragment, true));
}

#[test]
fn preprocess_expression() {
    assert_eq!(
        preprocess_code_type(true, false, false, false, "1 + 1  "),
        "println!(\"{:?}\",1 + 1);"
    );
    // a well-formed program passes through unchanged
    assert_eq!(
        preprocess_code_type(true, false, false, true, "fn main() {}"),
        "fn main() {}"
    );
}

#[test]
fn preprocess_iterator() {
    assert_eq!(
        preprocess_code_type(false, true, false, false, "0..3"),
        "for val in 0..3 {\n println!(\"{:?}\",val);\n}"
    );
}

#[test]
fn preprocess_lines() {
    let out = preprocess_code_type(false, false, true, false, "line.len()");
    assert!(out.contains("let stdin = io::stdin();"));
    assert!(out.contains("let val = line.len();\nprintln!(\"{:?}\",val);"));
    assert!(out.ends_with("\n}"));
    // an expression that already ends in a block is not printed
    let out2 = preprocess_code_type(false, false, true, false, "if x { y() }");
    assert!(out2.contains("  if x { y() };"));
    assert!(!out2.contains("let val"));
}

#[test]
fn preprocess_plain_trims() {
    assert_eq!(preprocess_code_type(false, false, false, false, "code()  \n"), "code()");
}

#[test]
fn declaration_without_semicolon_still_deduced() {
    // the scanner accepts the end of the line as a word terminator
    let (_, deduced) = massage_snippet(
        "extern crate foo",
        String::new(),
        no_names(),
        no_names(),
        no_names(),
        "",
        true,
        no_aliases(),
    );
    assert_eq!(deduced, vec!["foo".to_string()]);
}

#[test]
fn macro_visibility_attribute_hoisted() {
    let code = "#[macro_use] extern crate log;\nlet x = 1;\n";
    let (program, deduced) = massage_snippet(
        code,
        String::new(),
        no_names(),
        no_names(),
        no_names(),
        "",
        true,
        no_aliases(),
    );
    assert_eq!(deduced, vec!["log".to_string()]);
    // the attribute line is hoisted above the harness, not indented into it
    assert!(program.contains("#[macro_use] extern crate log;\n"));
    assert!(!program.contains("    #[macro_use]"));
}

#[test]
fn near_miss_text_does_not_confuse_the_count() {
    // fragments may contain text that almost looks like an entry point;
    // only the harness's own declaration is counted afterwards
    let code = "let s = \"fn mai\"; let t = \"n main\";\n";
    assert_eq!(count_entry_points(code), 0);
    let (program, _) = massage_snippet(
        code,
        String::new(),
        no_names(),
        no_names(),
        no_names(),
        "",
        true,
        no_aliases(),
    );
    assert_eq!(count_entry_points(&program), 1);
}

#[test]
fn wildcard_names_deduced_at_the_transform() {
    // the deduced list unions the wildcard and macro-visibility names at the
    // transform itself, and the glob import needs no explicit name beside it
    let (program, deduced) = massage_snippet(
        "let x = 1;\n",
        String::new(),
        no_names(),
        vec!["wonly".to_string()],
        vec!["monly".to_string()],
        "",
        true,
        no_aliases(),
    );
    assert!(program.contains("use wonly::*;\n"));
    assert_eq!(deduced, vec!["monly".to_string(), "wonly".to_string()]);
}

#[test]
fn declared_names_of_a_complete_program() {
    let code = "#[macro_use] extern crate log;\nextern crate serde;\nfn main() {}\n";
    assert_eq!(
        extern_crate_names(code),
        vec!["log".to_string(), "serde".to_string()]
    );
    assert!(extern_crate_names("fn main() {}\n").is_empty());
}
