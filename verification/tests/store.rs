//! The metadata store: building from build logs, resolution, persistence.

use runner::compile::resolve_externs;
use runner::meta::{file_name, Meta};
use runner::version::{version_cmp, Version};

fn debug_log() -> String {
    [
        r#"{"package_id":"mypkg 1.0.0 (registry)","target":{"name":"mypkg","src_path":"/src/1.0.0/lib.rs"},"features":["default"],"filenames":["/t/debug/deps/libmypkg-old.rlib"]}"#,
        r#"{"package_id":"mypkg 1.2.0 (registry)","target":{"name":"mypkg","src_path":"/src/1.2.0/lib.rs"},"features":["default","extra"],"filenames":["/t/debug/deps/libmypkg-new.rlib"]}"#,
        r#"{"package_id":"other-crate 0.3.1 (registry)","target":{"name":"other_crate","src_path":"/src/o/lib.rs"},"features":[],"filenames":["/t/debug/deps/libother-abc.rlib"]}"#,
    ]
    .join("\n")
}

fn release_log() -> String {
    [
        r#"{"package_id":"mypkg 1.0.0 (registry)","target":{"name":"mypkg","src_path":"/src/1.0.0/lib.rs"},"features":["default"],"filenames":["/t/release/deps/libmypkg-old-rel.rlib"]}"#,
        r#"{"package_id":"mypkg 1.2.0 (registry)","target":{"name":"mypkg","src_path":"/src/1.2.0/lib.rs"},"features":["default","extra"],"filenames":["/t/release/deps/libmypkg-new-rel.rlib"]}"#,
        // a release-only record: conditional compilation can do that
        r#"{"package_id":"ghost-pkg 0.1.0 (registry)","target":{"name":"ghost_pkg","src_path":"/src/g/lib.rs"},"features":[],"filenames":["/t/release/deps/libghost-x.rlib"]}"#,
    ]
    .join("\n")
}

#[test]
fn resolution_prefers_newest_version() {
    let mut m = Meta::new();
    m.debug(&debug_log());
    let diags = m.release(&release_log());
    // the release-only record finds no row: one non-fatal diagnostic, and
    // the build goes on
    assert_eq!(diags, vec!["ghost-pkg".to_string()]);
    // both profiles resolve to the 1.2.0 artifact
    assert_eq!(
        m.get_full_crate_name("mypkg", true),
        Some("libmypkg-new.rlib".to_string())
    );
    assert_eq!(
        m.get_full_crate_name("mypkg", false),
        Some("libmypkg-new-rel.rlib".to_string())
    );
}

#[test]
fn debug_only_record_keeps_empty_release_artifact() {
    let mut m = Meta::new();
    m.debug(&debug_log());
    let diags = m.release(&release_log());
    assert_eq!(diags.len(), 1);
    // a row built in one profile only survives with its release side
    // empty — no error — and resolution by the normalized link name works
    let e = m.get_meta_entry("other_crate").expect("row should exist");
    assert_eq!(e.package, "other-crate");
    assert_eq!(e.crate_name, "other_crate");
    assert_eq!(e.debug_name, "libother-abc.rlib");
    assert_eq!(e.release_name, "");
    assert_eq!(e.version.text, "0.3.1");
    assert_eq!(e.features, "");
}

#[test]
fn features_space_joined() {
    let mut m = Meta::new();
    m.debug(&debug_log());
    let e = m.get_meta_entry("mypkg").expect("row should exist");
    assert_eq!(e.features, "default extra");
    assert_eq!(e.path, "/src/1.2.0/lib.rs");
}

#[test]
fn byproducts_are_skipped() {
    let mut m = Meta::new();
    // an executable artifact and an extensionless one are not libraries
    let log = [
        r#"{"package_id":"toolpkg 1.0.0 (registry)","target":{"name":"toolpkg","src_path":"/s/lib.rs"},"features":[],"filenames":["/t/debug/toolpkg.exe"]}"#,
        r#"{"package_id":"toolpkg 1.0.0 (registry)","target":{"name":"toolpkg","src_path":"/s/lib.rs"},"features":[],"filenames":["/t/debug/toolpkg"]}"#,
        "not json at all",
        "",
    ]
    .join("\n");
    m.debug(&log);
    assert_eq!(m.len(), 0);
}

#[test]
fn persistence_round_trip() {
    let mut m = Meta::new();
    m.debug(&debug_log());
    m.release(&release_log());
    let text = m.render();
    let reloaded = Meta::parse_meta_text(&text).expect("stored text should parse");
    // reloading reconstructs byte-for-byte equal rows
    assert_eq!(reloaded.render(), text);
    assert_eq!(reloaded.len(), m.len());
    assert_eq!(
        reloaded.get_full_crate_name("mypkg", false),
        Some("libmypkg-new-rel.rlib".to_string())
    );
}

#[test]
fn stored_line_shape() {
    let mut m = Meta::new();
    m.debug(&debug_log());
    m.release(&release_log());
    let text = m.render();
    let first = text.lines().next().expect("one line per row");
    assert_eq!(
        first,
        "mypkg,mypkg,1.0.0,default,libmypkg-old.rlib,libmypkg-old-rel.rlib,/src/1.0.0/lib.rs"
    );
}

#[test]
fn loading_rejects_corrupt_text() {
    assert!(matches!(Meta::parse_meta_text("not,enough,fields"), Err(0)));
    // the failing line is named
    let text = "p,c,1.0.0,f,d,r,/s\np,c,not-a-version,f,d,r,/s\n";
    assert!(matches!(Meta::parse_meta_text(text), Err(1)));
    // older files may lack the trailing path field
    let old = Meta::parse_meta_text("p,c,1.0.0,f,d,r\n").expect("six fields are enough");
    let e = old.get_meta_entry("p").expect("row should exist");
    assert_eq!(e.path, "");
}

#[test]
fn missing_link_name_is_a_resolution_error() {
    // durable-mode resolution of an absent name fails naming that link
    let m = Meta::new();
    let r = resolve_externs(&m, &vec!["serde".to_string()], true);
    assert_eq!(r, Err("serde".to_string()));

    let mut m2 = Meta::new();
    m2.debug(&debug_log());
    let r2 = resolve_externs(&m2, &vec!["mypkg".to_string(), "absent".to_string()], true);
    assert_eq!(r2, Err("absent".to_string()));
    let ok = resolve_externs(&m2, &vec!["mypkg".to_string()], true).expect("resolvable");
    assert_eq!(ok, vec![("libmypkg-new.rlib".to_string(), "mypkg".to_string())]);
}

#[test]
fn crate_listing_sorted_and_deduplicated() {
    let mut m = Meta::new();
    m.debug(&debug_log());
    m.debug(&debug_log());  // duplicate rows collapse in the listing
    let list = m.crate_list();
    assert_eq!(
        list,
        vec![
            ("mypkg".to_string(), "1.0.0".to_string()),
            ("mypkg".to_string(), "1.2.0".to_string()),
            ("other-crate".to_string(), "0.3.1".to_string()),
        ]
    );
}

#[test]
fn version_parsing_and_order() {
    let v = Version::parse("1.2.3").expect("canonical text");
    assert_eq!(v.major, 1);
    assert_eq!(v.minor, 2);
    assert_eq!(v.patch, 3);
    assert_eq!(v.pre, "");
    assert_eq!(v.text, "1.2.3");
    let pre = Version::parse("1.2.3-alpha.1").expect("pre-release text");
    assert_eq!(pre.pre, "alpha.1");
    assert!(Version::parse("not a version").is_none());
    assert!(Version::parse("1.2").is_none());
    // a pre-release precedes its release; numbers order numerically
    assert_eq!(version_cmp(&pre, &v), -1);
    let v10 = Version::parse("1.10.0").expect("canonical text");
    let v9 = Version::parse("1.9.0").expect("canonical text");
    assert_eq!(version_cmp(&v9, &v10), -1);
    assert_eq!(version_cmp(&v10, &v10), 0);
}

#[test]
fn store_file_location() {
    assert_eq!(file_name("/home/u/.cargo/.runner/static-cache"), "/home/u/.cargo/.runner/static-cache/cargo.meta");
}

#[test]
fn pre_release_identifiers_compare_by_precedence() {
    // numeric identifiers compare by value, not by code point
    let two = Version::parse("1.0.0-2").expect("canonical text");
    let ten = Version::parse("1.0.0-10").expect("canonical text");
    assert_eq!(version_cmp(&two, &ten), -1);
    // dot-separated identifiers, numerals before alphanumerics, a shorter
    // list before its extensions
    let order = [
        "1.0.0-alpha",
        "1.0.0-alpha.85",
        "1.0.0-alpha.90",
        "1.0.0-alpha.200",
        "1.0.0-alpha.0a",
        "1.0.0-alpha.1a0",
        "1.0.0-alpha.a",
        "1.0.0-beta",
    ];
    let mut i = 0;
    while i + 1 < order.len() {
        let a = Version::parse(order[i]).expect("canonical text");
        let b = Version::parse(order[i + 1]).expect("canonical text");
        assert_eq!(version_cmp(&a, &b), -1);
        i += 1;
    }
}

#[test]
fn resolution_prefers_newest_pre_release() {
    let log = [
        r#"{"package_id":"prepkg 1.0.0-2 (registry)","target":{"name":"prepkg","src_path":"/s/a/lib.rs"},"features":[],"filenames":["/t/debug/deps/libprepkg-two.rlib"]}"#,
        r#"{"package_id":"prepkg 1.0.0-10 (registry)","target":{"name":"prepkg","src_path":"/s/b/lib.rs"},"features":[],"filenames":["/t/debug/deps/libprepkg-ten.rlib"]}"#,
    ]
    .join("\n");
    let mut m = Meta::new();
    m.debug(&log);
    assert_eq!(
        m.get_full_crate_name("prepkg", true),
        Some("libprepkg-ten.rlib".to_string())
    );
}

#[test]
fn crate_listing_ordered_by_version_precedence() {
    let log = [
        r#"{"package_id":"vpkg 1.10.0 (registry)","target":{"name":"vpkg","src_path":"/s/lib.rs"},"features":[],"filenames":["/t/debug/deps/libvpkg-a.rlib"]}"#,
        r#"{"package_id":"vpkg 1.9.0 (registry)","target":{"name":"vpkg","src_path":"/s/lib.rs"},"features":[],"filenames":["/t/debug/deps/libvpkg-b.rlib"]}"#,
    ]
    .join("\n");
    let mut m = Meta::new();
    m.debug(&log);
    let list = m.crate_list();
    assert_eq!(
        list,
        vec![
            ("vpkg".to_string(), "1.9.0".to_string()),
            ("vpkg".to_string(), "1.10.0".to_string()),
        ]
    );
}

#[test]
fn listing_one_crate_by_either_name() {
    let mut m = Meta::new();
    m.debug(&debug_log());
    // matched by the normalized link name as well as by the package id
    let by_link = m.crate_list_for("other_crate");
    assert_eq!(by_link, vec![("other-crate".to_string(), "0.3.1".to_string())]);
    let by_package = m.crate_list_for("other-crate");
    assert_eq!(by_package, by_link);
    assert!(m.crate_list_for("absent").is_empty());
}
