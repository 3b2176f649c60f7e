//! Reading the build manager's machine-readable build log.
//!
//! Each log line is one JSON record.  What JSON extraction yields on a line
//! is a function of the line alone, so it carries a name
//! ([`build_record_of`]) that the one trusted wrapper applies; everything
//! done *with* the extracted fields — the byproduct filter, name
//! normalization, version parsing, the table updates — is verified logic in
//! the metadata store, stated over that name.

use vstd::prelude::*;
use crate::lines::views;

verus! {

/// The plain fields of one build-artifact record.
pub struct BuildRecordFields {
    /// The build manager's identifier line: package name, version, source.
    pub package_id: String,
    /// The enabled feature flags.
    pub features: Vec<String>,
    /// The first produced file, as a path.
    pub first_filename: String,
    /// The target's crate name.
    pub target_name: String,
    /// The path of the target's cached source.
    pub src_path: String,
}

/// What JSON extraction yields on one log line: the package identifier, the
/// feature list, the first output file, the target's crate name and the
/// target's cached source path — or nothing, when the line is not a JSON
/// object carrying all five.  A function of the line alone.
pub uninterp spec fn build_record_of(line: Seq<char>) -> Option<
    (Seq<char>, Seq<Seq<char>>, Seq<char>, Seq<char>, Seq<char>),
>;

/// Relies on serde_json's `from_str` and `Value::get` / `as_str` /
/// `as_array`: parses one log line and reads an artifact record's five
/// fields out of it; `None` when the line is not JSON or lacks one of them.
#[verifier::external_body]
pub fn read_build_line(line: &str) -> (r: Option<BuildRecordFields>)
    ensures
        match (build_record_of(line@), r) {
            (Some(t), Some(f)) => f.package_id@ == t.0 && views(f.features@) == t.1
                && f.first_filename@ == t.2 && f.target_name@ == t.3 && f.src_path@ == t.4,
            (None, None) => true,
            _ => false,
        },
{
    let v: serde_json::Value = serde_json::from_str(line).ok()?;
    let mut features: Vec<String> = Vec::new();
    for f in v.get("features")?.as_array()? {
        features.push(f.as_str()?.to_string());
    }
    let first_filename = v.get("filenames")?.get(0)?.as_str()?.to_string();
    let package_id = v.get("package_id")?.as_str()?.to_string();
    let target = v.get("target")?;
    let target_name = target.get("name")?.as_str()?.to_string();
    let src_path = target.get("src_path")?.as_str()?.to_string();
    Some(BuildRecordFields { package_id, features, first_filename, target_name, src_path })
}

} // verus!
