//! Reading a package's own manifest: the actual crate name — not the
//! directory name — and the language epoch it was written for.
//!
//! What the TOML lookup yields on a manifest is a function of the text
//! alone, so it carries a name ([`manifest_info_of`]) that the one trusted
//! wrapper applies; the epoch default is verified logic on top of it.

use vstd::prelude::*;

verus! {

/// What the TOML lookup yields on manifest text: the package's name and its
/// declared epoch, absent when none is declared — or nothing, when the text
/// is not a manifest with a named package.  A function of the text alone.
pub uninterp spec fn manifest_info_of(s: Seq<char>) -> Option<(Seq<char>, Option<Seq<char>>)>;

/// Relies on toml's `from_str` and `Value::get` / `as_str`: parses manifest
/// text and reads the package's name and optional edition out of it.
#[verifier::external_body]
fn manifest_fields(manifest: &str) -> (r: Option<(String, Option<String>)>)
    ensures
        match (manifest_info_of(manifest@), r) {
            (Some(t), Some(q)) => q.0@ == t.0 && (match (t.1, q.1) {
                (Some(e), Some(x)) => x@ == e,
                (None, None) => true,
                _ => false,
            }),
            (None, None) => true,
            _ => false,
        },
{
    let doc: toml::Value = toml::from_str(manifest).ok()?;
    let package = doc.get("package")?;
    let name = package.get("name")?.as_str()?.to_string();
    let edition = match package.get("edition") {
        Some(e) => Some(e.as_str()?.to_string()),
        None => None,
    };
    Some((name, edition))
}

/// What a manifest says about its package.
pub struct CrateInfo {
    /// The actual crate name.
    pub name: String,
    /// The declared language epoch, or the original one when none is
    /// declared.
    pub edition: String,
}

/// The epoch a manifest declares; a manifest that declares none is from the
/// original epoch.
pub fn edition_or_default(e: Option<String>) -> (r: String)
    ensures
        r@ == match e {
            None => "2015"@,
            Some(x) => x@,
        },
{
    match e {
        Some(x) => x,
        None => "2015".to_owned(),
    }
}

/// Read the crate name and epoch out of manifest text: exactly the
/// manifest's package name and declared epoch, the epoch defaulted when
/// absent; `None` exactly when the text is not a manifest with a named
/// package.
pub fn crate_info(manifest: &str) -> (r: Option<CrateInfo>)
    ensures
        match (manifest_info_of(manifest@), r) {
            (Some(t), Some(ci)) => ci.name@ == t.0 && ci.edition@ == (match t.1 {
                None => "2015"@,
                Some(e) => e,
            }),
            (None, None) => true,
            _ => false,
        },
{
    match manifest_fields(manifest) {
        Some(q) => Some(CrateInfo { name: q.0, edition: edition_or_default(q.1) }),
        None => None,
    }
}

} // verus!
