//! The metadata store: one row per built library artifact, loadable from and
//! persistable to a flat comma-joined file, with name-to-artifact resolution
//! that prefers the newest version.

use vstd::prelude::*;
use crate::buildlog::BuildRecordFields;
use crate::crate_utils::{
    extension_of, file_name_of, normalized_name, path_extension_chars, path_file_name_chars,
    proper_crate_name,
};
use crate::lines::{join_on, lemma_views_push, strip_cr, text_lines, views};
use crate::strutil::{next_2, tokens, tokens_spec};
use crate::text::{char_free, chars_eq, chars_to_string, str_to_chars};
use crate::text::seq_lt;
use crate::version::{
    semver_parsed, version_eq, version_le, version_lt, version_wf, lemma_version_le_trans,
    lemma_version_lt_trans, lemma_version_trichotomy, version_cmp, Version, VersionModel,
};
use vstd::string::StrSliceExecFns;

verus! {

/// One row of the store: a built library artifact of one package at one
/// version.
pub struct MetaEntry {
    /// The build manager's package identifier.
    pub package: String,
    /// The normalized symbolic name used at the call site.
    pub crate_name: String,
    /// The parsed version.
    pub version: Version,
    /// The enabled feature flags, space-joined.
    pub features: String,
    /// The artifact file name of the unoptimized profile; empty when that
    /// profile has not produced this row.
    pub debug_name: String,
    /// The artifact file name of the optimized profile; empty when that
    /// profile has not produced this row.
    pub release_name: String,
    /// The path of the package's cached source.
    pub path: String,
}

/// The mathematical value of a [`MetaEntry`].
pub ghost struct EntryModel {
    pub package: Seq<char>,
    pub crate_name: Seq<char>,
    pub version: VersionModel,
    pub features: Seq<char>,
    pub debug_name: Seq<char>,
    pub release_name: Seq<char>,
    pub path: Seq<char>,
}

impl View for MetaEntry {
    type V = EntryModel;

    open spec fn view(&self) -> EntryModel {
        EntryModel {
            package: self.package@,
            crate_name: self.crate_name@,
            version: self.version@,
            features: self.features@,
            debug_name: self.debug_name@,
            release_name: self.release_name@,
            path: self.path@,
        }
    }
}

// ---------------------------------------------------------------------------
// From build-log fields to a row
// ---------------------------------------------------------------------------

/// A record is an accepted library artifact when its first output file has
/// an extension other than the executable one — executables and
/// extensionless outputs are build byproducts, not libraries.
pub open spec fn accepted_artifact(first_filename: Seq<char>) -> bool {
    match extension_of(first_filename) {
        None => false,
        Some(e) => e != "exe"@,
    }
}

/// The row an accepted debug-profile record yields: the package identifier's
/// first token names the package, its second is the version; the artifact
/// keeps only its file name; the release side starts empty.
pub open spec fn debug_entry_of(
    package_id: Seq<char>,
    features: Seq<Seq<char>>,
    first_filename: Seq<char>,
    target_name: Seq<char>,
    src_path: Seq<char>,
) -> Option<EntryModel> {
    if !accepted_artifact(first_filename) {
        None
    } else {
        let toks = tokens_spec(package_id);
        if toks.len() < 2 {
            None
        } else {
            match semver_parsed(toks[1]) {
                None => None,
                Some(t) => Some(
                    EntryModel {
                        package: toks[0],
                        crate_name: normalized_name(target_name),
                        version: VersionModel {
                            major: t.0,
                            minor: t.1,
                            patch: t.2,
                            pre: t.3,
                            text: toks[1],
                        },
                        features: join_on(features, ' '),
                        debug_name: file_name_of(first_filename),
                        release_name: Seq::empty(),
                        path: src_path,
                    },
                ),
            }
        }
    }
}

/// What a release-profile record contributes: the key to find the existing
/// row, and the artifact file name to fill in.
pub open spec fn release_key_of(package_id: Seq<char>, first_filename: Seq<char>) -> Option<
    (Seq<char>, Seq<char>, Seq<char>),
> {
    if !accepted_artifact(first_filename) {
        None
    } else {
        let toks = tokens_spec(package_id);
        if toks.len() < 2 {
            None
        } else if semver_parsed(toks[1]).is_none() {
            None
        } else {
            Some((toks[0], toks[1], file_name_of(first_filename)))
        }
    }
}

/// Build the row of one accepted debug-profile record; `None` exactly on
/// byproducts and on records whose identifier or version does not parse.
pub fn debug_entry_from_fields(f: &BuildRecordFields) -> (r: Option<MetaEntry>)
    ensures
        match (debug_entry_of(
            f.package_id@,
            views(f.features@),
            f.first_filename@,
            f.target_name@,
            f.src_path@,
        ), r) {
            (Some(m), Some(e)) => e@ == m,
            (None, None) => true,
            _ => false,
        },
{
    let fname = str_to_chars(f.first_filename.as_str());
    let exe = str_to_chars("exe");
    match path_extension_chars(&fname) {
        None => {
            return None;
        },
        Some(e) => {
            if chars_eq(&e, &exe) {
                return None;
            }
        },
    }
    let toks = tokens(f.package_id.as_str());
    if toks.len() < 2 {
        return None;
    }
    proof {
        assert(tokens_spec(f.package_id@)[0] == views(toks@)[0]);
        assert(tokens_spec(f.package_id@)[1] == views(toks@)[1]);
    }
    let (package, vs) = next_2(&toks);
    let version = match Version::parse(vs.as_str()) {
        None => {
            return None;
        },
        Some(v) => v,
    };
    let features = join_strings(&f.features, ' ');
    let debug_name = chars_to_string(&path_file_name_chars(&fname));
    Some(
        MetaEntry {
            package,
            crate_name: proper_crate_name(f.target_name.as_str()),
            version,
            features,
            debug_name,
            release_name: String::new(),
            path: f.src_path.clone(),
        },
    )
}

/// The matching key of one accepted release-profile record; `None` exactly
/// as for the debug side.
pub fn release_key_from_fields(f: &BuildRecordFields) -> (r: Option<(String, String, String)>)
    ensures
        match (release_key_of(f.package_id@, f.first_filename@), r) {
            (Some(m), Some(k)) => k.0@ == m.0 && k.1@ == m.1 && k.2@ == m.2,
            (None, None) => true,
            _ => false,
        },
{
    let fname = str_to_chars(f.first_filename.as_str());
    let exe = str_to_chars("exe");
    match path_extension_chars(&fname) {
        None => {
            return None;
        },
        Some(e) => {
            if chars_eq(&e, &exe) {
                return None;
            }
        },
    }
    let toks = tokens(f.package_id.as_str());
    if toks.len() < 2 {
        return None;
    }
    proof {
        assert(tokens_spec(f.package_id@)[0] == views(toks@)[0]);
        assert(tokens_spec(f.package_id@)[1] == views(toks@)[1]);
    }
    let (package, vs) = next_2(&toks);
    if Version::parse(vs.as_str()).is_none() {
        return None;
    }
    let release_name = chars_to_string(&path_file_name_chars(&fname));
    Some((package, vs, release_name))
}

/// Space-join a list of names.
fn join_strings(v: &Vec<String>, d: char) -> (r: String)
    ensures
        r@ == join_on(views(v@), d),
{
    let mut parts: Vec<Vec<char>> = Vec::new();
    let mut i: usize = 0;
    proof {
        assert(views(parts@) =~= views(v@).take(0));
    }
    while i < v.len()
        invariant
            0 <= i <= v@.len(),
            views(parts@) == views(v@).take(i as int),
        decreases v@.len() - i,
    {
        let p = str_to_chars(v[i].as_str());
        proof {
            lemma_views_push(parts@, p);
            assert(views(v@).take(i as int).push(views(v@)[i as int]) =~= views(v@).take(i + 1));
            assert(views(v@)[i as int] == v@[i as int]@);
        }
        parts.push(p);
        i += 1;
    }
    proof {
        assert(views(v@).take(v@.len() as int) =~= views(v@));
    }
    let joined = crate::lines::join_fields(&parts, d);
    chars_to_string(&joined)
}

// ---------------------------------------------------------------------------
// The store and resolution
// ---------------------------------------------------------------------------

/// A query matches a row by the stored package identifier or by the
/// normalized call-site name.
pub open spec fn matches_name(e: EntryModel, name: Seq<char>) -> bool {
    e.package == name || e.crate_name == name
}

/// The index of the row a query resolves to among the first `i` rows: of the
/// matching rows, one with the greatest version, and of rows of equal
/// greatest version the last — newest wins.
pub open spec fn best_upto(es: Seq<EntryModel>, name: Seq<char>, i: int) -> Option<int>
    decreases i,
{
    if i <= 0 {
        None
    } else {
        let prev = best_upto(es, name, i - 1);
        if !matches_name(es[i - 1], name) {
            prev
        } else {
            match prev {
                None => Some(i - 1),
                Some(b) => if version_le(es[b].version, es[i - 1].version) {
                    Some(i - 1)
                } else {
                    Some(b)
                },
            }
        }
    }
}

/// What [`best_upto`] promises: the winner matches, no matching row has a
/// greater version, and later matching rows have strictly smaller versions.
pub proof fn lemma_best_upto(es: Seq<EntryModel>, name: Seq<char>, i: int)
    requires
        0 <= i <= es.len(),
    ensures
        match best_upto(es, name, i) {
            Some(b) => 0 <= b < i && matches_name(es[b], name) && (forall|j: int|
                0 <= j < i && matches_name(#[trigger] es[j], name) ==> version_le(
                    es[j].version,
                    es[b].version,
                )) && (forall|j: int|
                b < j < i && matches_name(#[trigger] es[j], name) ==> version_lt(
                    es[j].version,
                    es[b].version,
                )),
            None => forall|j: int| 0 <= j < i ==> !matches_name(#[trigger] es[j], name),
        },
    decreases i,
{
    if i > 0 {
        lemma_best_upto(es, name, i - 1);
        let e = es[i - 1];
        match best_upto(es, name, i - 1) {
            None => {},
            Some(b) => {
                if matches_name(e, name) {
                    lemma_version_trichotomy(es[b].version, e.version);
                    if version_le(es[b].version, e.version) {
                        assert forall|j: int|
                            0 <= j < i && matches_name(#[trigger] es[j], name) implies version_le(
                            es[j].version,
                            es[i - 1].version,
                        ) by {
                            if j < i - 1 {
                                lemma_version_le_trans(
                                    es[j].version,
                                    es[b].version,
                                    es[i - 1].version,
                                );
                            }
                        }
                    } else {
                        assert(version_lt(e.version, es[b].version));
                    }
                }
            },
        }
    }
}

/// The in-memory table of package-build rows.
pub struct Meta {
    entries: Vec<MetaEntry>,
}

impl View for Meta {
    type V = Seq<EntryModel>;

    closed spec fn view(&self) -> Seq<EntryModel> {
        views(self.entries@)
    }
}

impl Meta {
    /// An empty store.
    pub fn new() -> (r: Meta)
        ensures
            r@ == Seq::<EntryModel>::empty(),
    {
        let r = Meta { entries: Vec::new() };
        proof {
            assert(r@ =~= Seq::<EntryModel>::empty());
        }
        r
    }

    /// The number of rows.
    pub fn len(&self) -> (r: usize)
        ensures
            r == self@.len(),
    {
        self.entries.len()
    }

    /// The rows a name matches, in table order.
    pub fn get_meta_entries<'a>(&'a self, name: &str) -> (r: Vec<&'a MetaEntry>)
        ensures
            views(r@) == self@.filter(|e: EntryModel| matches_name(e, name@)),
    {
        let nv = str_to_chars(name);
        let mut r: Vec<&'a MetaEntry> = Vec::new();
        let mut i: usize = 0;
        let ghost pred = |e: EntryModel| matches_name(e, name@);
        proof {
            reveal(Seq::filter);
            assert(self@.take(0) =~= Seq::<EntryModel>::empty());
            assert(views(r@) =~= self@.take(0).filter(pred));
        }
        while i < self.entries.len()
            invariant
                nv@ == name@,
                pred == (|e: EntryModel| matches_name(e, name@)),
                0 <= i <= self.entries@.len(),
                self@.len() == self.entries@.len(),
                views(r@) == self@.take(i as int).filter(pred),
            decreases self.entries@.len() - i,
        {
            let e = &self.entries[i];
            proof {
                assert(self@[i as int] == self.entries@[i as int]@);
                assert(self@.take(i + 1).drop_last() =~= self@.take(i as int));
                assert(self@.take(i + 1).last() == self@[i as int]);
                reveal(Seq::filter);
            }
            let pv = str_to_chars(e.package.as_str());
            let cv = str_to_chars(e.crate_name.as_str());
            if chars_eq(&pv, &nv) || chars_eq(&cv, &nv) {
                proof {
                    lemma_views_push(r@, e);
                }
                r.push(e);
            } else {
                proof {
                    assert(!pred(self@[i as int]));
                }
            }
            i += 1;
        }
        proof {
            assert(self@.take(self@.len() as int) =~= self@);
        }
        r
    }

    /// Resolve a name to a row: `None` exactly when nothing matches, else
    /// the matching row with the greatest version — the tie-break is always
    /// "prefer newest", and among rows of one greatest version the last.
    pub fn get_meta_entry<'a>(&'a self, name: &str) -> (r: Option<&'a MetaEntry>)
        ensures
            match r {
                Some(e) => {
                    &&& exists|b: int|
                        0 <= b < self@.len() && #[trigger] self@[b] == e@ && best_upto(
                            self@,
                            name@,
                            self@.len() as int,
                        ) == Some(b)
                    &&& matches_name(e@, name@)
                    &&& forall|j: int|
                        0 <= j < self@.len() && matches_name(#[trigger] self@[j], name@)
                            ==> version_le(self@[j].version, e@.version)
                },
                None => forall|j: int|
                    0 <= j < self@.len() ==> !matches_name(#[trigger] self@[j], name@),
            },
    {
        let nv = str_to_chars(name);
        let mut best: Option<usize> = None;
        let mut i: usize = 0;
        while i < self.entries.len()
            invariant
                nv@ == name@,
                0 <= i <= self.entries@.len(),
                self@.len() == self.entries@.len(),
                match best {
                    Some(b) => best_upto(self@, name@, i as int) == Some(b as int) && b < i,
                    None => best_upto(self@, name@, i as int).is_none(),
                },
            decreases self.entries@.len() - i,
        {
            let e = &self.entries[i];
            proof {
                assert(self@[i as int] == self.entries@[i as int]@);
            }
            let pv = str_to_chars(e.package.as_str());
            let cv = str_to_chars(e.crate_name.as_str());
            if chars_eq(&pv, &nv) || chars_eq(&cv, &nv) {
                match best {
                    None => {
                        best = Some(i);
                    },
                    Some(b) => {
                        let c = version_cmp(&self.entries[b].version, &e.version);
                        proof {
                            lemma_version_trichotomy(self@[b as int].version, self@[i as int].version);
                        }
                        if c <= 0 {
                            best = Some(i);
                        }
                    },
                }
            }
            i += 1;
        }
        proof {
            lemma_best_upto(self@, name@, self@.len() as int);
        }
        match best {
            Some(b) => Some(&self.entries[b]),
            None => None,
        }
    }

    /// The artifact file name a query resolves to for the given profile;
    /// `None` exactly when no row matches.
    pub fn get_full_crate_name(&self, name: &str, debug: bool) -> (r: Option<String>)
        ensures
            match r {
                Some(s) => exists|b: int|
                    0 <= b < self@.len() && best_upto(self@, name@, self@.len() as int) == Some(b)
                        && s@ == (if debug {
                        #[trigger] self@[b].debug_name
                    } else {
                        self@[b].release_name
                    }),
                None => forall|j: int|
                    0 <= j < self@.len() ==> !matches_name(#[trigger] self@[j], name@),
            },
    {
        match self.get_meta_entry(name) {
            Some(e) => {
                proof {
                    let b = choose|b: int|
                        0 <= b < self@.len() && #[trigger] self@[b] == e@ && best_upto(
                            self@,
                            name@,
                            self@.len() as int,
                        ) == Some(b);
                    assert(self@[b].debug_name == e@.debug_name);
                    assert(self@[b].release_name == e@.release_name);
                }
                if debug {
                    Some(e.debug_name.clone())
                } else {
                    Some(e.release_name.clone())
                }
            },
            None => None,
        }
    }

    /// Whether any cached version of the crate is present.
    pub fn is_crate_present(&self, name: &str) -> (r: bool)
        ensures
            r == exists|j: int| 0 <= j < self@.len() && matches_name(#[trigger] self@[j], name@),
    {
        match self.get_meta_entry(name) {
            Some(_) => {
                proof {
                    let b = choose|b: int|
                        0 <= b < self@.len() && best_upto(self@, name@, self@.len() as int) == Some(
                            b,
                        );
                }
                true
            },
            None => false,
        }
    }
}

/// The store's file, inside the durable cache directory.
pub fn file_name(cache: &str) -> (r: String)
    ensures
        r@ == cache@ + "/cargo.meta"@,
{
    let mut v = str_to_chars(cache);
    let suffix = str_to_chars("/cargo.meta");
    crate::text::append_chars(&mut v, &suffix);
    chars_to_string(&v)
}

// ---------------------------------------------------------------------------
// Building the table from build logs
// ---------------------------------------------------------------------------

/// A release record fills the row whose package and version text both match.
pub open spec fn release_match(e: EntryModel, package: Seq<char>, vs: Seq<char>) -> bool {
    e.package == package && e.version.text == vs
}

/// The first row a release record matches, from index `i` on.
pub open spec fn first_release_idx(
    es: Seq<EntryModel>,
    package: Seq<char>,
    vs: Seq<char>,
    i: int,
) -> Option<int>
    decreases es.len() - i,
{
    if 0 <= i < es.len() {
        if release_match(es[i], package, vs) {
            Some(i)
        } else {
            first_release_idx(es, package, vs, i + 1)
        }
    } else {
        None
    }
}

/// The rows a debug-profile build log appends: one per line whose record is
/// an accepted library artifact, in log order.
pub open spec fn debug_rows_of(ls: Seq<Seq<char>>, i: int) -> Seq<EntryModel>
    decreases ls.len() - i,
{
    if 0 <= i < ls.len() {
        (match crate::buildlog::build_record_of(ls[i]) {
            None => Seq::<EntryModel>::empty(),
            Some(t) => match debug_entry_of(t.0, t.1, t.2, t.3, t.4) {
                None => Seq::<EntryModel>::empty(),
                Some(e) => seq![e],
            },
        }) + debug_rows_of(ls, i + 1)
    } else {
        Seq::empty()
    }
}

/// The table after a release-profile build log is worked in, line by line:
/// each accepted record fills the first matching row's release artifact; a
/// record with no matching row changes nothing.
pub open spec fn released_rows_of(es: Seq<EntryModel>, ls: Seq<Seq<char>>, i: int) -> Seq<
    EntryModel,
>
    decreases ls.len() - i,
{
    if 0 <= i < ls.len() {
        match crate::buildlog::build_record_of(ls[i]) {
            None => released_rows_of(es, ls, i + 1),
            Some(t) => match release_key_of(t.0, t.2) {
                None => released_rows_of(es, ls, i + 1),
                Some(k) => match first_release_idx(es, k.0, k.1, 0) {
                    None => released_rows_of(es, ls, i + 1),
                    Some(j) => released_rows_of(
                        es.update(j, (EntryModel { release_name: k.2, ..es[j] })),
                        ls,
                        i + 1,
                    ),
                },
            },
        }
    } else {
        es
    }
}

/// The diagnostics a release-profile build log produces: the package
/// identifier of each accepted record that matches no row, in log order.
pub open spec fn release_diags_of(es: Seq<EntryModel>, ls: Seq<Seq<char>>, i: int) -> Seq<
    Seq<char>,
>
    decreases ls.len() - i,
{
    if 0 <= i < ls.len() {
        match crate::buildlog::build_record_of(ls[i]) {
            None => release_diags_of(es, ls, i + 1),
            Some(t) => match release_key_of(t.0, t.2) {
                None => release_diags_of(es, ls, i + 1),
                Some(k) => match first_release_idx(es, k.0, k.1, 0) {
                    None => seq![k.0] + release_diags_of(es, ls, i + 1),
                    Some(j) => release_diags_of(
                        es.update(j, (EntryModel { release_name: k.2, ..es[j] })),
                        ls,
                        i + 1,
                    ),
                },
            },
        }
    } else {
        Seq::empty()
    }
}

impl Meta {
    /// Append the rows of a debug-profile build log: exactly one row per
    /// line holding an accepted artifact record, in log order, each with an
    /// empty release artifact; existing rows stay untouched.
    pub fn debug(&mut self, txt: &str)
        ensures
            final(self)@ == old(self)@ + debug_rows_of(text_lines(txt@), 0),
            forall|k: int| 0 <= k < old(self)@.len() ==> final(self)@[k] == old(self)@[k],
            forall|k: int|
                old(self)@.len() <= k < final(self)@.len() ==> (#[trigger] final(self)@[k]).release_name
                    =~= Seq::<char>::empty() && version_wf(final(self)@[k].version),
    {
        let tv = str_to_chars(txt);
        let lines = crate::lines::split_lines(&tv);
        let ghost ls = text_lines(txt@);
        let mut i: usize = 0;
        while i < lines.len()
            invariant
                ls == text_lines(txt@),
                views(lines@) == ls,
                lines@.len() == ls.len(),
                0 <= i <= lines@.len(),
                self@ + debug_rows_of(ls, i as int) == old(self)@ + debug_rows_of(ls, 0),
                self@.len() >= old(self)@.len(),
                forall|k: int| 0 <= k < old(self)@.len() ==> self@[k] == old(self)@[k],
                forall|k: int|
                    old(self)@.len() <= k < self@.len() ==> (#[trigger] self@[k]).release_name
                        =~= Seq::<char>::empty() && version_wf(self@[k].version),
            decreases lines@.len() - i,
        {
            proof {
                assert(lines@[i as int]@ == ls[i as int]);
            }
            let line = crate::text::chars_to_string(&lines[i]);
            let ghost pre_table = self@;
            match crate::buildlog::read_build_line(line.as_str()) {
                Some(f) => {
                    match debug_entry_from_fields(&f) {
                        Some(e) => {
                            let ghost pre = self.entries@;
                            proof {
                                lemma_views_push(pre, e);
                                let t = crate::buildlog::build_record_of(ls[i as int])->Some_0;
                                assert(debug_rows_of(ls, i as int) == seq![e@] + debug_rows_of(
                                    ls,
                                    i + 1,
                                ));
                                assert(pre_table.push(e@) + debug_rows_of(ls, i + 1) =~= pre_table
                                    + debug_rows_of(ls, i as int));
                            }
                            self.entries.push(e);
                        },
                        None => {
                            proof {
                                assert(debug_rows_of(ls, i as int) =~= debug_rows_of(ls, i + 1));
                            }
                        },
                    }
                },
                None => {
                    proof {
                        assert(debug_rows_of(ls, i as int) =~= debug_rows_of(ls, i + 1));
                    }
                },
            }
            i += 1;
        }
        proof {
            assert(debug_rows_of(ls, ls.len() as int) =~= Seq::<EntryModel>::empty());
            assert(self@ =~= self@ + Seq::<EntryModel>::empty());
        }
    }

    /// Fill in the release artifact of the first row whose package and
    /// version a release record names; `false` — and no change — when no row
    /// matches.
    pub fn apply_release_record(&mut self, package: &str, vs: &str, filename: &str) -> (r: bool)
        ensures
            match first_release_idx(old(self)@, package@, vs@, 0) {
                None => !r && final(self)@ == old(self)@,
                Some(k) => r && final(self)@ == old(self)@.update(
                    k,
                    (EntryModel { release_name: filename@, ..old(self)@[k] }),
                ),
            },
    {
        let pv = str_to_chars(package);
        let vv = str_to_chars(vs);
        let n = self.entries.len();
        let mut i: usize = 0;
        while i < n
            invariant
                pv@ == package@,
                vv@ == vs@,
                n == self.entries@.len(),
                self@.len() == self.entries@.len(),
                0 <= i <= n,
                self@ == old(self)@,
                first_release_idx(self@, package@, vs@, 0) == first_release_idx(
                    self@,
                    package@,
                    vs@,
                    i as int,
                ),
            decreases n - i,
        {
            let e = &self.entries[i];
            proof {
                assert(self@[i as int] == self.entries@[i as int]@);
            }
            let epv = str_to_chars(e.package.as_str());
            let evv = str_to_chars(e.version.text.as_str());
            if chars_eq(&epv, &pv) && chars_eq(&evv, &vv) {
                let updated = MetaEntry {
                    package: e.package.clone(),
                    crate_name: e.crate_name.clone(),
                    version: Version {
                        major: e.version.major,
                        minor: e.version.minor,
                        patch: e.version.patch,
                        pre: e.version.pre.clone(),
                        text: e.version.text.clone(),
                    },
                    features: e.features.clone(),
                    debug_name: e.debug_name.clone(),
                    release_name: filename.to_owned(),
                    path: e.path.clone(),
                };
                proof {
                    assert(updated@ == (EntryModel {
                        release_name: filename@,
                        ..old(self)@[i as int]
                    }));
                }
                let ghost pre = self.entries@;
                vstd::pervasive::VecAdditionalExecFns::set(&mut self.entries, i, updated);
                proof {
                    assert(views(self.entries@) =~= views(pre).update(
                        i as int,
                        (EntryModel { release_name: filename@, ..old(self)@[i as int] }),
                    ));
                }
                return true;
            }
            i += 1;
        }
        false
    }

    /// Work a release-profile build log into the table: each accepted record
    /// fills the first matching row's release artifact, in log order.  A
    /// record with no matching row is dropped — a package can produce
    /// artifacts in one profile only — and its package identifier is
    /// returned as a diagnostic for the caller to report.  Rows are neither
    /// added nor removed, and everything except release artifacts stays
    /// untouched.
    pub fn release(&mut self, txt: &str) -> (diagnostics: Vec<String>)
        ensures
            final(self)@ == released_rows_of(old(self)@, text_lines(txt@), 0),
            views(diagnostics@) == release_diags_of(old(self)@, text_lines(txt@), 0),
            final(self)@.len() == old(self)@.len(),
            forall|k: int|
                0 <= k < old(self)@.len() ==> {
                    let e0 = old(self)@[k];
                    let e1 = #[trigger] final(self)@[k];
                    e1.package == e0.package && e1.crate_name == e0.crate_name && e1.version
                        == e0.version && e1.features == e0.features && e1.debug_name
                        == e0.debug_name && e1.path == e0.path
                },
    {
        let tv = str_to_chars(txt);
        let lines = crate::lines::split_lines(&tv);
        let ghost ls = text_lines(txt@);
        let mut diagnostics: Vec<String> = Vec::new();
        let mut i: usize = 0;
        while i < lines.len()
            invariant
                ls == text_lines(txt@),
                views(lines@) == ls,
                lines@.len() == ls.len(),
                0 <= i <= lines@.len(),
                released_rows_of(self@, ls, i as int) == released_rows_of(old(self)@, ls, 0),
                views(diagnostics@) + release_diags_of(self@, ls, i as int) == release_diags_of(
                    old(self)@,
                    ls,
                    0,
                ),
                self@.len() == old(self)@.len(),
                forall|k: int|
                    0 <= k < old(self)@.len() ==> {
                        let e0 = old(self)@[k];
                        let e1 = #[trigger] self@[k];
                        e1.package == e0.package && e1.crate_name == e0.crate_name && e1.version
                            == e0.version && e1.features == e0.features && e1.debug_name
                            == e0.debug_name && e1.path == e0.path
                    },
            decreases lines@.len() - i,
        {
            proof {
                assert(lines@[i as int]@ == ls[i as int]);
            }
            let line = crate::text::chars_to_string(&lines[i]);
            match crate::buildlog::read_build_line(line.as_str()) {
                Some(f) => {
                    match release_key_from_fields(&f) {
                        Some(k) => {
                            let ghost pre = self@;
                            let ghost pre_diags = diagnostics@;
                            let hit = self.apply_release_record(
                                k.0.as_str(),
                                k.1.as_str(),
                                k.2.as_str(),
                            );
                            if !hit {
                                proof {
                                    lemma_views_push(pre_diags, k.0);
                                    assert(release_diags_of(pre, ls, i as int) == seq![k.0@]
                                        + release_diags_of(pre, ls, i + 1));
                                }
                                diagnostics.push(k.0);
                                proof {
                                    assert(views(diagnostics@) + release_diags_of(
                                        self@,
                                        ls,
                                        i + 1,
                                    ) =~= views(pre_diags) + release_diags_of(pre, ls, i as int));
                                }
                            } else {
                                proof {
                                    lemma_first_release_idx(pre, k.0@, k.1@, 0);
                                    let j = first_release_idx(pre, k.0@, k.1@, 0)->Some_0;
                                    assert(0 <= j < pre.len());
                                    assert(self@ == pre.update(
                                        j,
                                        (EntryModel { release_name: k.2@, ..pre[j] }),
                                    ));
                                    assert(released_rows_of(pre, ls, i as int) == released_rows_of(
                                        self@,
                                        ls,
                                        i + 1,
                                    ));
                                    assert(release_diags_of(pre, ls, i as int) == release_diags_of(
                                        self@,
                                        ls,
                                        i + 1,
                                    ));
                                }
                            }
                        },
                        None => {},
                    }
                },
                None => {},
            }
            i += 1;
        }
        proof {
            assert(released_rows_of(self@, ls, ls.len() as int) == self@);
            assert(release_diags_of(self@, ls, ls.len() as int) =~= Seq::<Seq<char>>::empty());
            assert(views(diagnostics@) =~= views(diagnostics@) + Seq::<Seq<char>>::empty());
        }
        diagnostics
    }
}

/// Where the first matching row lies, if anywhere.
pub proof fn lemma_first_release_idx(es: Seq<EntryModel>, package: Seq<char>, vs: Seq<char>, i: int)
    requires
        0 <= i <= es.len(),
    ensures
        match first_release_idx(es, package, vs, i) {
            Some(k) => i <= k < es.len() && release_match(es[k], package, vs),
            None => forall|j: int| i <= j < es.len() ==> !release_match(#[trigger] es[j], package, vs),
        },
    decreases es.len() - i,
{
    if i < es.len() && !release_match(es[i], package, vs) {
        lemma_first_release_idx(es, package, vs, i + 1);
    }
}

// ---------------------------------------------------------------------------
// Persistence
// ---------------------------------------------------------------------------

/// One row as a stored line: seven comma-joined fields and a newline.  The
/// format does not escape separators inside fields; that is an accepted
/// limitation of the format, not repaired here.
pub open spec fn render_entry(e: EntryModel) -> Seq<char> {
    e.package + seq![','] + e.crate_name + seq![','] + e.version.text + seq![','] + e.features
        + seq![','] + e.debug_name + seq![','] + e.release_name + seq![','] + e.path + seq!['\n']
}

pub open spec fn render_from(es: Seq<EntryModel>, i: int) -> Seq<char>
    decreases es.len() - i,
{
    if 0 <= i < es.len() {
        render_entry(es[i]) + render_from(es, i + 1)
    } else {
        Seq::empty()
    }
}

/// One stored line parsed back into a row: at least six comma-separated
/// fields, the third a version; the seventh (the source path) may be absent
/// in older files, and anything after it is ignored.
pub open spec fn parse_entry_line(l: Seq<char>) -> Option<EntryModel> {
    let f = crate::lines::split_on(l, ',');
    if f.len() < 6 {
        None
    } else {
        match semver_parsed(f[2]) {
            None => None,
            Some(t) => Some(
                EntryModel {
                    package: f[0],
                    crate_name: f[1],
                    version: VersionModel {
                        major: t.0,
                        minor: t.1,
                        patch: t.2,
                        pre: t.3,
                        text: f[2],
                    },
                    features: f[3],
                    debug_name: f[4],
                    release_name: f[5],
                    path: if f.len() >= 7 {
                        f[6]
                    } else {
                        Seq::empty()
                    },
                },
            ),
        }
    }
}

pub open spec fn parse_lines(ls: Seq<Seq<char>>, i: int) -> Option<Seq<EntryModel>>
    decreases ls.len() - i,
{
    if 0 <= i < ls.len() {
        match (parse_entry_line(ls[i]), parse_lines(ls, i + 1)) {
            (Some(e), Some(rest)) => Some(seq![e] + rest),
            _ => None,
        }
    } else {
        Some(Seq::empty())
    }
}

impl Meta {
    /// The whole table as stored text.
    pub fn render(&self) -> (r: String)
        ensures
            r@ == render_from(self@, 0),
    {
        let mut out: Vec<char> = Vec::new();
        let n = self.entries.len();
        let mut i: usize = 0;
        let ghost total = render_from(self@, 0);
        while i < n
            invariant
                n == self.entries@.len(),
                self@.len() == self.entries@.len(),
                0 <= i <= n,
                total == render_from(self@, 0),
                out@ + render_from(self@, i as int) == total,
            decreases n - i,
        {
            let e = &self.entries[i];
            proof {
                assert(self@[i as int] == self.entries@[i as int]@);
            }
            let ghost pre = out@;
            append_str(&mut out, e.package.as_str());
            out.push(',');
            append_str(&mut out, e.crate_name.as_str());
            out.push(',');
            append_str(&mut out, e.version.text.as_str());
            out.push(',');
            append_str(&mut out, e.features.as_str());
            out.push(',');
            append_str(&mut out, e.debug_name.as_str());
            out.push(',');
            append_str(&mut out, e.release_name.as_str());
            out.push(',');
            append_str(&mut out, e.path.as_str());
            out.push('\n');
            proof {
                assert(out@ =~= pre + render_entry(self@[i as int]));
                assert(out@ + render_from(self@, i + 1) =~= pre + render_from(self@, i as int));
            }
            i += 1;
        }
        proof {
            assert(render_from(self@, n as int) =~= Seq::<char>::empty());
            assert(out@ =~= out@ + Seq::<char>::empty());
        }
        chars_to_string(&out)
    }

    /// Parse stored text back into a table.  `Err(i)` names the first line
    /// that is not a stored row — too few fields, or a version that does not
    /// parse; on such text the whole load fails.
    pub fn parse_meta_text(contents: &str) -> (r: Result<Meta, usize>)
        ensures
            match r {
                Ok(m) => parse_lines(text_lines(contents@), 0) == Some(m@),
                Err(i) => {
                    &&& 0 <= i < text_lines(contents@).len()
                    &&& parse_entry_line(text_lines(contents@)[i as int]).is_none()
                    &&& forall|k: int|
                        0 <= k < i ==> parse_entry_line(
                            #[trigger] text_lines(contents@)[k],
                        ).is_some()
                    &&& parse_lines(text_lines(contents@), 0).is_none()
                },
            },
    {
        let cv = str_to_chars(contents);
        let lines = crate::lines::split_lines(&cv);
        let ghost ls = text_lines(contents@);
        let mut entries: Vec<MetaEntry> = Vec::new();
        let n = lines.len();
        let mut i: usize = 0;
        proof {
            assert(views(entries@) =~= Seq::<EntryModel>::empty());
        }
        while i < n
            invariant
                ls == text_lines(contents@),
                views(lines@) == ls,
                lines@.len() == ls.len(),
                n == lines@.len(),
                0 <= i <= n,
                forall|k: int| 0 <= k < i ==> parse_entry_line(#[trigger] ls[k]).is_some(),
                forall|rest: Seq<EntryModel>|
                    parse_lines(ls, i as int) == Some(rest) ==> parse_lines(ls, 0) == Some(
                        views(entries@) + rest,
                    ),
                parse_lines(ls, i as int).is_none() ==> parse_lines(ls, 0).is_none(),
            decreases n - i,
        {
            proof {
                assert(lines@[i as int]@ == ls[i as int]);
            }
            match parse_one_line(&lines[i]) {
                Some(e) => {
                    let ghost pre = entries@;
                    proof {
                        lemma_views_push(pre, e);
                        assert forall|rest: Seq<EntryModel>|
                            parse_lines(ls, i + 1) == Some(rest) implies parse_lines(ls, 0) == Some(
                            views(pre.push(e)) + rest,
                        ) by {
                            assert(parse_lines(ls, i as int) == Some(seq![e@] + rest));
                            assert(views(pre) + (seq![e@] + rest) =~= views(pre).push(e@) + rest);
                        }
                    }
                    entries.push(e);
                },
                None => {
                    proof {
                        assert(parse_lines(ls, i as int).is_none());
                    }
                    return Err(i);
                },
            }
            i += 1;
        }
        proof {
            assert(parse_lines(ls, n as int) == Some(Seq::<EntryModel>::empty()));
            assert(views(entries@) + Seq::<EntryModel>::empty() =~= views(entries@));
        }
        Ok(Meta { entries })
    }
}

/// Parse one stored line; executable counterpart of [`parse_entry_line`].
fn parse_one_line(line: &Vec<char>) -> (r: Option<MetaEntry>)
    ensures
        match (parse_entry_line(line@), r) {
            (Some(m), Some(e)) => e@ == m,
            (None, None) => true,
            _ => false,
        },
{
    let fields = crate::lines::split_fields(line, ',');
    proof {
        assert(fields@.len() == views(fields@).len());
    }
    if fields.len() < 6 {
        return None;
    }
    proof {
        assert(views(fields@)[2] == fields@[2]@);
    }
    let vtext = chars_to_string(&fields[2]);
    let version = match Version::parse(vtext.as_str()) {
        None => {
            return None;
        },
        Some(v) => v,
    };
    let path = if fields.len() >= 7 {
        chars_to_string(&fields[6])
    } else {
        String::new()
    };
    proof {
        assert(views(fields@)[0] == fields@[0]@);
        assert(views(fields@)[1] == fields@[1]@);
        assert(views(fields@)[3] == fields@[3]@);
        assert(views(fields@)[4] == fields@[4]@);
        assert(views(fields@)[5] == fields@[5]@);
        if fields@.len() >= 7 {
            assert(views(fields@)[6] == fields@[6]@);
        }
    }
    Some(
        MetaEntry {
            package: chars_to_string(&fields[0]),
            crate_name: chars_to_string(&fields[1]),
            version,
            features: chars_to_string(&fields[3]),
            debug_name: chars_to_string(&fields[4]),
            release_name: chars_to_string(&fields[5]),
            path,
        },
    )
}

/// Append the characters of a string slice.
fn append_str(out: &mut Vec<char>, s: &str)
    ensures
        final(out)@ == old(out)@ + s@,
{
    let sv = str_to_chars(s);
    crate::text::append_chars(out, &sv);
}

// ---------------------------------------------------------------------------
// The persistence round trip
// ---------------------------------------------------------------------------

/// A row the flat format can carry without loss: no field holds the field or
/// line separator, no trailing carriage return hides in the path, and the
/// version agrees with its text.
pub open spec fn entry_storable(e: EntryModel) -> bool {
    &&& char_free(e.package, ',') && char_free(e.package, '\n')
    &&& char_free(e.crate_name, ',') && char_free(e.crate_name, '\n')
    &&& char_free(e.version.text, ',') && char_free(e.version.text, '\n')
    &&& char_free(e.features, ',') && char_free(e.features, '\n')
    &&& char_free(e.debug_name, ',') && char_free(e.debug_name, '\n')
    &&& char_free(e.release_name, ',') && char_free(e.release_name, '\n')
    &&& char_free(e.path, ',') && char_free(e.path, '\n') && char_free(e.path, '\r')
    &&& version_wf(e.version)
}

/// Parsing one rendered line reconstructs the row.
#[verifier::rlimit(100)]
proof fn lemma_render_parse_line(e: EntryModel)
    requires
        entry_storable(e),
    ensures
        ({
            let line = render_entry(e);
            &&& char_free(line.drop_last(), '\n')
            &&& line.last() == '\n'
            &&& strip_cr(line.drop_last()) == line.drop_last()
            &&& parse_entry_line(line.drop_last()) == Some(e)
        }),
{
    let line = render_entry(e);
    let body = e.package + seq![','] + e.crate_name + seq![','] + e.version.text + seq![',']
        + e.features + seq![','] + e.debug_name + seq![','] + e.release_name + seq![','] + e.path;
    assert(line =~= body + seq!['\n']);
    assert(line.drop_last() =~= body);
    let comma = seq![','];
    assert(char_free(comma, '\n')) by {
        assert(forall|k: int| 0 <= k < comma.len() ==> comma[k] != '\n');
    }
    // the body holds no newline
    crate::text::lemma_char_free_concat(e.package, comma, '\n');
    crate::text::lemma_char_free_concat(e.package + comma, e.crate_name, '\n');
    crate::text::lemma_char_free_concat(e.package + comma + e.crate_name, comma, '\n');
    crate::text::lemma_char_free_concat(e.package + comma + e.crate_name + comma, e.version.text, '\n');
    crate::text::lemma_char_free_concat(
        e.package + comma + e.crate_name + comma + e.version.text,
        comma,
        '\n',
    );
    crate::text::lemma_char_free_concat(
        e.package + comma + e.crate_name + comma + e.version.text + comma,
        e.features,
        '\n',
    );
    crate::text::lemma_char_free_concat(
        e.package + comma + e.crate_name + comma + e.version.text + comma + e.features,
        comma,
        '\n',
    );
    crate::text::lemma_char_free_concat(
        e.package + comma + e.crate_name + comma + e.version.text + comma + e.features + comma,
        e.debug_name,
        '\n',
    );
    crate::text::lemma_char_free_concat(
        e.package + comma + e.crate_name + comma + e.version.text + comma + e.features + comma
            + e.debug_name,
        comma,
        '\n',
    );
    crate::text::lemma_char_free_concat(
        e.package + comma + e.crate_name + comma + e.version.text + comma + e.features + comma
            + e.debug_name + comma,
        e.release_name,
        '\n',
    );
    crate::text::lemma_char_free_concat(
        e.package + comma + e.crate_name + comma + e.version.text + comma + e.features + comma
            + e.debug_name + comma + e.release_name,
        comma,
        '\n',
    );
    crate::text::lemma_char_free_concat(
        e.package + comma + e.crate_name + comma + e.version.text + comma + e.features + comma
            + e.debug_name + comma + e.release_name + comma,
        e.path,
        '\n',
    );
    assert(char_free(body, '\n'));
    // no carriage return ends the body
    assert(strip_cr(body) == body) by {
        if body.len() > 0 && body.last() == '\r' {
            if e.path.len() > 0 {
                assert(body.last() == e.path.last());
            } else {
                assert(body.last() == ',');
            }
        }
    }
    // split the body back into its seven fields
    let f = crate::lines::split_on(body, ',');
    let r1 = e.crate_name + comma + e.version.text + comma + e.features + comma + e.debug_name
        + comma + e.release_name + comma + e.path;
    let r2 = e.version.text + comma + e.features + comma + e.debug_name + comma + e.release_name
        + comma + e.path;
    let r3 = e.features + comma + e.debug_name + comma + e.release_name + comma + e.path;
    let r4 = e.debug_name + comma + e.release_name + comma + e.path;
    let r5 = e.release_name + comma + e.path;
    assert(body =~= e.package + comma + r1);
    crate::lines::lemma_split_on_step(e.package, r1, ',');
    assert(r1 =~= e.crate_name + comma + r2);
    crate::lines::lemma_split_on_step(e.crate_name, r2, ',');
    assert(r2 =~= e.version.text + comma + r3);
    crate::lines::lemma_split_on_step(e.version.text, r3, ',');
    assert(r3 =~= e.features + comma + r4);
    crate::lines::lemma_split_on_step(e.features, r4, ',');
    assert(r4 =~= e.debug_name + comma + r5);
    crate::lines::lemma_split_on_step(e.debug_name, r5, ',');
    assert(r5 =~= e.release_name + comma + e.path);
    crate::lines::lemma_split_on_step(e.release_name, e.path, ',');
    crate::lines::lemma_split_on_last(e.path, ',');
    assert(f =~= seq![
        e.package,
        e.crate_name,
        e.version.text,
        e.features,
        e.debug_name,
        e.release_name,
        e.path,
    ]);
    assert(parse_entry_line(body) == Some(e));
}

/// Lines indexed past a prepended element are the lines of the rest.
proof fn lemma_parse_lines_shift(x: Seq<char>, rl: Seq<Seq<char>>, i: int)
    requires
        0 <= i <= rl.len(),
    ensures
        parse_lines(seq![x] + rl, i + 1) == parse_lines(rl, i),
    decreases rl.len() - i,
{
    let ls = seq![x] + rl;
    if i < rl.len() {
        assert(ls[i + 1] == rl[i]);
        lemma_parse_lines_shift(x, rl, i + 1);
    }
}

/// Persistence round trip: parsing rendered rows reconstructs them exactly,
/// as long as no field holds a separator.
pub proof fn lemma_meta_round_trip(models: Seq<EntryModel>)
    requires
        forall|k: int| 0 <= k < models.len() ==> entry_storable(#[trigger] models[k]),
    ensures
        parse_lines(text_lines(render_from(models, 0)), 0) == Some(models),
{
    lemma_meta_round_trip_from(models, 0);
    assert(models.skip(0) =~= models);
}

proof fn lemma_meta_round_trip_from(models: Seq<EntryModel>, i: int)
    requires
        0 <= i <= models.len(),
        forall|k: int| 0 <= k < models.len() ==> entry_storable(#[trigger] models[k]),
    ensures
        parse_lines(text_lines(render_from(models, i)), 0) == Some(models.skip(i)),
    decreases models.len() - i,
{
    if i == models.len() {
        assert(render_from(models, i) =~= Seq::<char>::empty());
        assert(text_lines(Seq::<char>::empty()) =~= Seq::<Seq<char>>::empty());
        assert(models.skip(i) =~= Seq::<EntryModel>::empty());
    } else {
        lemma_meta_round_trip_from(models, i + 1);
        let e = models[i];
        lemma_render_parse_line(e);
        let line = render_entry(e);
        let body = line.drop_last();
        let rest = render_from(models, i + 1);
        assert(render_from(models, i) =~= body + seq!['\n'] + rest);
        crate::lines::lemma_text_lines_step(body, rest);
        let rl = text_lines(rest);
        let ls = text_lines(render_from(models, i));
        assert(ls =~= seq![body] + rl);
        assert(ls[0] == body);
        lemma_parse_lines_shift(body, rl, 0);
        assert(parse_lines(ls, 1) == parse_lines(rl, 0));
        assert(parse_lines(ls, 0) == Some(seq![e] + models.skip(i + 1)));
        assert(seq![e] + models.skip(i + 1) =~= models.skip(i));
    }
}

// ---------------------------------------------------------------------------
// Listing the cached crates
// ---------------------------------------------------------------------------

/// Where a version text stands in the listing: by the precedence of its
/// parse, equal precedence falling back to the text itself; text that is no
/// version sorts after every version, ordered among itself by the text.
pub open spec fn vtext_lt(t1: Seq<char>, t2: Seq<char>) -> bool {
    match (semver_parsed(t1), semver_parsed(t2)) {
        (Some(x), Some(y)) => {
            let v1 = VersionModel { major: x.0, minor: x.1, patch: x.2, pre: x.3, text: t1 };
            let v2 = VersionModel { major: y.0, minor: y.1, patch: y.2, pre: y.3, text: t2 };
            version_lt(v1, v2) || (version_eq(v1, v2) && seq_lt(t1, t2))
        },
        (Some(_), None) => true,
        (None, Some(_)) => false,
        (None, None) => seq_lt(t1, t2),
    }
}

pub proof fn lemma_vtext_lt_trichotomy(t1: Seq<char>, t2: Seq<char>)
    ensures
        vtext_lt(t1, t2) || vtext_lt(t2, t1) || t1 == t2,
        vtext_lt(t1, t2) ==> !vtext_lt(t2, t1) && t1 != t2,
        vtext_lt(t2, t1) ==> !vtext_lt(t1, t2) && t1 != t2,
{
    crate::text::lemma_seq_lt_trichotomy(t1, t2);
    match (semver_parsed(t1), semver_parsed(t2)) {
        (Some(x), Some(y)) => {
            let v1 = VersionModel { major: x.0, minor: x.1, patch: x.2, pre: x.3, text: t1 };
            let v2 = VersionModel { major: y.0, minor: y.1, patch: y.2, pre: y.3, text: t2 };
            crate::version::lemma_version_trichotomy(v1, v2);
            if t1 == t2 {
                assert(x == y);
                assert(version_eq(v1, v2));
            }
        },
        _ => {},
    }
}

pub proof fn lemma_vtext_lt_trans(t1: Seq<char>, t2: Seq<char>, t3: Seq<char>)
    requires
        vtext_lt(t1, t2),
        vtext_lt(t2, t3),
    ensures
        vtext_lt(t1, t3),
{
    match (semver_parsed(t1), semver_parsed(t2), semver_parsed(t3)) {
        (Some(x), Some(y), Some(z)) => {
            let v1 = VersionModel { major: x.0, minor: x.1, patch: x.2, pre: x.3, text: t1 };
            let v2 = VersionModel { major: y.0, minor: y.1, patch: y.2, pre: y.3, text: t2 };
            let v3 = VersionModel { major: z.0, minor: z.1, patch: z.2, pre: z.3, text: t3 };
            if version_lt(v1, v2) && version_lt(v2, v3) {
                crate::version::lemma_version_lt_trans(v1, v2, v3);
            } else if version_lt(v1, v2) && version_eq(v2, v3) {
                assert(version_lt(v1, v3) == version_lt(v1, v2));
            } else if version_eq(v1, v2) && version_lt(v2, v3) {
                assert(version_lt(v1, v3) == version_lt(v2, v3));
            } else {
                assert(version_eq(v1, v3));
                crate::text::lemma_seq_lt_trans(t1, t2, t3);
            }
        },
        (Some(_), Some(_), None) => {},
        (None, None, None) => {
            crate::text::lemma_seq_lt_trans(t1, t2, t3);
        },
        _ => {},
    }
}

/// Order on `(package, version text)` pairs: by package, then by the
/// version's precedence.
pub open spec fn listing_lt(a: (Seq<char>, Seq<char>), b: (Seq<char>, Seq<char>)) -> bool {
    seq_lt(a.0, b.0) || (a.0 == b.0 && vtext_lt(a.1, b.1))
}

pub proof fn lemma_listing_lt_trichotomy(a: (Seq<char>, Seq<char>), b: (Seq<char>, Seq<char>))
    ensures
        listing_lt(a, b) || listing_lt(b, a) || a == b,
        listing_lt(a, b) ==> !listing_lt(b, a) && a != b,
        listing_lt(b, a) ==> !listing_lt(a, b) && a != b,
{
    crate::text::lemma_seq_lt_trichotomy(a.0, b.0);
    lemma_vtext_lt_trichotomy(a.1, b.1);
}

pub proof fn lemma_listing_lt_trans(
    a: (Seq<char>, Seq<char>),
    b: (Seq<char>, Seq<char>),
    c: (Seq<char>, Seq<char>),
)
    requires
        listing_lt(a, b),
        listing_lt(b, c),
    ensures
        listing_lt(a, c),
{
    crate::text::lemma_seq_lt_trichotomy(a.0, b.0);
    crate::text::lemma_seq_lt_trichotomy(b.0, c.0);
    if seq_lt(a.0, b.0) && seq_lt(b.0, c.0) {
        crate::text::lemma_seq_lt_trans(a.0, b.0, c.0);
    } else if a.0 == b.0 && b.0 == c.0 {
        lemma_vtext_lt_trans(a.1, b.1, c.1);
    }
}

/// Pairs strictly increasing in [`listing_lt`].
pub open spec fn listing_sorted(xs: Seq<(Seq<char>, Seq<char>)>) -> bool {
    forall|i: int, j: int| 0 <= i < j < xs.len() ==> listing_lt(xs[i], xs[j])
}

/// Three-way comparison of listing pairs in the order of [`listing_lt`].
fn listing_cmp(a: &(String, String), b: &(String, String)) -> (r: i32)
    ensures
        r == -1 ==> listing_lt((a.0@, a.1@), (b.0@, b.1@)),
        r == 1 ==> listing_lt((b.0@, b.1@), (a.0@, a.1@)),
        r == 0 ==> (a.0@, a.1@) == (b.0@, b.1@),
        r == -1 || r == 0 || r == 1,
{
    let pa = str_to_chars(a.0.as_str());
    let pb = str_to_chars(b.0.as_str());
    let c0 = crate::text::chars_cmp(&pa, &pb);
    if c0 != 0 {
        return c0;
    }
    // same package: the precedence of the version texts decides
    let ta = str_to_chars(a.1.as_str());
    let tb = str_to_chars(b.1.as_str());
    match (Version::parse(a.1.as_str()), Version::parse(b.1.as_str())) {
        (Some(x), Some(y)) => {
            let c = version_cmp(&x, &y);
            if c != 0 {
                c
            } else {
                crate::text::chars_cmp(&ta, &tb)
            }
        },
        (Some(_), None) => -1,
        (None, Some(_)) => 1,
        (None, None) => crate::text::chars_cmp(&ta, &tb),
    }
}

/// Insert into a strictly sorted pair vector, skipping a pair already
/// present.
fn pair_sorted_insert(v: &mut Vec<(String, String)>, x: (String, String))
    requires
        listing_sorted(crate::snippet::alias_views(old(v)@)),
    ensures
        listing_sorted(crate::snippet::alias_views(final(v)@)),
        forall|y: (Seq<char>, Seq<char>)|
            crate::snippet::alias_views(final(v)@).contains(y) <==> (crate::snippet::alias_views(
                old(v)@,
            ).contains(y) || y == (x.0@, x.1@)),
{
    let ghost xv = (x.0@, x.1@);
    let mut pos: usize = 0;
    let mut insert_here = false;
    loop
        invariant
            xv == (x.0@, x.1@),
            listing_sorted(crate::snippet::alias_views(v@)),
            v@ == old(v)@,
            0 <= pos <= v@.len(),
            forall|k: int|
                0 <= k < pos ==> listing_lt(#[trigger] crate::snippet::alias_views(v@)[k], xv),
            insert_here ==> pos < v@.len() && listing_lt(
                xv,
                crate::snippet::alias_views(v@)[pos as int],
            ),
        ensures
            listing_sorted(crate::snippet::alias_views(v@)),
            v@ == old(v)@,
            0 <= pos <= v@.len(),
            forall|k: int|
                0 <= k < pos ==> listing_lt(#[trigger] crate::snippet::alias_views(v@)[k], xv),
            insert_here || pos == v@.len(),
            insert_here ==> pos < v@.len() && listing_lt(
                xv,
                crate::snippet::alias_views(v@)[pos as int],
            ),
        decreases v@.len() - pos + (if insert_here {
            0int
        } else {
            1int
        }),
    {
        if insert_here || pos == v.len() {
            break;
        }
        proof {
            assert(crate::snippet::alias_views(v@)[pos as int] == (
                v@[pos as int].0@,
                v@[pos as int].1@,
            ));
        }
        let c = listing_cmp(&v[pos], &x);
        if c == 0 {
            proof {
                assert(crate::snippet::alias_views(v@)[pos as int] == xv);
                assert(crate::snippet::alias_views(v@).contains(xv));
            }
            return;
        }
        if c == -1 {
            pos += 1;
        } else {
            insert_here = true;
        }
    }
    proof {
        assert forall|j: int|
            pos <= j < crate::snippet::alias_views(v@).len() implies listing_lt(
            xv,
            #[trigger] crate::snippet::alias_views(v@)[j],
        ) by {
            if j > pos {
                lemma_listing_lt_trans(
                    xv,
                    crate::snippet::alias_views(v@)[pos as int],
                    crate::snippet::alias_views(v@)[j],
                );
            }
        }
    }
    let ghost pre = v@;
    v.insert(pos, x);
    proof {
        let nv = crate::snippet::alias_views(v@);
        let ov = crate::snippet::alias_views(pre);
        assert(nv =~= ov.insert(pos as int, xv));
        assert forall|a: int, b: int| 0 <= a < b < nv.len() implies listing_lt(nv[a], nv[b]) by {
            if a < pos && b == pos {
                assert(nv[a] == ov[a] && nv[b] == xv);
            } else if a == pos {
                assert(nv[a] == xv && nv[b] == ov[b - 1]);
            } else if a < pos && b > pos {
                assert(nv[a] == ov[a] && nv[b] == ov[b - 1]);
                lemma_listing_lt_trans(ov[a], xv, ov[b - 1]);
            } else if b < pos {
                assert(nv[a] == ov[a] && nv[b] == ov[b]);
            } else {
                assert(nv[a] == ov[a - 1] && nv[b] == ov[b - 1]);
            }
        }
        assert forall|y: (Seq<char>, Seq<char>)| nv.contains(y) <==> (ov.contains(y) || y == xv) by {
            if nv.contains(y) {
                let i = choose|i: int| 0 <= i < nv.len() && nv[i] == y;
                if i < pos {
                    assert(ov[i] == y);
                    assert(ov.contains(y));
                } else if i > pos {
                    assert(ov[i - 1] == y);
                    assert(ov.contains(y));
                }
            }
            if ov.contains(y) {
                let i = choose|i: int| 0 <= i < ov.len() && ov[i] == y;
                if i < pos {
                    assert(nv[i] == y);
                } else {
                    assert(nv[i + 1] == y);
                }
                assert(nv.contains(y));
            }
            if y == xv {
                assert(nv[pos as int] == y);
                assert(nv.contains(y));
            }
        }
    }
}

impl Meta {
    /// The cached crates and their versions, one `(package, version)` pair
    /// per distinct pair, sorted by package and version precedence.
    pub fn crate_list(&self) -> (r: Vec<(String, String)>)
        ensures
            listing_sorted(crate::snippet::alias_views(r@)),
            forall|y: (Seq<char>, Seq<char>)|
                crate::snippet::alias_views(r@).contains(y) <==> exists|k: int|
                    0 <= k < self@.len() && ((#[trigger] self@[k]).package, self@[k].version.text)
                        == y,
    {
        let mut r: Vec<(String, String)> = Vec::new();
        let mut i: usize = 0;
        proof {
            assert(crate::snippet::alias_views(r@) =~= Seq::<(Seq<char>, Seq<char>)>::empty());
        }
        while i < self.entries.len()
            invariant
                0 <= i <= self.entries@.len(),
                self@.len() == self.entries@.len(),
                listing_sorted(crate::snippet::alias_views(r@)),
                forall|y: (Seq<char>, Seq<char>)|
                    crate::snippet::alias_views(r@).contains(y) <==> exists|k: int|
                        0 <= k < i && ((#[trigger] self@[k]).package, self@[k].version.text) == y,
            decreases self.entries@.len() - i,
        {
            let e = &self.entries[i];
            proof {
                assert(self@[i as int] == self.entries@[i as int]@);
            }
            pair_sorted_insert(&mut r, (e.package.clone(), e.version.text.clone()));
            proof {
                assert forall|y: (Seq<char>, Seq<char>)|
                    crate::snippet::alias_views(r@).contains(y) <==> exists|k: int|
                        0 <= k < i + 1 && ((#[trigger] self@[k]).package, self@[k].version.text)
                            == y by {
                    if crate::snippet::alias_views(r@).contains(y) {
                        if y == (self@[i as int].package, self@[i as int].version.text) {
                            let w: int = i as int;
                            assert(0 <= w < i + 1 && (self@[w].package, self@[w].version.text)
                                == y);
                        } else {
                            let k = choose|k: int|
                                0 <= k < i && ((#[trigger] self@[k]).package, self@[k].version.text) == y;
                            assert(0 <= k < i + 1 && (self@[k].package, self@[k].version.text)
                                == y);
                        }
                    }
                    if exists|k: int|
                        0 <= k < i + 1 && ((#[trigger] self@[k]).package, self@[k].version.text)
                            == y {
                        let k = choose|k: int|
                            0 <= k < i + 1 && ((#[trigger] self@[k]).package, self@[k].version.text) == y;
                        if k < i {
                        } else {
                            assert(y == (self@[i as int].package, self@[i as int].version.text));
                        }
                    }
                }
            }
            i += 1;
        }
        r
    }

    /// The cached versions of one crate, matched by package identifier or by
    /// the normalized link name: one `(package, version)` pair per distinct
    /// pair, sorted as [`Meta::crate_list`] sorts them.
    pub fn crate_list_for(&self, name: &str) -> (r: Vec<(String, String)>)
        ensures
            listing_sorted(crate::snippet::alias_views(r@)),
            forall|y: (Seq<char>, Seq<char>)|
                crate::snippet::alias_views(r@).contains(y) <==> exists|k: int|
                    0 <= k < self@.len() && matches_name(#[trigger] self@[k], name@) && (
                    self@[k].package,
                    self@[k].version.text,
                ) == y,
    {
        let nv = str_to_chars(name);
        let mut r: Vec<(String, String)> = Vec::new();
        let mut i: usize = 0;
        proof {
            assert(crate::snippet::alias_views(r@) =~= Seq::<(Seq<char>, Seq<char>)>::empty());
        }
        while i < self.entries.len()
            invariant
                nv@ == name@,
                0 <= i <= self.entries@.len(),
                self@.len() == self.entries@.len(),
                listing_sorted(crate::snippet::alias_views(r@)),
                forall|y: (Seq<char>, Seq<char>)|
                    crate::snippet::alias_views(r@).contains(y) <==> exists|k: int|
                        0 <= k < i && matches_name(#[trigger] self@[k], name@) && (
                        self@[k].package,
                        self@[k].version.text,
                    ) == y,
            decreases self.entries@.len() - i,
        {
            let e = &self.entries[i];
            proof {
                assert(self@[i as int] == self.entries@[i as int]@);
            }
            let pv = str_to_chars(e.package.as_str());
            let cv = str_to_chars(e.crate_name.as_str());
            let is_match = chars_eq(&pv, &nv) || chars_eq(&cv, &nv);
            if is_match {
                pair_sorted_insert(&mut r, (e.package.clone(), e.version.text.clone()));
            }
            proof {
                assert forall|y: (Seq<char>, Seq<char>)|
                    crate::snippet::alias_views(r@).contains(y) <==> exists|k: int|
                        0 <= k < i + 1 && matches_name(#[trigger] self@[k], name@) && (
                        self@[k].package,
                        self@[k].version.text,
                    ) == y by {
                    if crate::snippet::alias_views(r@).contains(y) {
                        if is_match && y == (self@[i as int].package, self@[i as int].version.text) {
                            let w: int = i as int;
                            assert(0 <= w < i + 1 && matches_name(self@[w], name@) && (
                            self@[w].package,
                            self@[w].version.text,
                        ) == y);
                        } else {
                            let k = choose|k: int|
                                0 <= k < i && matches_name(#[trigger] self@[k], name@) && (
                                self@[k].package,
                                self@[k].version.text,
                            ) == y;
                            assert(0 <= k < i + 1 && matches_name(self@[k], name@) && (
                            self@[k].package,
                            self@[k].version.text,
                        ) == y);
                        }
                    }
                    if exists|k: int|
                        0 <= k < i + 1 && matches_name(#[trigger] self@[k], name@) && (
                        self@[k].package,
                        self@[k].version.text,
                    ) == y {
                        let k = choose|k: int|
                            0 <= k < i + 1 && matches_name(#[trigger] self@[k], name@) && (
                            self@[k].package,
                            self@[k].version.text,
                        ) == y;
                        if k < i {
                        } else {
                            assert(is_match);
                            assert(y == (self@[i as int].package, self@[i as int].version.text));
                        }
                    }
                }
            }
            i += 1;
        }
        r
    }
}

} // verus!
