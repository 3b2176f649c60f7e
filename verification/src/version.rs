//! Parsed semantic versions.
//!
//! The text is kept exactly as written — the store persists it verbatim —
//! and the parsed numeric parts and pre-release identifiers carry the
//! ordering: semantic-version precedence, where pre-release identifiers are
//! dot-separated, purely numeric identifiers compare by value, numeric ones
//! precede alphanumeric ones, and a shorter identifier list precedes its
//! extensions.  Build metadata stays inside the text and does not order
//! versions.

use vstd::prelude::*;
use crate::lines::{lemma_join_split, split_on};
use crate::text::{
    chars_cmp, lemma_seq_lt_trans, lemma_seq_lt_trichotomy, seq_lt, str_to_chars, subvec,
};
use vstd::string::StrSliceExecFns;

verus! {

/// What semver's parser returns on a version string: major, minor and patch
/// numbers and the pre-release identifiers, or nothing when the text is not
/// a valid version.  A function of the text alone.
pub uninterp spec fn semver_parsed(s: Seq<char>) -> Option<(u64, u64, u64, Seq<char>)>;

/// A parsed semantic version.
pub struct Version {
    pub major: u64,
    pub minor: u64,
    pub patch: u64,
    /// The pre-release identifiers; empty when the version is a release.
    pub pre: String,
    /// The version exactly as written.
    pub text: String,
}

/// The mathematical value of a [`Version`].
pub ghost struct VersionModel {
    pub major: u64,
    pub minor: u64,
    pub patch: u64,
    pub pre: Seq<char>,
    pub text: Seq<char>,
}

impl View for Version {
    type V = VersionModel;

    open spec fn view(&self) -> VersionModel {
        VersionModel {
            major: self.major,
            minor: self.minor,
            patch: self.patch,
            pre: self.pre@,
            text: self.text@,
        }
    }
}

/// The parsed parts agree with the text.
pub open spec fn version_wf(v: VersionModel) -> bool {
    semver_parsed(v.text) == Some((v.major, v.minor, v.patch, v.pre))
}

/// Relies on semver's `Version::parse`: parses canonical semantic-version
/// text into its numeric parts and pre-release identifiers.
#[verifier::external_body]
fn semver_parse_raw(s: &str) -> (r: Option<(u64, u64, u64, String)>)
    ensures
        match (semver_parsed(s@), r) {
            (Some(t), Some(q)) => q.0 == t.0 && q.1 == t.1 && q.2 == t.2 && q.3@ == t.3,
            (None, None) => true,
            _ => false,
        },
{
    match semver::Version::parse(s) {
        Ok(v) => Some((v.major, v.minor, v.patch, v.pre.as_str().to_string())),
        Err(_) => None,
    }
}

impl Version {
    /// Parse version text; `None` exactly when semver rejects it.
    pub fn parse(s: &str) -> (r: Option<Version>)
        ensures
            match (semver_parsed(s@), r) {
                (Some(t), Some(v)) => v@.major == t.0 && v@.minor == t.1 && v@.patch == t.2
                    && v@.pre == t.3 && v@.text == s@ && version_wf(v@),
                (None, None) => true,
                _ => false,
            },
    {
        match semver_parse_raw(s) {
            Some(q) => Some(
                Version { major: q.0, minor: q.1, patch: q.2, pre: q.3, text: s.to_owned() },
            ),
            None => None,
        }
    }
}

// ---------------------------------------------------------------------------
// Pre-release identifiers
// ---------------------------------------------------------------------------

pub open spec fn is_digit_char(c: char) -> bool {
    48 <= c as u32 && c as u32 <= 57
}

/// A purely numeric identifier.
pub open spec fn is_num_ident(s: Seq<char>) -> bool {
    s.len() > 0 && forall|k: int| 0 <= k < s.len() ==> is_digit_char(s[k])
}

/// `s` with its leading zeros removed: the significant digits of a numeral.
pub open spec fn strip_zeros(s: Seq<char>) -> Seq<char>
    decreases s.len(),
{
    if s.len() > 0 && s[0] == '0' {
        strip_zeros(s.skip(1))
    } else {
        s
    }
}

/// Strict order on single identifiers.  Two numerals compare by value —
/// fewer significant digits is smaller, equally many compare digit-wise —
/// a numeral precedes an alphanumeric identifier, and alphanumeric ones
/// compare by code point.  (Equal-valued numerals spelt differently are
/// tie-broken textually to keep the order total; canonical version text has
/// no leading zeros, so the tie-break never decides there.)
pub open spec fn ident_lt(a: Seq<char>, b: Seq<char>) -> bool {
    if is_num_ident(a) && is_num_ident(b) {
        ||| strip_zeros(a).len() < strip_zeros(b).len()
        ||| (strip_zeros(a).len() == strip_zeros(b).len() && seq_lt(strip_zeros(a), strip_zeros(b)))
        ||| (strip_zeros(a) == strip_zeros(b) && seq_lt(a, b))
    } else if is_num_ident(a) {
        true
    } else if is_num_ident(b) {
        false
    } else {
        seq_lt(a, b)
    }
}

pub proof fn lemma_ident_lt_trichotomy(a: Seq<char>, b: Seq<char>)
    ensures
        ident_lt(a, b) || ident_lt(b, a) || a == b,
        ident_lt(a, b) ==> !ident_lt(b, a) && a != b,
        ident_lt(b, a) ==> !ident_lt(a, b) && a != b,
{
    lemma_seq_lt_trichotomy(a, b);
    lemma_seq_lt_trichotomy(strip_zeros(a), strip_zeros(b));
}

pub proof fn lemma_ident_lt_trans(a: Seq<char>, b: Seq<char>, c: Seq<char>)
    requires
        ident_lt(a, b),
        ident_lt(b, c),
    ensures
        ident_lt(a, c),
{
    if is_num_ident(a) && is_num_ident(b) && is_num_ident(c) {
        let sa = strip_zeros(a);
        let sb = strip_zeros(b);
        let sc = strip_zeros(c);
        if sa.len() == sb.len() && seq_lt(sa, sb) && sb.len() == sc.len() && seq_lt(sb, sc) {
            lemma_seq_lt_trans(sa, sb, sc);
        }
        if sa == sb && seq_lt(a, b) && sb == sc && seq_lt(b, c) {
            lemma_seq_lt_trans(a, b, c);
        }
        lemma_seq_lt_trichotomy(sa, sb);
        lemma_seq_lt_trichotomy(sb, sc);
    } else if !is_num_ident(a) && !is_num_ident(b) && !is_num_ident(c) {
        lemma_seq_lt_trans(a, b, c);
    }
}

/// Strict lexicographic order on identifier lists: identifier by identifier,
/// a list that runs out first being smaller.
pub open spec fn ids_lt(xs: Seq<Seq<char>>, ys: Seq<Seq<char>>) -> bool
    decreases xs.len(),
{
    if ys.len() == 0 {
        false
    } else if xs.len() == 0 {
        true
    } else if ident_lt(xs[0], ys[0]) {
        true
    } else if xs[0] != ys[0] {
        false
    } else {
        ids_lt(xs.skip(1), ys.skip(1))
    }
}

pub proof fn lemma_ids_lt_trichotomy(xs: Seq<Seq<char>>, ys: Seq<Seq<char>>)
    ensures
        ids_lt(xs, ys) || ids_lt(ys, xs) || xs == ys,
        ids_lt(xs, ys) ==> !ids_lt(ys, xs) && xs != ys,
        ids_lt(ys, xs) ==> !ids_lt(xs, ys) && xs != ys,
    decreases xs.len(),
{
    if xs.len() == 0 && ys.len() == 0 {
        assert(xs =~= ys);
    } else if xs.len() > 0 && ys.len() > 0 {
        lemma_ident_lt_trichotomy(xs[0], ys[0]);
        if xs[0] == ys[0] {
            lemma_ids_lt_trichotomy(xs.skip(1), ys.skip(1));
            if xs.skip(1) == ys.skip(1) {
                assert(xs =~= ys) by {
                    assert(forall|i: int|
                        1 <= i < xs.len() ==> xs[i] == xs.skip(1)[i - 1] && ys[i] == ys.skip(1)[i
                            - 1]);
                }
            }
            if xs == ys {
                assert(xs.skip(1) =~= ys.skip(1));
            }
        }
    }
}

pub proof fn lemma_ids_lt_trans(xs: Seq<Seq<char>>, ys: Seq<Seq<char>>, zs: Seq<Seq<char>>)
    requires
        ids_lt(xs, ys),
        ids_lt(ys, zs),
    ensures
        ids_lt(xs, zs),
    decreases xs.len(),
{
    if zs.len() == 0 || ys.len() == 0 || xs.len() == 0 {
    } else {
        lemma_ident_lt_trichotomy(xs[0], ys[0]);
        lemma_ident_lt_trichotomy(ys[0], zs[0]);
        if ident_lt(xs[0], ys[0]) && ident_lt(ys[0], zs[0]) {
            lemma_ident_lt_trans(xs[0], ys[0], zs[0]);
        } else if xs[0] == ys[0] && ys[0] == zs[0] {
            lemma_ids_lt_trans(xs.skip(1), ys.skip(1), zs.skip(1));
        }
    }
}

/// The dot-separated identifiers of a pre-release text.
pub open spec fn pre_ids(pre: Seq<char>) -> Seq<Seq<char>> {
    split_on(pre, '.')
}

// ---------------------------------------------------------------------------
// Precedence
// ---------------------------------------------------------------------------

/// Equal precedence: the numeric parts and the pre-release identifiers
/// agree (build metadata does not separate versions).
pub open spec fn version_eq(a: VersionModel, b: VersionModel) -> bool {
    a.major == b.major && a.minor == b.minor && a.patch == b.patch && a.pre == b.pre
}

/// Strictly lower precedence: by major, minor, patch; a pre-release sorts
/// below the release it precedes; pre-release identifiers order as
/// [`ids_lt`] orders them.
pub open spec fn version_lt(a: VersionModel, b: VersionModel) -> bool {
    if a.major != b.major {
        a.major < b.major
    } else if a.minor != b.minor {
        a.minor < b.minor
    } else if a.patch != b.patch {
        a.patch < b.patch
    } else if (a.pre.len() == 0) != (b.pre.len() == 0) {
        b.pre.len() == 0
    } else {
        ids_lt(pre_ids(a.pre), pre_ids(b.pre))
    }
}

pub open spec fn version_le(a: VersionModel, b: VersionModel) -> bool {
    version_lt(a, b) || version_eq(a, b)
}

pub proof fn lemma_version_trichotomy(a: VersionModel, b: VersionModel)
    ensures
        version_lt(a, b) || version_lt(b, a) || version_eq(a, b),
        version_lt(a, b) ==> !version_lt(b, a) && !version_eq(a, b),
        version_lt(b, a) ==> !version_lt(a, b) && !version_eq(a, b),
{
    lemma_ids_lt_trichotomy(pre_ids(a.pre), pre_ids(b.pre));
    if pre_ids(a.pre) == pre_ids(b.pre) {
        lemma_join_split(a.pre, '.');
        lemma_join_split(b.pre, '.');
        assert(a.pre == b.pre);
    }
}

pub proof fn lemma_version_lt_trans(a: VersionModel, b: VersionModel, c: VersionModel)
    requires
        version_lt(a, b),
        version_lt(b, c),
    ensures
        version_lt(a, c),
{
    lemma_version_le_trans(a, b, c);
    lemma_version_trichotomy(b, c);
    if version_eq(a, c) {
        assert(version_lt(c, b) == version_lt(a, b));
    }
}

pub proof fn lemma_version_le_trans(a: VersionModel, b: VersionModel, c: VersionModel)
    requires
        version_le(a, b),
        version_le(b, c),
    ensures
        version_le(a, c),
{
    if version_lt(a, b) && version_lt(b, c) {
        if a.major == b.major && b.major == c.major && a.minor == b.minor && b.minor == c.minor
            && a.patch == b.patch && b.patch == c.patch && (a.pre.len() == 0) == (b.pre.len() == 0)
            && (b.pre.len() == 0) == (c.pre.len() == 0) {
            lemma_ids_lt_trans(pre_ids(a.pre), pre_ids(b.pre), pre_ids(c.pre));
        }
    }
}

// ---------------------------------------------------------------------------
// Executable comparison
// ---------------------------------------------------------------------------

/// Whether the identifier is purely numeric.
fn is_numeric_ident(v: &Vec<char>) -> (r: bool)
    ensures
        r == is_num_ident(v@),
{
    if v.len() == 0 {
        return false;
    }
    let mut i: usize = 0;
    while i < v.len()
        invariant
            0 <= i <= v@.len(),
            forall|k: int| 0 <= k < i ==> is_digit_char(v@[k]),
        decreases v@.len() - i,
    {
        let u = v[i] as u32;
        if !(48 <= u && u <= 57) {
            return false;
        }
        i += 1;
    }
    true
}

proof fn lemma_strip_zeros_idx(s: Seq<char>, i: int)
    requires
        0 <= i <= s.len(),
        forall|k: int| 0 <= k < i ==> s[k] == '0',
        i < s.len() ==> s[i] != '0',
    ensures
        strip_zeros(s) == s.subrange(i, s.len() as int),
    decreases s.len(),
{
    if i == 0 {
        if s.len() == 0 || s[0] != '0' {
            assert(strip_zeros(s) =~= s.subrange(0, s.len() as int));
        }
    } else {
        lemma_strip_zeros_idx(s.skip(1), i - 1);
        assert(s.skip(1).subrange(i - 1, s.skip(1).len() as int) =~= s.subrange(i, s.len() as int));
    }
}

/// Significant digits of a numeral: the text with leading zeros removed.
fn strip_zeros_exec(v: &Vec<char>) -> (r: Vec<char>)
    ensures
        r@ == strip_zeros(v@),
{
    let mut i: usize = 0;
    while i < v.len() && v[i] == '0'
        invariant
            0 <= i <= v@.len(),
            forall|k: int| 0 <= k < i ==> v@[k] == '0',
        decreases v@.len() - i,
    {
        i += 1;
    }
    proof {
        lemma_strip_zeros_idx(v@, i as int);
    }
    let n = v.len();
    subvec(v, i, n)
}

/// Three-way comparison of single identifiers in the order of [`ident_lt`].
fn ident_cmp(a: &Vec<char>, b: &Vec<char>) -> (r: i32)
    ensures
        r == -1 ==> ident_lt(a@, b@),
        r == 1 ==> ident_lt(b@, a@),
        r == 0 ==> a@ == b@,
        r == -1 || r == 0 || r == 1,
{
    let na = is_numeric_ident(a);
    let nb = is_numeric_ident(b);
    if na && !nb {
        return -1;
    }
    if !na && nb {
        return 1;
    }
    if !na && !nb {
        return chars_cmp(a, b);
    }
    let sa = strip_zeros_exec(a);
    let sb = strip_zeros_exec(b);
    if sa.len() < sb.len() {
        return -1;
    }
    if sa.len() > sb.len() {
        return 1;
    }
    let c = chars_cmp(&sa, &sb);
    if c != 0 {
        return c;
    }
    proof {
        assert(strip_zeros(a@) == strip_zeros(b@));
    }
    chars_cmp(a, b)
}

/// After a common prefix of length `i`, `xs` either ends or has the smaller
/// identifier: then `xs` is smaller.
proof fn lemma_ids_lt_at(xs: Seq<Seq<char>>, ys: Seq<Seq<char>>, i: int)
    requires
        0 <= i <= xs.len(),
        i <= ys.len(),
        forall|k: int| 0 <= k < i ==> xs[k] == ys[k],
        (i < xs.len() && i < ys.len() && ident_lt(xs[i], ys[i])) || (i == xs.len() && i < ys.len()),
    ensures
        ids_lt(xs, ys),
    decreases i,
{
    if i == 0 {
        if 0 < xs.len() {
            lemma_ident_lt_trichotomy(xs[0], ys[0]);
        }
    } else {
        lemma_ids_lt_at(xs.skip(1), ys.skip(1), i - 1);
        assert(xs[0] == ys[0]);
        lemma_ident_lt_trichotomy(xs[0], ys[0]);
    }
}

/// Three-way comparison of pre-release texts by their identifier lists.
fn pre_cmp(av: &Vec<char>, bv: &Vec<char>) -> (r: i32)
    ensures
        r == -1 ==> ids_lt(pre_ids(av@), pre_ids(bv@)),
        r == 1 ==> ids_lt(pre_ids(bv@), pre_ids(av@)),
        r == 0 ==> av@ == bv@,
        r == -1 || r == 0 || r == 1,
{
    let xs = split_chars_list(av);
    let ys = split_chars_list(bv);
    let mut i: usize = 0;
    loop
        invariant
            crate::lines::views(xs@) == pre_ids(av@),
            crate::lines::views(ys@) == pre_ids(bv@),
            xs@.len() == pre_ids(av@).len(),
            ys@.len() == pre_ids(bv@).len(),
            0 <= i <= xs@.len(),
            0 <= i <= ys@.len(),
            forall|k: int| 0 <= k < i ==> pre_ids(av@)[k] == pre_ids(bv@)[k],
        decreases xs@.len() - i,
    {
        if i == xs.len() && i == ys.len() {
            proof {
                assert(pre_ids(av@) =~= pre_ids(bv@));
                lemma_join_split(av@, '.');
                lemma_join_split(bv@, '.');
            }
            return 0;
        }
        if i == xs.len() {
            proof {
                lemma_ids_lt_at(pre_ids(av@), pre_ids(bv@), i as int);
            }
            return -1;
        }
        if i == ys.len() {
            proof {
                lemma_ids_lt_at(pre_ids(bv@), pre_ids(av@), i as int);
            }
            return 1;
        }
        proof {
            assert(crate::lines::views(xs@)[i as int] == xs@[i as int]@);
            assert(crate::lines::views(ys@)[i as int] == ys@[i as int]@);
        }
        let c = ident_cmp(&xs[i], &ys[i]);
        if c == -1 {
            proof {
                lemma_ids_lt_at(pre_ids(av@), pre_ids(bv@), i as int);
            }
            return -1;
        }
        if c == 1 {
            proof {
                lemma_ids_lt_at(pre_ids(bv@), pre_ids(av@), i as int);
            }
            return 1;
        }
        i += 1;
    }
}

/// The dot-separated pieces of a pre-release text.
fn split_chars_list(v: &Vec<char>) -> (r: Vec<Vec<char>>)
    ensures
        crate::lines::views(r@) == pre_ids(v@),
        r@.len() == pre_ids(v@).len(),
{
    let r = crate::lines::split_fields(v, '.');
    proof {
        assert(crate::lines::views(r@).len() == r@.len());
    }
    r
}

/// Three-way comparison of precedence; executable counterpart of
/// [`version_lt`] / [`version_eq`].
pub fn version_cmp(a: &Version, b: &Version) -> (r: i32)
    ensures
        r == -1 ==> version_lt(a@, b@),
        r == 1 ==> version_lt(b@, a@),
        r == 0 ==> version_eq(a@, b@),
        r == -1 || r == 0 || r == 1,
{
    if a.major != b.major {
        return if a.major < b.major {
            -1
        } else {
            1
        };
    }
    if a.minor != b.minor {
        return if a.minor < b.minor {
            -1
        } else {
            1
        };
    }
    if a.patch != b.patch {
        return if a.patch < b.patch {
            -1
        } else {
            1
        };
    }
    let a_rel = a.pre.as_str().unicode_len() == 0;
    let b_rel = b.pre.as_str().unicode_len() == 0;
    if a_rel != b_rel {
        return if b_rel {
            -1
        } else {
            1
        };
    }
    let av = str_to_chars(a.pre.as_str());
    let bv = str_to_chars(b.pre.as_str());
    let c = pre_cmp(&av, &bv);
    proof {
        if c == 0 {
            assert(a@.pre == b@.pre);
        }
    }
    c
}

} // verus!
