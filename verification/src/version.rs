//! Version strings: parsing and range matching are the semver crate's work,
//! named here and trusted; version precedence is modelled and proved over
//! the parsed components.
//!
//! A parsed version is `(major, minor, patch)` plus the pre-release
//! identifiers; build metadata is dropped because precedence ignores it.
//! Each pre-release identifier carries a flag saying whether semver
//! classified it as numeric, and its text as bytes: a numeric identifier
//! compares by value (its canonical text has no leading zeros, so shorter
//! means smaller), an alphanumeric one byte-wise, and numeric sorts below
//! alphanumeric. A release sorts above every pre-release of the same
//! triple.
//!
//! The parsers have two machine limits — a numeric component is read into
//! a machine word without checking, and at most 256 hyphen-joined
//! pre-release parts are joined before giving up — so the trusted calls
//! demand text inside those limits, and `semver_text_ok` checks them.

use vstd::prelude::*;

verus! {

/// An ascii digit.
pub open spec fn is_digit_char(c: char) -> bool {
    48 <= c as u32 <= 57
}

/// The length of the digit run ending at position `j`.
pub open spec fn digit_run_ending_at(s: Seq<char>, j: int) -> int
    decreases j + 1,
{
    if j < 0 || j >= s.len() || !is_digit_char(s[j]) {
        0
    } else {
        1 + digit_run_ending_at(s, j - 1)
    }
}

/// No run of twenty or more consecutive ascii digits: every numeric
/// component of the text then fits the parsers' machine word.
pub open spec fn short_digit_runs(s: Seq<char>) -> bool {
    forall|j: int| 0 <= j < s.len() ==> #[trigger] digit_run_ending_at(s, j) <= 19
}

/// How often a character occurs.
pub open spec fn count_char(s: Seq<char>, c: char) -> int
    decreases s.len(),
{
    if s.len() == 0 {
        0
    } else {
        count_char(s.drop_last(), c) + if s.last() == c {
            1int
        } else {
            0int
        }
    }
}

proof fn lemma_count_char_prefix(s: Seq<char>, c: char, n: int)
    requires
        0 <= n <= s.len(),
    ensures
        count_char(s.take(n), c) <= count_char(s, c),
        count_char(s, c) >= 0,
    decreases s.len(),
{
    if s.len() > 0 {
        lemma_count_char_prefix(s.drop_last(), c, if n < s.len() {
            n
        } else {
            n - 1
        });
        if n < s.len() {
            assert(s.take(n) =~= s.drop_last().take(n));
        } else {
            assert(s.take(n) =~= s);
        }
    } else {
        assert(s.take(n) =~= s);
    }
}

/// Whether the text stays inside the semver parsers' machine limits: no
/// numeric component of twenty or more digits (the range grammar reads
/// each into a machine word without checking and steps some of them up by
/// one), and at most 255 hyphens (the version grammar joins at most 256
/// hyphenated pre-release parts before giving up).
pub open spec fn semver_text_safe(s: Seq<char>) -> bool {
    short_digit_runs(s) && count_char(s, '-') <= 255
}

/// Whether the text stays inside the semver parsers' machine limits.
pub fn semver_text_ok(s: &str) -> (b: bool)
    ensures
        b == semver_text_safe(s@),
{
    let len = s.unicode_len();
    let mut run: usize = 0;
    let mut hyphens: usize = 0;
    let mut i: usize = 0;
    while i < len
        invariant
            i <= len,
            len == s@.len(),
            run <= 19,
            run == digit_run_ending_at(s@, i - 1),
            forall|j: int| 0 <= j < i ==> #[trigger] digit_run_ending_at(s@, j) <= 19,
            hyphens <= 255,
            hyphens == count_char(s@.take(i as int), '-'),
        decreases len - i,
    {
        let c = s.get_char(i);
        let digit = '0' <= c && c <= '9';
        proof {
            assert(digit == is_digit_char(s@[i as int]));
        }
        if digit {
            if run == 19 {
                proof {
                    assert(digit_run_ending_at(s@, i as int) == 20);
                }
                return false;
            }
            run = run + 1;
        } else {
            run = 0;
        }
        proof {
            assert(digit_run_ending_at(s@, i as int) == run);
            assert(s@.take(i + 1).drop_last() =~= s@.take(i as int));
            assert(s@.take(i + 1).last() == s@[i as int]);
        }
        if c == '-' {
            if hyphens == 255 {
                proof {
                    assert(count_char(s@.take(i + 1), '-') == 256);
                    lemma_count_char_prefix(s@, '-', i + 1);
                }
                return false;
            }
            hyphens = hyphens + 1;
        }
        i = i + 1;
    }
    proof {
        assert(s@.take(len as int) =~= s@);
    }
    true
}

/// Whether a string is a well-formed npm version range.
pub uninterp spec fn is_npm_req(s: Seq<char>) -> bool;

/// Whether a string is a well-formed semantic version.
pub uninterp spec fn is_version(s: Seq<char>) -> bool;

/// Whether a version satisfies an npm version range.
pub uninterp spec fn npm_req_matches(req: Seq<char>, version: Seq<char>) -> bool;

/// The components of a well-formed version string: major, minor, patch,
/// and the pre-release identifiers as (numeric?, text bytes) pairs.
pub uninterp spec fn version_parts(s: Seq<char>) -> (int, int, int, Seq<(bool, Seq<u8>)>);

/// The parsed components of a version string.
#[derive(Debug, Clone)]
pub struct VersionParts {
    pub major: u64,
    pub minor: u64,
    pub patch: u64,
    pub pre: Vec<(bool, Vec<u8>)>,
}

impl View for VersionParts {
    type V = (int, int, int, Seq<(bool, Seq<u8>)>);

    open spec fn view(&self) -> (int, int, int, Seq<(bool, Seq<u8>)>) {
        (self.major as int, self.minor as int, self.patch as int, self.pre.deep_view())
    }
}

/// Relies on semver's VersionReq::parse_compat in npm mode: tells a
/// well-formed npm version range from anything else. The grammar reads
/// numeric components into a machine word without checking, and gives up
/// beyond 255 hyphen-joined pre-release parts, so the text must stay
/// inside those limits.
#[verifier::external_body]
pub(crate) fn npm_req_parses(s: &str) -> (r: bool)
    requires
        semver_text_safe(s@),
    ensures
        r == is_npm_req(s@),
{
    semver::VersionReq::parse_compat(s, semver::Compat::Npm).is_ok()
}

/// Relies on semver's Version::parse: breaks a version string into its
/// components. Build metadata is dropped; precedence ignores it. The
/// grammar gives up beyond 255 hyphen-joined pre-release parts, so the
/// text must stay inside the machine limits.
#[verifier::external_body]
pub(crate) fn parse_version(s: &str) -> (r: Option<VersionParts>)
    requires
        semver_text_safe(s@),
    ensures
        r is Some <==> is_version(s@),
        r matches Some(p) ==> p@ == version_parts(s@),
{
    match semver::Version::parse(s) {
        Err(_) => None,
        Ok(v) => {
            let pre = v
                .pre
                .into_iter()
                .map(|id| match id {
                    semver::Identifier::Numeric(n) => (true, n.to_string().into_bytes()),
                    semver::Identifier::AlphaNumeric(t) => (false, t.into_bytes()),
                })
                .collect();
            Some(VersionParts { major: v.major, minor: v.minor, patch: v.patch, pre })
        },
    }
}

/// Relies on semver's VersionReq::matches: whether a version satisfies an
/// npm range. Nothing is answered when either string fails to parse. Both
/// texts must stay inside the parsers' machine limits.
#[verifier::external_body]
pub(crate) fn req_matches(req: &str, version: &str) -> (r: Option<bool>)
    requires
        semver_text_safe(req@),
        semver_text_safe(version@),
    ensures
        r is Some <==> (is_npm_req(req@) && is_version(version@)),
        r matches Some(b) ==> b == npm_req_matches(req@, version@),
{
    match (
        semver::VersionReq::parse_compat(req, semver::Compat::Npm),
        semver::Version::parse(version),
    ) {
        (Ok(r), Ok(v)) => Some(r.matches(&v)),
        _ => None,
    }
}

/// Byte-wise lexicographic order.
pub open spec fn lex_lt(a: Seq<u8>, b: Seq<u8>) -> bool
    decreases a.len(), b.len(),
{
    if b.len() == 0 {
        false
    } else if a.len() == 0 {
        true
    } else if a[0] < b[0] {
        true
    } else if a[0] > b[0] {
        false
    } else {
        lex_lt(a.skip(1), b.skip(1))
    }
}

/// Order of two numeric identifiers by their canonical texts: no leading
/// zeros, so a shorter text is a smaller number.
pub open spec fn num_lt(a: Seq<u8>, b: Seq<u8>) -> bool {
    a.len() < b.len() || (a.len() == b.len() && lex_lt(a, b))
}

/// Order of two pre-release identifiers: numeric sorts below alphanumeric.
pub open spec fn id_lt(a: (bool, Seq<u8>), b: (bool, Seq<u8>)) -> bool {
    if a.0 && !b.0 {
        true
    } else if !a.0 && b.0 {
        false
    } else if a.0 {
        num_lt(a.1, b.1)
    } else {
        lex_lt(a.1, b.1)
    }
}

/// Lexicographic order of two pre-release identifier lists.
pub open spec fn ids_lt(a: Seq<(bool, Seq<u8>)>, b: Seq<(bool, Seq<u8>)>) -> bool
    decreases a.len(), b.len(),
{
    if b.len() == 0 {
        false
    } else if a.len() == 0 {
        true
    } else if id_lt(a[0], b[0]) {
        true
    } else if id_lt(b[0], a[0]) {
        false
    } else {
        ids_lt(a.skip(1), b.skip(1))
    }
}

/// Order of two pre-release lists at equal triples: a release (empty list)
/// sorts above every pre-release.
pub open spec fn pre_lt(a: Seq<(bool, Seq<u8>)>, b: Seq<(bool, Seq<u8>)>) -> bool {
    if a.len() == 0 {
        false
    } else if b.len() == 0 {
        true
    } else {
        ids_lt(a, b)
    }
}

/// Version precedence, strictly: the order `resolve_version` maximizes.
pub open spec fn parts_lt(a: (int, int, int, Seq<(bool, Seq<u8>)>), b: (int, int, int, Seq<(bool, Seq<u8>)>)) -> bool {
    if a.0 != b.0 {
        a.0 < b.0
    } else if a.1 != b.1 {
        a.1 < b.1
    } else if a.2 != b.2 {
        a.2 < b.2
    } else {
        pre_lt(a.3, b.3)
    }
}

proof fn lemma_lex_lt_irrefl(a: Seq<u8>)
    ensures
        !lex_lt(a, a),
    decreases a.len(),
{
    if a.len() > 0 {
        lemma_lex_lt_irrefl(a.skip(1));
    }
}

proof fn lemma_ids_lt_irrefl(a: Seq<(bool, Seq<u8>)>)
    ensures
        !ids_lt(a, a),
    decreases a.len(),
{
    if a.len() > 0 {
        lemma_lex_lt_irrefl(a[0].1);
        lemma_ids_lt_irrefl(a.skip(1));
    }
}

/// Strict version precedence never relates a version to itself.
pub proof fn lemma_parts_lt_irrefl(a: (int, int, int, Seq<(bool, Seq<u8>)>))
    ensures
        !parts_lt(a, a),
{
    lemma_ids_lt_irrefl(a.3);
}

proof fn lemma_lex_lt_trans(a: Seq<u8>, b: Seq<u8>, c: Seq<u8>)
    requires
        lex_lt(a, b),
        lex_lt(b, c),
    ensures
        lex_lt(a, c),
    decreases a.len(),
{
    if a.len() > 0 && b.len() > 0 && c.len() > 0 && a[0] == b[0] && b[0] == c[0] {
        lemma_lex_lt_trans(a.skip(1), b.skip(1), c.skip(1));
    }
}

proof fn lemma_lex_lt_connected(a: Seq<u8>, b: Seq<u8>)
    requires
        !lex_lt(a, b),
        !lex_lt(b, a),
    ensures
        a == b,
    decreases a.len(),
{
    if a.len() > 0 && b.len() > 0 {
        lemma_lex_lt_connected(a.skip(1), b.skip(1));
        assert(a =~= seq![a[0]] + a.skip(1));
        assert(b =~= seq![b[0]] + b.skip(1));
    } else {
        assert(a =~= b);
    }
}

proof fn lemma_num_lt_trans(a: Seq<u8>, b: Seq<u8>, c: Seq<u8>)
    requires
        num_lt(a, b),
        num_lt(b, c),
    ensures
        num_lt(a, c),
{
    if a.len() == b.len() && b.len() == c.len() {
        lemma_lex_lt_trans(a, b, c);
    }
}

proof fn lemma_id_lt_trans(a: (bool, Seq<u8>), b: (bool, Seq<u8>), c: (bool, Seq<u8>))
    requires
        id_lt(a, b),
        id_lt(b, c),
    ensures
        id_lt(a, c),
{
    if a.0 && b.0 && c.0 {
        lemma_num_lt_trans(a.1, b.1, c.1);
    } else if !a.0 && !b.0 && !c.0 {
        lemma_lex_lt_trans(a.1, b.1, c.1);
    }
}

proof fn lemma_id_lt_connected(a: (bool, Seq<u8>), b: (bool, Seq<u8>))
    requires
        !id_lt(a, b),
        !id_lt(b, a),
    ensures
        a == b,
{
    assert(a.0 == b.0);
    if a.0 {
        assert(a.1.len() == b.1.len());
        lemma_lex_lt_connected(a.1, b.1);
    } else {
        lemma_lex_lt_connected(a.1, b.1);
    }
}

proof fn lemma_ids_lt_trans(a: Seq<(bool, Seq<u8>)>, b: Seq<(bool, Seq<u8>)>, c: Seq<
    (bool, Seq<u8>),
>)
    requires
        ids_lt(a, b),
        ids_lt(b, c),
    ensures
        ids_lt(a, c),
    decreases a.len(),
{
    if a.len() > 0 && b.len() > 0 && c.len() > 0 {
        if id_lt(a[0], b[0]) {
            if id_lt(b[0], c[0]) {
                lemma_id_lt_trans(a[0], b[0], c[0]);
            } else if !id_lt(c[0], b[0]) {
                lemma_id_lt_connected(b[0], c[0]);
            }
        } else if !id_lt(b[0], a[0]) {
            lemma_id_lt_connected(a[0], b[0]);
            if !id_lt(b[0], c[0]) && !id_lt(c[0], b[0]) {
                lemma_ids_lt_trans(a.skip(1), b.skip(1), c.skip(1));
            }
        }
    }
}

/// Strict version precedence is transitive; `resolve_version`'s maximum
/// search leans on this.
pub proof fn lemma_parts_lt_trans(
    a: (int, int, int, Seq<(bool, Seq<u8>)>),
    b: (int, int, int, Seq<(bool, Seq<u8>)>),
    c: (int, int, int, Seq<(bool, Seq<u8>)>),
)
    requires
        parts_lt(a, b),
        parts_lt(b, c),
    ensures
        parts_lt(a, c),
{
    if a.0 == b.0 && b.0 == c.0 && a.1 == b.1 && b.1 == c.1 && a.2 == b.2 && b.2 == c.2 {
        if a.3.len() > 0 && b.3.len() > 0 && c.3.len() > 0 {
            lemma_ids_lt_trans(a.3, b.3, c.3);
        }
    }
}

/// Byte-wise lexicographic comparison.
fn bytes_lt(a: &Vec<u8>, b: &Vec<u8>) -> (r: bool)
    ensures
        r == lex_lt(a@, b@),
    decreases a@.len(),
{
    let mut i: usize = 0;
    proof {
        assert(a@.skip(0) =~= a@);
        assert(b@.skip(0) =~= b@);
    }
    loop
        invariant
            i <= a.len(),
            i <= b.len(),
            lex_lt(a@, b@) == lex_lt(a@.skip(i as int), b@.skip(i as int)),
        decreases a.len() - i,
    {
        proof {
            assert(a@.skip(i as int).len() == a@.len() - i);
            assert(b@.skip(i as int).len() == b@.len() - i);
        }
        if i == b.len() {
            return false;
        }
        if i == a.len() {
            return true;
        }
        let x = a[i];
        let y = b[i];
        proof {
            assert(a@.skip(i as int)[0] == a@[i as int]);
            assert(b@.skip(i as int)[0] == b@[i as int]);
            assert(a@.skip(i as int).skip(1) =~= a@.skip(i + 1));
            assert(b@.skip(i as int).skip(1) =~= b@.skip(i + 1));
        }
        if x < y {
            return true;
        }
        if x > y {
            return false;
        }
        i = i + 1;
    }
}

/// Comparison of two pre-release identifiers.
fn pre_id_lt(a: &(bool, Vec<u8>), b: &(bool, Vec<u8>)) -> (r: bool)
    ensures
        r == id_lt((a.0, a.1@), (b.0, b.1@)),
{
    if a.0 && !b.0 {
        true
    } else if !a.0 && b.0 {
        false
    } else if a.0 {
        if a.1.len() < b.1.len() {
            true
        } else if a.1.len() == b.1.len() {
            bytes_lt(&a.1, &b.1)
        } else {
            false
        }
    } else {
        bytes_lt(&a.1, &b.1)
    }
}

/// Strict version precedence of two parsed versions.
pub fn version_lt(a: &VersionParts, b: &VersionParts) -> (r: bool)
    ensures
        r == parts_lt(a@, b@),
{
    if a.major != b.major {
        return a.major < b.major;
    }
    if a.minor != b.minor {
        return a.minor < b.minor;
    }
    if a.patch != b.patch {
        return a.patch < b.patch;
    }
    if a.pre.len() == 0 {
        return false;
    }
    if b.pre.len() == 0 {
        return true;
    }
    let mut i: usize = 0;
    proof {
        assert(a@.3.skip(0) =~= a@.3);
        assert(b@.3.skip(0) =~= b@.3);
    }
    loop
        invariant
            i <= a.pre.len(),
            i <= b.pre.len(),
            a.pre.len() > 0,
            b.pre.len() > 0,
            ids_lt(a@.3, b@.3) == ids_lt(a@.3.skip(i as int), b@.3.skip(i as int)),
            parts_lt(a@, b@) == ids_lt(a@.3, b@.3),
        decreases a.pre.len() - i,
    {
        proof {
            assert(a@.3.len() == a.pre.len());
            assert(b@.3.len() == b.pre.len());
            assert(a@.3.skip(i as int).len() == a@.3.len() - i);
            assert(b@.3.skip(i as int).len() == b@.3.len() - i);
        }
        if i == b.pre.len() {
            return false;
        }
        if i == a.pre.len() {
            return true;
        }
        proof {
            assert(a@.3.skip(i as int)[0] == a@.3[i as int]);
            assert(b@.3.skip(i as int)[0] == b@.3[i as int]);
            assert(a@.3[i as int] == (a.pre@[i as int].0, a.pre@[i as int].1@));
            assert(b@.3[i as int] == (b.pre@[i as int].0, b.pre@[i as int].1@));
            assert(a@.3.skip(i as int).skip(1) =~= a@.3.skip(i + 1));
            assert(b@.3.skip(i as int).skip(1) =~= b@.3.skip(i + 1));
        }
        if pre_id_lt(&a.pre[i], &b.pre[i]) {
            return true;
        }
        if pre_id_lt(&b.pre[i], &a.pre[i]) {
            return false;
        }
        i = i + 1;
    }
}

} // verus!
