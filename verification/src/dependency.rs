//! Dependency descriptors: one manifest entry `(key, value)` parsed into a
//! structured, alias-aware dependency.

use vstd::prelude::*;

use crate::strutil::{copy_str, push_char, string_eq};
use crate::version::{is_npm_req, npm_req_parses, semver_text_ok, semver_text_safe};

verus! {

/// Mathematical shape of a dependency descriptor.
#[verifier::ext_equal]
pub struct DependencyView {
    pub name: Seq<char>,
    pub real_name: Seq<char>,
    pub version_or_dist_tag: Seq<char>,
}

/// A dependency as declared by a manifest entry: `name` is the key as
/// written, `real_name` the package to look up in the registry (different
/// only for `npm:` aliases), and `version_or_dist_tag` a version range,
/// an exact version, or a dist-tag.
#[derive(Debug)]
pub struct Dependency {
    pub name: String,
    pub real_name: String,
    pub version_or_dist_tag: String,
}

impl View for Dependency {
    type V = DependencyView;

    open spec fn view(&self) -> DependencyView {
        DependencyView {
            name: self.name@,
            real_name: self.real_name@,
            version_or_dist_tag: self.version_or_dist_tag@,
        }
    }
}

impl DeepView for Dependency {
    type V = DependencyView;

    open spec fn deep_view(&self) -> DependencyView {
        self.view()
    }
}

impl PartialEq for Dependency {
    fn eq(&self, other: &Dependency) -> (r: bool) {
        string_eq(&self.name, &other.name) && string_eq(&self.real_name, &other.real_name)
            && string_eq(&self.version_or_dist_tag, &other.version_or_dist_tag)
    }
}

impl vstd::std_specs::cmp::PartialEqSpecImpl for Dependency {
    open spec fn obeys_eq_spec() -> bool {
        true
    }

    open spec fn eq_spec(&self, other: &Dependency) -> bool {
        self@ == other@
    }
}

/// The position of the first `c` at or after `from`, or the length when
/// there is none.
pub open spec fn find_from(s: Seq<char>, c: char, from: int) -> int
    decreases s.len() - from,
{
    if from < 0 || from >= s.len() {
        s.len() as int
    } else if s[from] == c {
        from
    } else {
        find_from(s, c, from + 1)
    }
}

pub proof fn lemma_find_from_is(s: Seq<char>, c: char, from: int, i: int)
    requires
        0 <= from <= i <= s.len(),
        forall|j: int| from <= j < i ==> s[j] != c,
        i == s.len() || s[i] == c,
    ensures
        find_from(s, c, from) == i,
    decreases i - from,
{
    if from < i {
        lemma_find_from_is(s, c, from + 1, i);
    }
}

/// Whether a manifest value is an `npm:` alias.
pub open spec fn has_alias_prefix(value: Seq<char>) -> bool {
    value.len() >= 4 && value[0] == 'n' && value[1] == 'p' && value[2] == 'm' && value[3] == ':'
}

/// What `from_entry` makes of a manifest entry. A value inside the semver
/// parsers' machine limits that parses as an npm range, or any value that
/// carries no usable alias, names the key itself; an alias
/// `npm:<real>@<spec>` names `<real>`, and a scoped alias
/// `npm:@scope/<real>@<spec>` keeps the leading `@` as part of the name.
pub open spec fn dep_of_entry(key: Seq<char>, value: Seq<char>) -> DependencyView {
    if (semver_text_safe(value) && is_npm_req(value)) || !has_alias_prefix(value) {
        DependencyView { name: key, real_name: key, version_or_dist_tag: value }
    } else {
        let rest = value.skip(4);
        let n1 = find_from(rest, '@', 0);
        if n1 == rest.len() {
            DependencyView { name: key, real_name: key, version_or_dist_tag: value }
        } else {
            let n2 = find_from(rest, '@', n1 + 1);
            if n2 == rest.len() {
                DependencyView {
                    name: key,
                    real_name: rest.take(n1),
                    version_or_dist_tag: rest.skip(n1 + 1),
                }
            } else {
                let n3 = find_from(rest, '@', n2 + 1);
                DependencyView {
                    name: key,
                    real_name: seq!['@'] + rest.subrange(n1 + 1, n2),
                    version_or_dist_tag: rest.subrange(n2 + 1, n3),
                }
            }
        }
    }
}

/// The position of the first `c` at or after `from`.
fn find_char_from(s: &str, c: char, from: usize, len: usize) -> (i: usize)
    requires
        from <= len,
        len == s@.len(),
    ensures
        from <= i <= len,
        i == find_from(s@, c, from as int),
        i < len ==> s@[i as int] == c,
{
    let mut i: usize = from;
    while i < len
        invariant
            from <= i <= len,
            len == s@.len(),
            forall|j: int| from <= j < i ==> s@[j] != c,
        decreases len - i,
    {
        if s.get_char(i) == c {
            proof {
                lemma_find_from_is(s@, c, from as int, i as int);
            }
            return i;
        }
        i = i + 1;
    }
    proof {
        lemma_find_from_is(s@, c, from as int, len as int);
    }
    len
}

/// A copy of the characters of `s` in `[from, to)`.
fn substring_copy(s: &str, from: usize, to: usize) -> (r: String)
    requires
        from <= to <= s@.len(),
    ensures
        r@ == s@.subrange(from as int, to as int),
{
    copy_str(s.substring_char(from, to))
}

impl Dependency {
    /// Parses one manifest entry. Total: anything that is neither a range
    /// nor a usable alias is kept as a version-or-dist-tag literal.
    pub fn from_entry(key: &str, value: &str) -> (d: Dependency)
        ensures
            d@ == dep_of_entry(key@, value@),
    {
        if semver_text_ok(value) && npm_req_parses(value) {
            return Dependency {
                name: copy_str(key),
                real_name: copy_str(key),
                version_or_dist_tag: copy_str(value),
            };
        }
        let vlen = value.unicode_len();
        let aliased = vlen >= 4 && value.get_char(0) == 'n' && value.get_char(1) == 'p'
            && value.get_char(2) == 'm' && value.get_char(3) == ':';
        if !aliased {
            return Dependency {
                name: copy_str(key),
                real_name: copy_str(key),
                version_or_dist_tag: copy_str(value),
            };
        }
        let rest = value.substring_char(4, vlen);
        let rlen = vlen - 4;
        proof {
            assert(rest@ =~= value@.skip(4));
        }
        let n1 = find_char_from(rest, '@', 0, rlen);
        if n1 == rlen {
            return Dependency {
                name: copy_str(key),
                real_name: copy_str(key),
                version_or_dist_tag: copy_str(value),
            };
        }
        let n2 = find_char_from(rest, '@', n1 + 1, rlen);
        if n2 == rlen {
            proof {
                assert(rest@.take(n1 as int) =~= rest@.subrange(0, n1 as int));
                assert(rest@.skip(n1 + 1 as int) =~= rest@.subrange(n1 + 1 as int, rlen as int));
            }
            Dependency {
                name: copy_str(key),
                real_name: substring_copy(rest, 0, n1),
                version_or_dist_tag: substring_copy(rest, n1 + 1, rlen),
            }
        } else {
            let n3 = find_char_from(rest, '@', n2 + 1, rlen);
            let mut real_name = String::new();
            push_char(&mut real_name, '@');
            let scope_part = substring_copy(rest, n1 + 1, n2);
            real_name.append(scope_part.as_str());
            proof {
                assert(real_name@ =~= seq!['@'] + rest@.subrange(n1 + 1 as int, n2 as int));
            }
            Dependency {
                name: copy_str(key),
                real_name,
                version_or_dist_tag: substring_copy(rest, n2 + 1, n3),
            }
        }
    }
}

/// The manifest entry a dependency descriptor stands for: an alias is
/// written back as `npm:<real_name>@<spec>`, anything else as its
/// version-or-dist-tag.
pub open spec fn entry_of_dep(d: DependencyView) -> (Seq<char>, Seq<char>) {
    if d.real_name == d.name {
        (d.name, d.version_or_dist_tag)
    } else {
        (d.name, "npm:"@ + d.real_name + "@"@ + d.version_or_dist_tag)
    }
}

/// Round trip: a dependency parsed from a manifest entry, written back as
/// an entry and parsed again, is the same dependency. Out of scope: a
/// non-alias whose literal itself begins with `npm:`, an alias whose
/// written form parses as a version range, an alias whose parts carry
/// stray `@`s, and an alias naming the key itself (all of which the
/// original entry cannot produce or write back unambiguously).
pub proof fn lemma_entry_round_trip(d: DependencyView)
    requires
        d.real_name == d.name ==> !has_alias_prefix(d.version_or_dist_tag),
        d.real_name != d.name ==> {
            &&& !is_npm_req(entry_of_dep(d).1)
            &&& forall|i: int|
                0 <= i < d.version_or_dist_tag.len() ==> (#[trigger] d.version_or_dist_tag[i])
                    != '@'
            &&& if d.real_name.len() > 0 && d.real_name[0] == '@' {
                forall|i: int| 1 <= i < d.real_name.len() ==> (#[trigger] d.real_name[i]) != '@'
            } else {
                forall|i: int| 0 <= i < d.real_name.len() ==> (#[trigger] d.real_name[i]) != '@'
            }
        },
    ensures
        dep_of_entry(entry_of_dep(d).0, entry_of_dep(d).1) == d,
{
    reveal_strlit("npm:");
    reveal_strlit("@");
    if d.real_name == d.name {
        assert(dep_of_entry(d.name, d.version_or_dist_tag) =~~= d);
    } else {
        let v = entry_of_dep(d).1;
        assert(v =~= "npm:"@ + d.real_name + "@"@ + d.version_or_dist_tag);
        assert(has_alias_prefix(v)) by {
            assert(v[0] == 'n' && v[1] == 'p' && v[2] == 'm' && v[3] == ':');
        }
        let rest = v.skip(4);
        assert(rest =~= d.real_name + "@"@ + d.version_or_dist_tag);
        let rn = d.real_name.len() as int;
        assert(rest[rn] == '@');
        if d.real_name.len() == 0 || d.real_name[0] != '@' {
            // plain alias: the single `@` splits name from spec
            assert(forall|j: int| 0 <= j < rn ==> rest[j] == d.real_name[j] && rest[j] != '@');
            lemma_find_from_is(rest, '@', 0, rn);
            assert(forall|j: int|
                rn + 1 <= j < rest.len() ==> rest[j] == d.version_or_dist_tag[j - rn - 1]
                    && rest[j] != '@');
            lemma_find_from_is(rest, '@', rn + 1, rest.len() as int);
            assert(rest.take(rn) =~= d.real_name);
            assert(rest.skip(rn + 1) =~= d.version_or_dist_tag);
            assert(dep_of_entry(d.name, v) =~~= d);
        } else {
            // scoped alias: the leading `@` belongs to the name
            assert(rest[0] == '@');
            lemma_find_from_is(rest, '@', 0, 0);
            assert(forall|j: int| 1 <= j < rn ==> rest[j] == d.real_name[j] && rest[j] != '@');
            lemma_find_from_is(rest, '@', 1, rn);
            assert(forall|j: int|
                rn + 1 <= j < rest.len() ==> rest[j] == d.version_or_dist_tag[j - rn - 1]
                    && rest[j] != '@');
            lemma_find_from_is(rest, '@', rn + 1, rest.len() as int);
            assert(seq!['@'] + rest.subrange(1, rn) =~= d.real_name);
            assert(rest.subrange(rn + 1, rest.len() as int) =~= d.version_or_dist_tag);
            assert(dep_of_entry(d.name, v) =~~= d);
        }
    }
}

} // verus!
