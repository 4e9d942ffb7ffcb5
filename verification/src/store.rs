//! The store: the stable on-disk layout for installed package contents,
//! keyed by sanitized name and version. Paths are computed here; creating
//! directories is the caller's work.

use vstd::prelude::*;

use crate::common::{sanitize_package_name, sanitized};
use crate::dependency::{find_from, lemma_find_from_is};
use crate::package::NpmPackage;
use crate::strutil::copy_str;

verus! {

/// The store directory under a data directory.
pub open spec fn store_dir_of(data_dir: Seq<char>) -> Seq<char> {
    data_dir + "/store"@
}

/// The directory holding one installed `name@version`.
pub open spec fn package_root_in(
    store_path: Seq<char>,
    name: Seq<char>,
    version: Seq<char>,
) -> Seq<char> {
    store_path + "/"@ + sanitized(name) + "@"@ + version
}

/// The directory holding the package's unpacked code.
pub open spec fn package_code_in(
    store_path: Seq<char>,
    name: Seq<char>,
    version: Seq<char>,
) -> Seq<char> {
    package_root_in(store_path, name, version) + "/node_modules/"@ + name
}

pub struct Store {
    pub store_path: String,
}

impl Store {
    /// The store under a data directory.
    pub fn new(data_dir: &str) -> (r: Store)
        ensures
            r.store_path@ == store_dir_of(data_dir@),
    {
        let mut p = copy_str(data_dir);
        p.append("/store");
        Store { store_path: p }
    }

    /// The directory one installed package owns: `{sanitized(name)}@{version}`
    /// under the store root.
    pub fn package_path_in_store(&self, package: &NpmPackage) -> (r: String)
        ensures
            r@ == package_root_in(self.store_path@, package@.name, package@.version),
    {
        let mut p = self.store_path.clone();
        p.append("/");
        let sanitized_name = sanitize_package_name(package.name.as_str());
        p.append(sanitized_name.as_str());
        p.append("@");
        p.append(package.version.as_str());
        proof {
            assert(p@ =~= package_root_in(self.store_path@, package@.name, package@.version));
        }
        p
    }

    /// The directory holding the package's unpacked code: the name keeps
    /// its `@scope/` structure, so a scoped package nests naturally.
    pub fn package_code_path_in_store(&self, package: &NpmPackage) -> (r: String)
        ensures
            r@ == package_code_in(self.store_path@, package@.name, package@.version),
    {
        let mut p = self.package_path_in_store(package);
        p.append("/node_modules/");
        p.append(package.name.as_str());
        proof {
            assert(p@ =~= package_code_in(self.store_path@, package@.name, package@.version));
        }
        p
    }
}

/// A version string fit for a store path: it carries no `/`.
pub open spec fn version_pathsafe(v: Seq<char>) -> bool {
    forall|i: int| 0 <= i < v.len() ==> v[i] != '/'
}

/// Splitting at the first `/` is unambiguous when the left part has none.
proof fn lemma_slash_split_injective(x1: Seq<char>, y1: Seq<char>, x2: Seq<char>, y2: Seq<char>)
    requires
        x1 + seq!['/'] + y1 == x2 + seq!['/'] + y2,
        forall|i: int| 0 <= i < x1.len() ==> x1[i] != '/',
        forall|i: int| 0 <= i < x2.len() ==> x2[i] != '/',
    ensures
        x1 == x2,
        y1 == y2,
{
    let s = x1 + seq!['/'] + y1;
    assert(s[x1.len() as int] == '/');
    assert(forall|j: int| 0 <= j < x1.len() ==> s[j] == x1[j] && s[j] != '/');
    lemma_find_from_is(s, '/', 0, x1.len() as int);
    assert(s[x2.len() as int] == '/') by {
        assert((x2 + seq!['/'] + y2)[x2.len() as int] == '/');
    }
    assert(forall|j: int| 0 <= j < x2.len() ==> s[j] == x2[j] && s[j] != '/');
    lemma_find_from_is(s, '/', 0, x2.len() as int);
    assert(x1.len() == x2.len());
    assert(x1 =~= x2);
    assert(y1 =~= y2) by {
        assert(forall|j: int| 0 <= j < y1.len() ==> y1[j] == s[x1.len() + 1 + j]);
        assert(forall|j: int| 0 <= j < y2.len() ==> y2[j] == s[x1.len() + 1 + j]);
    }
}

/// Store uniqueness: two installed packages share a code directory only
/// when they are the same name at the same version — so after writing,
/// each `(name, version)` owns exactly one place under the store.
#[verifier::rlimit(50)]
pub proof fn lemma_store_paths_injective(
    store_path: Seq<char>,
    n1: Seq<char>,
    v1: Seq<char>,
    n2: Seq<char>,
    v2: Seq<char>,
)
    requires
        version_pathsafe(v1),
        version_pathsafe(v2),
        package_code_in(store_path, n1, v1) == package_code_in(store_path, n2, v2),
    ensures
        n1 == n2,
        v1 == v2,
{
    reveal_strlit("/");
    reveal_strlit("@");
    reveal_strlit("/node_modules/");
    reveal_strlit("node_modules/");
    let a1 = sanitized(n1) + "@"@ + v1;
    let a2 = sanitized(n2) + "@"@ + v2;
    let tail1 = "node_modules/"@ + n1;
    let tail2 = "node_modules/"@ + n2;
    let s1 = package_code_in(store_path, n1, v1);
    let s2 = package_code_in(store_path, n2, v2);
    // peel the shared store prefix, then split at the first `/`
    let t1 = s1.skip(store_path.len() as int + 1);
    let t2 = s2.skip(store_path.len() as int + 1);
    assert(t1 =~= a1 + seq!['/'] + tail1);
    assert(t2 =~= a2 + seq!['/'] + tail2);
    assert(t1 == t2);
    assert(forall|i: int| 0 <= i < a1.len() ==> a1[i] != '/') by {
        assert(forall|i: int| 0 <= i < sanitized(n1).len() ==> sanitized(n1)[i] != '/');
    }
    assert(forall|i: int| 0 <= i < a2.len() ==> a2[i] != '/') by {
        assert(forall|i: int| 0 <= i < sanitized(n2).len() ==> sanitized(n2)[i] != '/');
    }
    lemma_slash_split_injective(a1, tail1, a2, tail2);
    assert(n1 =~= n2) by {
        assert(forall|j: int| 0 <= j < n1.len() ==> n1[j] == tail1["node_modules/"@.len() + j]);
        assert(forall|j: int| 0 <= j < n2.len() ==> n2[j] == tail2["node_modules/"@.len() + j]);
        assert(tail1.len() == tail2.len());
    }
    assert(v1 =~= v2) by {
        assert(sanitized(n1).len() == sanitized(n2).len());
        assert(a1.len() == a2.len());
        assert(forall|j: int| 0 <= j < v1.len() ==> v1[j] == a1[sanitized(n1).len() + 1 + j]);
        assert(forall|j: int| 0 <= j < v2.len() ==> v2[j] == a2[sanitized(n2).len() + 1 + j]);
    }
}

} // verus!
