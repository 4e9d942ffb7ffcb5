//! Packages: a concretely-versioned registry package, a workspace member,
//! and the sum of the two that the dependency graph carries.

use vstd::prelude::*;

use crate::dependency::{Dependency, DependencyView};
use crate::strutil::string_eq;

verus! {

/// An executable script a package declares, by name and script path
/// relative to the package's code directory.
#[derive(Debug)]
pub struct BinaryScript {
    pub name: String,
    pub path: String,
}

/// Mathematical shape of a binary script entry.
#[verifier::ext_equal]
pub struct BinaryScriptView {
    pub name: Seq<char>,
    pub path: Seq<char>,
}

impl View for BinaryScript {
    type V = BinaryScriptView;

    open spec fn view(&self) -> BinaryScriptView {
        BinaryScriptView { name: self.name@, path: self.path@ }
    }
}

impl DeepView for BinaryScript {
    type V = BinaryScriptView;

    open spec fn deep_view(&self) -> BinaryScriptView {
        self.view()
    }
}

impl Clone for BinaryScript {
    fn clone(&self) -> (r: Self)
        ensures
            r == *self,
    {
        BinaryScript { name: self.name.clone(), path: self.path.clone() }
    }
}

impl PartialEq for BinaryScript {
    fn eq(&self, other: &BinaryScript) -> (r: bool) {
        string_eq(&self.name, &other.name) && string_eq(&self.path, &other.path)
    }
}

impl vstd::std_specs::cmp::PartialEqSpecImpl for BinaryScript {
    open spec fn obeys_eq_spec() -> bool {
        true
    }

    open spec fn eq_spec(&self, other: &BinaryScript) -> bool {
        self@ == other@
    }
}

impl BinaryScript {
    pub fn new(name: String, path: String) -> (r: BinaryScript)
        ensures
            r@.name == name@,
            r@.path == path@,
    {
        BinaryScript { name, path }
    }
}

impl Clone for Dependency {
    fn clone(&self) -> (r: Self)
        ensures
            r == *self,
    {
        Dependency {
            name: self.name.clone(),
            real_name: self.real_name.clone(),
            version_or_dist_tag: self.version_or_dist_tag.clone(),
        }
    }
}

/// Mathematical shape of a registry package.
#[verifier::ext_equal]
pub struct NpmPackageView {
    pub name: Seq<char>,
    pub version: Seq<char>,
    pub dependencies: Seq<DependencyView>,
    pub shasum: Seq<char>,
    pub tarball_url: Seq<char>,
    pub binaries: Seq<BinaryScriptView>,
}

/// A concretely-versioned package resolved from the registry.
#[derive(Debug)]
pub struct NpmPackage {
    pub name: String,
    pub version: String,
    pub dependencies: Vec<Dependency>,
    pub shasum: String,
    pub tarball_url: String,
    pub binaries: Vec<BinaryScript>,
}

impl View for NpmPackage {
    type V = NpmPackageView;

    open spec fn view(&self) -> NpmPackageView {
        NpmPackageView {
            name: self.name@,
            version: self.version@,
            dependencies: self.dependencies.deep_view(),
            shasum: self.shasum@,
            tarball_url: self.tarball_url@,
            binaries: self.binaries.deep_view(),
        }
    }
}

impl DeepView for NpmPackage {
    type V = NpmPackageView;

    open spec fn deep_view(&self) -> NpmPackageView {
        self.view()
    }
}

/// Mathematical shape of a workspace member.
#[verifier::ext_equal]
pub struct WorkspacePackageView {
    pub base_path: Seq<char>,
    pub name: Seq<char>,
    pub version: Seq<char>,
    pub dependencies: Seq<DependencyView>,
    pub dev_dependencies: Seq<DependencyView>,
    pub binaries: Seq<BinaryScriptView>,
}

/// A local package found under the workspace root.
#[derive(Debug)]
pub struct WorkspacePackage {
    pub base_path: String,
    pub name: String,
    pub version: String,
    pub dependencies: Vec<Dependency>,
    pub dev_dependencies: Vec<Dependency>,
    pub binaries: Vec<BinaryScript>,
}

impl View for WorkspacePackage {
    type V = WorkspacePackageView;

    open spec fn view(&self) -> WorkspacePackageView {
        WorkspacePackageView {
            base_path: self.base_path@,
            name: self.name@,
            version: self.version@,
            dependencies: self.dependencies.deep_view(),
            dev_dependencies: self.dev_dependencies.deep_view(),
            binaries: self.binaries.deep_view(),
        }
    }
}

impl DeepView for WorkspacePackage {
    type V = WorkspacePackageView;

    open spec fn deep_view(&self) -> WorkspacePackageView {
        self.view()
    }
}

/// Mathematical shape of a graph node's package.
#[verifier::ext_equal]
pub enum PackageView {
    Npm(NpmPackageView),
    Workspace(WorkspacePackageView),
}

/// A node of the dependency graph: either resolved from the registry or a
/// workspace member.
#[derive(Debug)]
pub enum Package {
    NpmPackage(NpmPackage),
    WorkspacePackage(WorkspacePackage),
}

impl View for Package {
    type V = PackageView;

    open spec fn view(&self) -> PackageView {
        match self {
            Package::NpmPackage(p) => PackageView::Npm(p@),
            Package::WorkspacePackage(p) => PackageView::Workspace(p@),
        }
    }
}

impl DeepView for Package {
    type V = PackageView;

    open spec fn deep_view(&self) -> PackageView {
        self.view()
    }
}

/// A dependency list with later entries dropped when an earlier entry
/// already uses the same name; the first occurrence wins.
pub open spec fn dedup_by_name(s: Seq<DependencyView>) -> Seq<DependencyView>
    decreases s.len(),
{
    if s.len() == 0 {
        Seq::empty()
    } else {
        let kept = dedup_by_name(s.drop_last());
        if exists|j: int| 0 <= j < s.len() - 1 && s[j].name == s.last().name {
            kept
        } else {
            kept.push(s.last())
        }
    }
}

impl PackageView {
    /// The package's name.
    pub open spec fn name(self) -> Seq<char> {
        match self {
            PackageView::Npm(p) => p.name,
            PackageView::Workspace(p) => p.name,
        }
    }

    /// The package's version.
    pub open spec fn version(self) -> Seq<char> {
        match self {
            PackageView::Npm(p) => p.version,
            PackageView::Workspace(p) => p.version,
        }
    }

    /// The dependencies the package contributes to the graph: a workspace
    /// member also contributes its dev-dependencies, first name wins; a
    /// registry package only its plain dependencies.
    pub open spec fn dependencies(self) -> Seq<DependencyView> {
        match self {
            PackageView::Npm(p) => p.dependencies,
            PackageView::Workspace(p) => dedup_by_name(p.dependencies + p.dev_dependencies),
        }
    }

    /// The binary scripts the package declares.
    pub open spec fn binaries(self) -> Seq<BinaryScriptView> {
        match self {
            PackageView::Npm(p) => p.binaries,
            PackageView::Workspace(p) => p.binaries,
        }
    }
}

/// A copy of a dependency list.
pub(crate) fn clone_deps(v: &Vec<Dependency>) -> (r: Vec<Dependency>)
    ensures
        r@ == v@,
{
    let mut out: Vec<Dependency> = Vec::new();
    let mut i: usize = 0;
    while i < v.len()
        invariant
            i <= v.len(),
            out@ =~= v@.subrange(0, i as int),
        decreases v.len() - i,
    {
        out.push(v[i].clone());
        i = i + 1;
    }
    proof {
        assert(out@ =~= v@);
    }
    out
}

/// A copy of a binary script list.
pub(crate) fn clone_binaries(v: &Vec<BinaryScript>) -> (r: Vec<BinaryScript>)
    ensures
        r@ == v@,
{
    let mut out: Vec<BinaryScript> = Vec::new();
    let mut i: usize = 0;
    while i < v.len()
        invariant
            i <= v.len(),
            out@ =~= v@.subrange(0, i as int),
        decreases v.len() - i,
    {
        out.push(v[i].clone());
        i = i + 1;
    }
    proof {
        assert(out@ =~= v@);
    }
    out
}

/// Dependency descriptors parsed out of a manifest's `(name, spec)` table.
pub open spec fn entries_deps(es: Seq<(Seq<char>, Seq<char>)>) -> Seq<DependencyView> {
    es.map_values(|e: (Seq<char>, Seq<char>)| crate::dependency::dep_of_entry(e.0, e.1))
}

/// Dependency descriptors parsed out of a manifest's `(name, spec)` table;
/// an absent table contributes nothing.
pub open spec fn deps_of_entries(entries: Option<Seq<(Seq<char>, Seq<char>)>>) -> Seq<
    DependencyView,
> {
    match entries {
        None => Seq::empty(),
        Some(es) => entries_deps(es),
    }
}

/// Parses every entry of an optional dependency table.
fn to_dependencies_list(dependencies: Option<Vec<(String, String)>>) -> (r: Vec<Dependency>)
    ensures
        r.deep_view() == deps_of_entries(
            match dependencies {
                Some(es) => Some(es.deep_view()),
                None => None,
            },
        ),
{
    let mut out: Vec<Dependency> = Vec::new();
    match dependencies {
        None => {
            proof {
                assert(out.deep_view() =~= Seq::<DependencyView>::empty());
            }
        },
        Some(es) => {
            let mut i: usize = 0;
            while i < es.len()
                invariant
                    i <= es.len(),
                    out.deep_view() == entries_deps(es.deep_view().subrange(0, i as int)),
                decreases es.len() - i,
            {
                let d = Dependency::from_entry(es[i].0.as_str(), es[i].1.as_str());
                let ghost old_out = out.deep_view();
                out.push(d);
                proof {
                    let lhs = out.deep_view();
                    let rhs = entries_deps(es.deep_view().subrange(0, i + 1 as int));
                    assert(es.deep_view()[i as int] == (es@[i as int].0@, es@[i as int].1@));
                    assert(entries_deps(es.deep_view().subrange(0, i as int)).len() == i);
                    assert(old_out.len() == i);
                    assert(lhs.len() == i + 1);
                    assert(rhs.len() == i + 1);
                    assert forall|k: int| 0 <= k < i + 1 implies lhs[k] == rhs[k] by {
                        assert(lhs[k] == out@[k]@);
                        if k < i {
                            assert(lhs[k] == old_out[k]);
                            assert(old_out[k] == entries_deps(
                                es.deep_view().subrange(0, i as int),
                            )[k]);
                            assert(es.deep_view().subrange(0, i as int)[k] == es.deep_view().subrange(
                                0,
                                i + 1 as int,
                            )[k]);
                        } else {
                            assert(lhs[k] == d@);
                            assert(es.deep_view().subrange(0, i + 1 as int)[k]
                                == es.deep_view()[i as int]);
                        }
                    }
                    assert(lhs =~= rhs);
                }
                i = i + 1;
            }
            proof {
                assert(es.deep_view().subrange(0, es@.len() as int) =~= es.deep_view());
            }
        },
    }
    out
}

impl NpmPackage {
    /// A registry package from its metadata pieces; the dependency table
    /// is parsed entry by entry.
    pub fn new(
        name: String,
        version: String,
        dependencies: Option<Vec<(String, String)>>,
        shasum: String,
        tarball_url: String,
        binaries: Vec<BinaryScript>,
    ) -> (r: NpmPackage)
        ensures
            r@.name == name@,
            r@.version == version@,
            r@.dependencies == deps_of_entries(
                match dependencies {
                    Some(es) => Some(es.deep_view()),
                    None => None,
                },
            ),
            r@.shasum == shasum@,
            r@.tarball_url == tarball_url@,
            r@.binaries == binaries.deep_view(),
    {
        NpmPackage {
            name,
            version,
            dependencies: to_dependencies_list(dependencies),
            shasum,
            tarball_url,
            binaries,
        }
    }

    /// The dependencies contributed to the graph.
    pub fn dependencies(&self) -> (r: Vec<Dependency>)
        ensures
            r.deep_view() == PackageView::Npm(self@).dependencies(),
    {
        clone_deps(&self.dependencies)
    }
}

impl WorkspacePackage {
    /// A workspace member from its manifest pieces.
    pub fn new(
        name: String,
        version: String,
        dependencies: Option<Vec<(String, String)>>,
        dev_dependencies: Option<Vec<(String, String)>>,
        binaries: Vec<BinaryScript>,
        base_path: String,
    ) -> (r: WorkspacePackage)
        ensures
            r@.base_path == base_path@,
            r@.name == name@,
            r@.version == version@,
            r@.dependencies == deps_of_entries(
                match dependencies {
                    Some(es) => Some(es.deep_view()),
                    None => None,
                },
            ),
            r@.dev_dependencies == deps_of_entries(
                match dev_dependencies {
                    Some(es) => Some(es.deep_view()),
                    None => None,
                },
            ),
            r@.binaries == binaries.deep_view(),
    {
        WorkspacePackage {
            base_path,
            name,
            version,
            dependencies: to_dependencies_list(dependencies),
            dev_dependencies: to_dependencies_list(dev_dependencies),
            binaries,
        }
    }

    /// The dependencies contributed to the graph: dependencies first, then
    /// dev-dependencies, an earlier name shadowing a later repetition.
    pub fn dependencies(&self) -> (r: Vec<Dependency>)
        ensures
            r.deep_view() == PackageView::Workspace(self@).dependencies(),
    {
        let mut all = clone_deps(&self.dependencies);
        let mut dev = clone_deps(&self.dev_dependencies);
        all.append(&mut dev);
        proof {
            assert(all.deep_view() =~~= self@.dependencies + self@.dev_dependencies);
        }
        dedup_deps(&all)
    }
}

/// Whether one of the first `bound` entries uses the name `n`.
pub open spec fn name_among(s: Seq<DependencyView>, bound: int, n: Seq<char>) -> bool {
    exists|j: int| 0 <= j < bound && s[j].name == n
}

/// Drops every dependency whose name an earlier entry already used.
fn dedup_deps(v: &Vec<Dependency>) -> (r: Vec<Dependency>)
    ensures
        r.deep_view() == dedup_by_name(v.deep_view()),
{
    let mut out: Vec<Dependency> = Vec::new();
    let mut i: usize = 0;
    while i < v.len()
        invariant
            i <= v.len(),
            out.deep_view() =~~= dedup_by_name(v.deep_view().subrange(0, i as int)),
            forall|k: int|
                0 <= k < out.deep_view().len() ==> name_among(
                    v.deep_view(),
                    i as int,
                    (#[trigger] out.deep_view()[k]).name,
                ),
            forall|j: int|
                0 <= j < i ==> name_among(
                    out.deep_view(),
                    out.deep_view().len() as int,
                    (#[trigger] v.deep_view()[j]).name,
                ),
        decreases v.len() - i,
    {
        let mut present = false;
        let mut k: usize = 0;
        while k < out.len()
            invariant
                k <= out.len(),
                i < v.len(),
                present == name_among(out.deep_view(), k as int, v.deep_view()[i as int].name),
            decreases out.len() - k,
        {
            let hit = string_eq(&out[k].name, &v[i].name);
            proof {
                assert(out.deep_view()[k as int] == out@[k as int]@);
                assert(v.deep_view()[i as int] == v@[i as int]@);
                if hit {
                    assert(name_among(
                        out.deep_view(),
                        k + 1 as int,
                        v.deep_view()[i as int].name,
                    ));
                }
            }
            if hit {
                present = true;
            }
            k = k + 1;
        }
        proof {
            assert(present == name_among(
                out.deep_view(),
                out.deep_view().len() as int,
                v.deep_view()[i as int].name,
            ));
            // `present` says the same as the spec's look-back over the prefix.
            if present {
                let m = choose|m: int|
                    0 <= m < out.deep_view().len() && out.deep_view()[m].name
                        == v.deep_view()[i as int].name;
                assert(name_among(v.deep_view(), i as int, out.deep_view()[m].name));
            } else {
                if name_among(v.deep_view(), i as int, v.deep_view()[i as int].name) {
                    let j = choose|j: int|
                        0 <= j < i && v.deep_view()[j].name == v.deep_view()[i as int].name;
                    assert(name_among(
                        out.deep_view(),
                        out.deep_view().len() as int,
                        v.deep_view()[j].name,
                    ));
                    assert(false);
                }
            }
            assert(present == name_among(v.deep_view(), i as int, v.deep_view()[i as int].name));
        }
        let ghost old_out = out.deep_view();
        if !present {
            out.push(v[i].clone());
            proof {
                assert(out.deep_view() =~~= old_out.push(v.deep_view()[i as int]));
            }
        }
        proof {
            let prefix = v.deep_view().subrange(0, i + 1 as int);
            assert(prefix.drop_last() =~= v.deep_view().subrange(0, i as int));
            assert(prefix.last() == v.deep_view()[i as int]);
            assert(forall|j: int| 0 <= j < i ==> prefix[j] == v.deep_view()[j]);
            // The spec's look-back over the prefix agrees with `present`.
            if present {
                let j = choose|j: int|
                    0 <= j < i && v.deep_view()[j].name == v.deep_view()[i as int].name;
                assert(prefix[j].name == prefix.last().name);
                assert(exists|j2: int|
                    0 <= j2 < prefix.len() - 1 && prefix[j2].name == prefix.last().name);
            } else {
                if exists|j2: int|
                    0 <= j2 < prefix.len() - 1 && prefix[j2].name == prefix.last().name {
                    let j2 = choose|j2: int|
                        0 <= j2 < prefix.len() - 1 && prefix[j2].name == prefix.last().name;
                    assert(v.deep_view()[j2].name == v.deep_view()[i as int].name);
                    assert(name_among(v.deep_view(), i as int, v.deep_view()[i as int].name));
                    assert(false);
                }
            }
            assert(out.deep_view() =~~= dedup_by_name(prefix));
            assert forall|j: int| 0 <= j < i + 1 implies name_among(
                out.deep_view(),
                out.deep_view().len() as int,
                (#[trigger] v.deep_view()[j]).name,
            ) by {
                if j < i {
                    let m = choose|m: int|
                        0 <= m < old_out.len() && old_out[m].name == v.deep_view()[j].name;
                    assert(out.deep_view()[m].name == v.deep_view()[j].name);
                } else {
                    if present {
                        let m = choose|m: int|
                            0 <= m < old_out.len() && old_out[m].name
                                == v.deep_view()[i as int].name;
                        assert(out.deep_view()[m].name == v.deep_view()[j].name);
                    } else {
                        assert(out.deep_view()[out.deep_view().len() - 1].name
                            == v.deep_view()[j].name);
                    }
                }
            }
        }
        i = i + 1;
    }
    proof {
        assert(v.deep_view().subrange(0, v@.len() as int) =~= v.deep_view());
    }
    out
}

impl Package {
    /// The package's name.
    pub fn name(&self) -> (r: &str)
        ensures
            r@ == self@.name(),
    {
        match self {
            Package::NpmPackage(p) => p.name.as_str(),
            Package::WorkspacePackage(p) => p.name.as_str(),
        }
    }

    /// The package's version.
    pub fn version(&self) -> (r: &str)
        ensures
            r@ == self@.version(),
    {
        match self {
            Package::NpmPackage(p) => p.version.as_str(),
            Package::WorkspacePackage(p) => p.version.as_str(),
        }
    }

    /// The dependencies the package contributes to the graph.
    pub fn dependencies(&self) -> (r: Vec<Dependency>)
        ensures
            r.deep_view() == self@.dependencies(),
    {
        match self {
            Package::NpmPackage(p) => p.dependencies(),
            Package::WorkspacePackage(p) => p.dependencies(),
        }
    }

    /// The binary scripts the package declares.
    pub fn binaries(&self) -> (r: &Vec<BinaryScript>)
        ensures
            r.deep_view() == self@.binaries(),
    {
        match self {
            Package::NpmPackage(p) => &p.binaries,
            Package::WorkspacePackage(p) => &p.binaries,
        }
    }
}

/// Equality of two dependency lists, by contents.
fn deps_eq(a: &Vec<Dependency>, b: &Vec<Dependency>) -> (r: bool)
    ensures
        r == (a.deep_view() == b.deep_view()),
{
    if a.len() != b.len() {
        proof {
            assert(a.deep_view().len() == a@.len());
            assert(b.deep_view().len() == b@.len());
        }
        return false;
    }
    let mut i: usize = 0;
    while i < a.len()
        invariant
            i <= a.len(),
            a@.len() == b@.len(),
            forall|j: int| 0 <= j < i ==> a.deep_view()[j] == b.deep_view()[j],
        decreases a.len() - i,
    {
        if !(string_eq(&a[i].name, &b[i].name) && string_eq(&a[i].real_name, &b[i].real_name)
            && string_eq(&a[i].version_or_dist_tag, &b[i].version_or_dist_tag)) {
            proof {
                assert(a.deep_view()[i as int] == a@[i as int]@);
                assert(b.deep_view()[i as int] == b@[i as int]@);
            }
            return false;
        }
        proof {
            assert(a.deep_view()[i as int] == a@[i as int]@);
            assert(b.deep_view()[i as int] == b@[i as int]@);
        }
        i = i + 1;
    }
    proof {
        assert(a.deep_view() =~= b.deep_view());
    }
    true
}

/// Equality of two binary script lists, by contents.
fn binaries_eq(a: &Vec<BinaryScript>, b: &Vec<BinaryScript>) -> (r: bool)
    ensures
        r == (a.deep_view() == b.deep_view()),
{
    if a.len() != b.len() {
        proof {
            assert(a.deep_view().len() == a@.len());
            assert(b.deep_view().len() == b@.len());
        }
        return false;
    }
    let mut i: usize = 0;
    while i < a.len()
        invariant
            i <= a.len(),
            a@.len() == b@.len(),
            forall|j: int| 0 <= j < i ==> a.deep_view()[j] == b.deep_view()[j],
        decreases a.len() - i,
    {
        if !(string_eq(&a[i].name, &b[i].name) && string_eq(&a[i].path, &b[i].path)) {
            proof {
                assert(a.deep_view()[i as int] == a@[i as int]@);
                assert(b.deep_view()[i as int] == b@[i as int]@);
            }
            return false;
        }
        proof {
            assert(a.deep_view()[i as int] == a@[i as int]@);
            assert(b.deep_view()[i as int] == b@[i as int]@);
        }
        i = i + 1;
    }
    proof {
        assert(a.deep_view() =~= b.deep_view());
    }
    true
}

impl Clone for NpmPackage {
    fn clone(&self) -> (r: Self)
        ensures
            r@ == self@,
    {
        NpmPackage {
            name: self.name.clone(),
            version: self.version.clone(),
            dependencies: clone_deps(&self.dependencies),
            shasum: self.shasum.clone(),
            tarball_url: self.tarball_url.clone(),
            binaries: clone_binaries(&self.binaries),
        }
    }
}

impl PartialEq for NpmPackage {
    fn eq(&self, other: &NpmPackage) -> (r: bool) {
        string_eq(&self.name, &other.name) && string_eq(&self.version, &other.version) && deps_eq(
            &self.dependencies,
            &other.dependencies,
        ) && string_eq(&self.shasum, &other.shasum) && string_eq(
            &self.tarball_url,
            &other.tarball_url,
        ) && binaries_eq(&self.binaries, &other.binaries)
    }
}

impl vstd::std_specs::cmp::PartialEqSpecImpl for NpmPackage {
    open spec fn obeys_eq_spec() -> bool {
        true
    }

    open spec fn eq_spec(&self, other: &NpmPackage) -> bool {
        self@ == other@
    }
}

impl Clone for WorkspacePackage {
    fn clone(&self) -> (r: Self)
        ensures
            r@ == self@,
    {
        WorkspacePackage {
            base_path: self.base_path.clone(),
            name: self.name.clone(),
            version: self.version.clone(),
            dependencies: clone_deps(&self.dependencies),
            dev_dependencies: clone_deps(&self.dev_dependencies),
            binaries: clone_binaries(&self.binaries),
        }
    }
}

impl PartialEq for WorkspacePackage {
    fn eq(&self, other: &WorkspacePackage) -> (r: bool) {
        string_eq(&self.base_path, &other.base_path) && string_eq(&self.name, &other.name)
            && string_eq(&self.version, &other.version) && deps_eq(
            &self.dependencies,
            &other.dependencies,
        ) && deps_eq(&self.dev_dependencies, &other.dev_dependencies) && binaries_eq(
            &self.binaries,
            &other.binaries,
        )
    }
}

impl vstd::std_specs::cmp::PartialEqSpecImpl for WorkspacePackage {
    open spec fn obeys_eq_spec() -> bool {
        true
    }

    open spec fn eq_spec(&self, other: &WorkspacePackage) -> bool {
        self@ == other@
    }
}

impl Clone for Package {
    fn clone(&self) -> (r: Self)
        ensures
            r@ == self@,
    {
        match self {
            Package::NpmPackage(p) => Package::NpmPackage(p.clone()),
            Package::WorkspacePackage(p) => Package::WorkspacePackage(p.clone()),
        }
    }
}

impl PartialEq for Package {
    fn eq(&self, other: &Package) -> (r: bool) {
        match (self, other) {
            (Package::NpmPackage(a), Package::NpmPackage(b)) => a == b,
            (Package::WorkspacePackage(a), Package::WorkspacePackage(b)) => a == b,
            _ => false,
        }
    }
}

impl vstd::std_specs::cmp::PartialEqSpecImpl for Package {
    open spec fn obeys_eq_spec() -> bool {
        true
    }

    open spec fn eq_spec(&self, other: &Package) -> bool {
        self@ == other@
    }
}

} // verus!
