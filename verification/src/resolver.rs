//! Version resolution: extracting a requirement from a dependency, picking
//! the greatest satisfying version, building the resolved package, and the
//! caching resolver that prefers workspace members.

use vstd::prelude::*;

use crate::common::{binaries_of, extract_binaries};
use crate::dependency::{Dependency, DependencyView};
use crate::errors::JmCoreError;
use crate::metadata::{
    assoc_lookup, lemma_assoc_lookup_at, lemma_assoc_lookup_some, PackageMetadata,
    PackageMetadataView, VersionMetadataView,
};
use crate::package::{
    BinaryScript, BinaryScriptView, NpmPackage, NpmPackageView, Package, PackageView,
    WorkspacePackage, WorkspacePackageView,
};
use crate::strutil::{copy_str, str_eq, string_eq};
use crate::version::{
    is_npm_req, is_version, npm_req_matches, npm_req_parses, parse_version, parts_lt, req_matches,
    semver_text_ok, semver_text_safe, version_lt, version_parts, lemma_parts_lt_irrefl,
    lemma_parts_lt_trans, VersionParts,
};

verus! {

/// A version requirement: either an npm range as written in a manifest, or
/// an exact version that a dist-tag pointed at.
#[derive(Debug)]
pub enum VersionReq {
    Range(String),
    Exact(String),
}

/// Mathematical shape of a version requirement.
#[verifier::ext_equal]
pub enum VersionReqView {
    Range(Seq<char>),
    Exact(Seq<char>),
}

impl View for VersionReq {
    type V = VersionReqView;

    open spec fn view(&self) -> VersionReqView {
        match self {
            VersionReq::Range(s) => VersionReqView::Range(s@),
            VersionReq::Exact(v) => VersionReqView::Exact(v@),
        }
    }
}

impl Clone for VersionReq {
    fn clone(&self) -> (r: Self)
        ensures
            r@ == self@,
    {
        match self {
            VersionReq::Range(s) => VersionReq::Range(s.clone()),
            VersionReq::Exact(v) => VersionReq::Exact(v.clone()),
        }
    }
}

/// The requirement as a reader sees it in an error message.
pub open spec fn req_text(r: VersionReqView) -> Seq<char> {
    match r {
        VersionReqView::Range(s) => s,
        VersionReqView::Exact(v) => v,
    }
}

/// Whether a requirement accepts a version string: a range accepts what
/// satisfies it, an exact requirement accepts only its own version; both
/// texts must stay inside the semver parsers' machine limits.
pub open spec fn req_accepts(r: VersionReqView, version: Seq<char>) -> bool {
    match r {
        VersionReqView::Range(s) => semver_text_safe(s) && semver_text_safe(version)
            && is_npm_req(s) && is_version(version) && npm_req_matches(s, version),
        VersionReqView::Exact(v) => version == v && semver_text_safe(version) && is_version(
            version,
        ),
    }
}

/// Whether the requirement accepts the given version.
pub fn version_matches(req: &VersionReq, version: &str) -> (r: bool)
    ensures
        r == req_accepts(req@, version@),
{
    match req {
        VersionReq::Range(s) => {
            if semver_text_ok(s.as_str()) && semver_text_ok(version) {
                match req_matches(s.as_str(), version) {
                    Some(b) => b,
                    None => false,
                }
            } else {
                false
            }
        },
        VersionReq::Exact(v) => {
            if semver_text_ok(version) {
                match parse_version(version) {
                    Some(_) => str_eq(version, v.as_str()),
                    None => false,
                }
            } else {
                false
            }
        },
    }
}

/// The message given when a dist-tag is not in the metadata.
pub open spec fn dist_tag_missing_msg(dep: DependencyView) -> Seq<char> {
    "Failed to resolve dist tag "@ + dep.version_or_dist_tag + " of package "@ + dep.real_name
}

/// The message given when a dist-tag points at an unlisted version.
pub open spec fn dist_tag_dangling_msg(dep: DependencyView, version: Seq<char>) -> Seq<char> {
    dep.real_name + "@"@ + dep.version_or_dist_tag + " points to version "@ + version
        + ", which does not exist"@
}

/// The message given when no listed version satisfies the requirement.
pub open spec fn no_versions_msg(parent: Seq<char>, package_name: Seq<char>, r: VersionReqView) -> Seq<
    char,
> {
    "No matching versions for "@ + parent + "->"@ + package_name + " (requested "@ + req_text(r)
        + ")"@
}

/// What requirement a dependency asks for, given the package's metadata:
/// a well-formed range inside the parsers' machine limits stands for
/// itself; anything else is taken as a dist-tag, which must name a listed
/// version.
pub open spec fn extracted_req(dep: DependencyView, md: PackageMetadataView) -> Result<
    VersionReqView,
    Seq<char>,
> {
    if semver_text_safe(dep.version_or_dist_tag) && is_npm_req(dep.version_or_dist_tag) {
        Ok(VersionReqView::Range(dep.version_or_dist_tag))
    } else {
        match assoc_lookup(md.dist_tags, dep.version_or_dist_tag) {
            None => Err(dist_tag_missing_msg(dep)),
            Some(v) => if assoc_lookup(md.versions, v) is Some {
                Ok(VersionReqView::Exact(v))
            } else {
                Err(dist_tag_dangling_msg(dep, v))
            },
        }
    }
}

pub fn extract_dependency_version_req(dep: &Dependency, metadata: &PackageMetadata) -> (r: Result<
    VersionReq,
    JmCoreError,
>)
    ensures
        match r {
            Ok(rq) => extracted_req(dep@, metadata@) == Ok::<VersionReqView, Seq<char>>(rq@),
            Err(e) => extracted_req(dep@, metadata@) == Err::<VersionReqView, Seq<char>>(e@),
        },
{
    if semver_text_ok(dep.version_or_dist_tag.as_str()) && npm_req_parses(
        dep.version_or_dist_tag.as_str(),
    ) {
        return Ok(VersionReq::Range(dep.version_or_dist_tag.clone()));
    }
    match metadata.dist_tag_of(&dep.version_or_dist_tag) {
        None => {
            let mut m = copy_str("Failed to resolve dist tag ");
            m.append(dep.version_or_dist_tag.as_str());
            m.append(" of package ");
            m.append(dep.real_name.as_str());
            proof {
                assert(m@ =~= dist_tag_missing_msg(dep@));
            }
            Err(JmCoreError::new(m))
        },
        Some(version) => {
            if metadata.has_version(version) {
                Ok(VersionReq::Exact(version.clone()))
            } else {
                let mut m = copy_str(dep.real_name.as_str());
                m.append("@");
                m.append(dep.version_or_dist_tag.as_str());
                m.append(" points to version ");
                m.append(version.as_str());
                m.append(", which does not exist");
                proof {
                    assert(m@ =~= dist_tag_dangling_msg(dep@, version@));
                }
                Err(JmCoreError::new(m))
            }
        },
    }
}

/// Picks the greatest listed version that the requirement accepts: the
/// answer is a listed version, it satisfies the requirement, and no listed
/// version that also satisfies it has higher precedence.
pub fn resolve_version(parent: &str, req: &VersionReq, metadata: &PackageMetadata) -> (r: Result<
    String,
    JmCoreError,
>)
    ensures
        match r {
            Ok(m) => {
                &&& assoc_lookup(metadata@.versions, m@) is Some
                &&& req_accepts(req@, m@)
                &&& forall|k: int|
                    0 <= k < metadata@.versions.len() && req_accepts(
                        req@,
                        (#[trigger] metadata@.versions[k]).0,
                    ) ==> !parts_lt(version_parts(m@), version_parts(metadata@.versions[k].0))
            },
            Err(e) => {
                &&& e@ == no_versions_msg(parent@, metadata@.package_name, req@)
                &&& forall|k: int|
                    0 <= k < metadata@.versions.len() ==> !req_accepts(
                        req@,
                        (#[trigger] metadata@.versions[k]).0,
                    )
            },
        },
{
    let mut best_idx: Option<usize> = None;
    let mut best_parts: VersionParts = VersionParts {
        major: 0,
        minor: 0,
        patch: 0,
        pre: Vec::new(),
    };
    let mut i: usize = 0;
    while i < metadata.versions.len()
        invariant
            i <= metadata.versions.len(),
            metadata@.versions.len() == metadata.versions@.len(),
            match best_idx {
                Some(b) => {
                    &&& b < i
                    &&& req_accepts(req@, metadata@.versions[b as int].0)
                    &&& best_parts@ == version_parts(metadata@.versions[b as int].0)
                    &&& forall|k: int|
                        0 <= k < i && req_accepts(req@, (#[trigger] metadata@.versions[k]).0)
                            ==> !parts_lt(best_parts@, version_parts(metadata@.versions[k].0))
                },
                None => forall|k: int|
                    0 <= k < i ==> !req_accepts(req@, (#[trigger] metadata@.versions[k]).0),
            },
        decreases metadata.versions.len() - i,
    {
        let key = &metadata.versions[i].0;
        proof {
            assert(metadata@.versions[i as int].0 == metadata.versions@[i as int].0@);
        }
        if version_matches(req, key.as_str()) {
            let parts = match parse_version(key.as_str()) {
                Some(p) => p,
                None => {
                    proof {
                        assert(false);
                    }
                    return Err(JmCoreError::new(String::new()));
                },
            };
            match best_idx {
                None => {
                    proof {
                        lemma_parts_lt_irrefl(parts@);
                    }
                    best_idx = Some(i);
                    best_parts = parts;
                },
                Some(b) => {
                    if version_lt(&best_parts, &parts) {
                        proof {
                            lemma_parts_lt_irrefl(parts@);
                            let old_best = best_parts@;
                            assert forall|k: int|
                                0 <= k < i && req_accepts(
                                    req@,
                                    (#[trigger] metadata@.versions[k]).0,
                                ) implies !parts_lt(
                                parts@,
                                version_parts(metadata@.versions[k].0),
                            ) by {
                                if parts_lt(parts@, version_parts(metadata@.versions[k].0)) {
                                    lemma_parts_lt_trans(
                                        old_best,
                                        parts@,
                                        version_parts(metadata@.versions[k].0),
                                    );
                                }
                            }
                        }
                        best_idx = Some(i);
                        best_parts = parts;
                    }
                },
            }
        }
        i = i + 1;
    }
    match best_idx {
        Some(b) => {
            let m = metadata.versions[b].0.clone();
            proof {
                lemma_assoc_lookup_some(metadata@.versions, m@);
            }
            Ok(m)
        },
        None => {
            let mut msg = copy_str("No matching versions for ");
            msg.append(parent);
            msg.append("->");
            msg.append(metadata.package_name.as_str());
            msg.append(" (requested ");
            match req {
                VersionReq::Range(s) => msg.append(s.as_str()),
                VersionReq::Exact(v) => msg.append(v.as_str()),
            }
            msg.append(")");
            proof {
                assert(msg@ =~= no_versions_msg(parent@, metadata@.package_name, req@));
            }
            Err(JmCoreError::new(msg))
        },
    }
}

/// Binary script entries as view records.
pub open spec fn bin_views(s: Seq<(Seq<char>, Seq<char>)>) -> Seq<BinaryScriptView> {
    s.map_values(|b: (Seq<char>, Seq<char>)| BinaryScriptView { name: b.0, path: b.1 })
}

/// The package a dependency resolves to at a given version, built from the
/// version's metadata: it takes the dependency's install name, the chosen
/// version, and the metadata's dependency table, checksum, tarball address
/// and binaries.
pub open spec fn package_at_version(
    dep: DependencyView,
    version: Seq<char>,
    vm: VersionMetadataView,
) -> NpmPackageView {
    NpmPackageView {
        name: dep.name,
        version: version,
        dependencies: crate::package::entries_deps(vm.dependencies),
        shasum: vm.shasum,
        tarball_url: vm.tarball,
        binaries: bin_views(binaries_of(dep.name, vm.bin)),
    }
}

/// A fresh resolution of a dependency against a metadata document: the
/// extracted requirement accepts the package's version, no listed version
/// the requirement also accepts has higher precedence, and the package is
/// built from that version's entry.
pub open spec fn fresh_resolution(
    dep: DependencyView,
    md: PackageMetadataView,
    p: NpmPackageView,
) -> bool {
    &&& extracted_req(dep, md) matches Ok(rq) && req_accepts(rq, p.version) && (forall|k: int|
        0 <= k < md.versions.len() && req_accepts(rq, (#[trigger] md.versions[k]).0) ==> !parts_lt(
            version_parts(p.version),
            version_parts(md.versions[k].0),
        ))
    &&& assoc_lookup(md.versions, p.version) matches Some(vm) && p == package_at_version(
        dep,
        p.version,
        vm,
    )
}

/// Resolves one dependency against one metadata document: the requirement
/// is extracted, the greatest satisfying version picked, and the package
/// built from that version's entry.
pub fn resolve_dependency(requester: &str, dep: &Dependency, metadata: &PackageMetadata) -> (r:
    Result<NpmPackage, JmCoreError>)
    ensures
        match r {
            Ok(p) => fresh_resolution(dep@, metadata@, p@),
            Err(e) => {
                extracted_req(dep@, metadata@) == Err::<VersionReqView, Seq<char>>(e@) || (
                extracted_req(dep@, metadata@) matches Ok(rq) && e@ == no_versions_msg(
                    requester@,
                    metadata@.package_name,
                    rq,
                ) && forall|k: int|
                    0 <= k < metadata@.versions.len() ==> !req_accepts(
                        rq,
                        (#[trigger] metadata@.versions[k]).0,
                    ))
            },
        },
{
    let rq = match extract_dependency_version_req(dep, metadata) {
        Ok(rq) => rq,
        Err(e) => {
            return Err(e);
        },
    };
    let version = match resolve_version(requester, &rq, metadata) {
        Ok(v) => v,
        Err(e) => {
            return Err(e);
        },
    };
    let vm = match metadata.version_entry(&version) {
        Some(vm) => vm,
        None => {
            proof {
                assert(false);
            }
            return Err(JmCoreError::new(String::new()));
        },
    };
    let raw_binaries = extract_binaries(dep.name.as_str(), &vm.bin);
    let mut binaries: Vec<BinaryScript> = Vec::new();
    let mut i: usize = 0;
    while i < raw_binaries.len()
        invariant
            i <= raw_binaries.len(),
            binaries.deep_view() == bin_views(raw_binaries.deep_view().subrange(0, i as int)),
        decreases raw_binaries.len() - i,
    {
        let ghost old_bins = binaries.deep_view();
        binaries.push(BinaryScript::new(raw_binaries[i].0.clone(), raw_binaries[i].1.clone()));
        proof {
            let lhs = binaries.deep_view();
            let rhs = bin_views(raw_binaries.deep_view().subrange(0, i + 1 as int));
            assert(raw_binaries.deep_view()[i as int] == (
                raw_binaries@[i as int].0@,
                raw_binaries@[i as int].1@,
            ));
            assert(bin_views(raw_binaries.deep_view().subrange(0, i as int)).len() == i);
            assert(old_bins.len() == i);
            assert(lhs.len() == i + 1);
            assert(rhs.len() == i + 1);
            assert forall|k: int| 0 <= k < i + 1 implies lhs[k] == rhs[k] by {
                assert(lhs[k] == binaries@[k]@);
                if k < i {
                    assert(lhs[k] == old_bins[k]);
                    assert(old_bins[k] == bin_views(
                        raw_binaries.deep_view().subrange(0, i as int),
                    )[k]);
                    assert(raw_binaries.deep_view().subrange(0, i as int)[k]
                        == raw_binaries.deep_view().subrange(0, i + 1 as int)[k]);
                } else {
                    assert(raw_binaries.deep_view().subrange(0, i + 1 as int)[k]
                        == raw_binaries.deep_view()[i as int]);
                }
            }
            assert(lhs =~= rhs);
        }
        i = i + 1;
    }
    proof {
        assert(raw_binaries.deep_view().subrange(0, raw_binaries@.len() as int) =~= raw_binaries.deep_view());
    }
    let mut dep_entries: Vec<(String, String)> = Vec::new();
    let mut j: usize = 0;
    while j < vm.dependencies.len()
        invariant
            j <= vm.dependencies.len(),
            dep_entries.deep_view() == vm.dependencies.deep_view().subrange(0, j as int),
        decreases vm.dependencies.len() - j,
    {
        let ghost old_entries = dep_entries.deep_view();
        dep_entries.push((vm.dependencies[j].0.clone(), vm.dependencies[j].1.clone()));
        proof {
            let lhs = dep_entries.deep_view();
            let rhs = vm.dependencies.deep_view().subrange(0, j + 1 as int);
            assert(vm.dependencies.deep_view()[j as int] == (
                vm.dependencies@[j as int].0@,
                vm.dependencies@[j as int].1@,
            ));
            assert(old_entries.len() == j);
            assert(lhs.len() == j + 1);
            assert forall|k: int| 0 <= k < j + 1 implies lhs[k] == rhs[k] by {
                assert(lhs[k] == dep_entries@[k].deep_view());
                if k < j {
                    assert(lhs[k] == old_entries[k]);
                    assert(old_entries[k] == vm.dependencies.deep_view().subrange(0, j as int)[k]);
                } else {
                    assert(rhs[k] == vm.dependencies.deep_view()[j as int]);
                }
            }
            assert(lhs =~= rhs);
        }
        j = j + 1;
    }
    proof {
        assert(vm.dependencies.deep_view().subrange(0, vm.dependencies@.len() as int)
            =~= vm.dependencies.deep_view());
    }
    let package = NpmPackage::new(
        copy_str(dep.name.as_str()),
        version,
        Some(dep_entries),
        vm.shasum.clone(),
        vm.tarball.clone(),
        binaries,
    );
    proof {
        assert(package@ =~~= package_at_version(dep@, package@.version, vm@));
        assert(fresh_resolution(dep@, metadata@, package@));
    }
    Ok(package)
}

/// The first workspace member carrying the given name, if any.
pub open spec fn first_ws_with_name(s: Seq<WorkspacePackageView>, name: Seq<char>) -> Option<
    WorkspacePackageView,
>
    decreases s.len(),
{
    if s.len() == 0 {
        None
    } else if s[0].name == name {
        Some(s[0])
    } else {
        first_ws_with_name(s.skip(1), name)
    }
}

proof fn lemma_first_ws_at(s: Seq<WorkspacePackageView>, name: Seq<char>, i: int)
    requires
        0 <= i < s.len(),
        s[i].name == name,
        forall|j: int| 0 <= j < i ==> s[j].name != name,
    ensures
        first_ws_with_name(s, name) == Some(s[i]),
    decreases i,
{
    if i > 0 {
        lemma_first_ws_at(s.skip(1), name, i - 1);
    }
}

proof fn lemma_first_ws_none(s: Seq<WorkspacePackageView>, name: Seq<char>)
    requires
        forall|j: int| 0 <= j < s.len() ==> s[j].name != name,
    ensures
        first_ws_with_name(s, name) is None,
    decreases s.len(),
{
    if s.len() > 0 {
        assert(forall|j: int| 0 <= j < s.skip(1).len() ==> s.skip(1)[j] == s[j + 1]);
        lemma_first_ws_none(s.skip(1), name);
    }
}

/// Where registry documents come from: the network client with its disk
/// cache stands behind this, outside the library.
pub trait MetadataSource {
    fn get_metadata(&mut self, package_name: &str) -> Result<PackageMetadata, JmCoreError>;
}

/// Whether the cache's first row for a name holds the package.
pub open spec fn cache_holds(
    cache: Seq<(Seq<char>, Seq<PackageView>)>,
    name: Seq<char>,
    p: PackageView,
) -> bool {
    match assoc_lookup(cache, name) {
        Some(ps) => ps.contains(p),
        None => false,
    }
}

/// Whether a package's version stands checked against a metadata document
/// for the dependency's registry name: the document carries that name, and
/// the requirement extracted from it accepts the package's version.
pub open spec fn resolution_checked(
    dep: DependencyView,
    md: PackageMetadataView,
    p: PackageView,
) -> bool {
    &&& md.package_name == dep.real_name
    &&& extracted_req(dep, md) matches Ok(rq) && req_accepts(rq, p.version())
}

/// The caching package resolver: workspace members always win; otherwise a
/// previously resolved package is reused when its version also satisfies
/// the new request, and only then is a fresh resolution made.
pub struct Resolver<M: MetadataSource> {
    pub cache: Vec<(String, Vec<Package>)>,
    pub workspace_packages: Vec<WorkspacePackage>,
    pub source: M,
}

impl<M: MetadataSource> Resolver<M> {
    pub fn new(source: M, workspace_packages: Vec<WorkspacePackage>) -> (r: Resolver<M>)
        ensures
            r.workspace_packages == workspace_packages,
            r.cache@.len() == 0,
    {
        Resolver { cache: Vec::new(), workspace_packages, source }
    }

    /// Resolves one dependency: a workspace member of the requested name
    /// wins unconditionally; otherwise the answer's version was checked
    /// against a metadata document the source answered during this call,
    /// and the answer is either reused from the cache's row for the
    /// dependency's registry name, or a fresh resolution that the row then
    /// remembers.
    pub fn get(&mut self, requester: &str, dependency: &Dependency) -> (r: Result<
        (Package, Dependency),
        JmCoreError,
    >)
        ensures
            final(self).workspace_packages == old(self).workspace_packages,
            match first_ws_with_name(
                old(self).workspace_packages.deep_view(),
                dependency@.real_name,
            ) {
                Some(w) => r matches Ok((p, d)) && p@ == PackageView::Workspace(w) && d@
                    == dependency@,
                None => r matches Ok((p, d)) ==> {
                    &&& d@ == dependency@
                    &&& exists|md: PackageMetadataView| #[trigger] resolution_checked(
                        dependency@,
                        md,
                        p@,
                    )
                    &&& cache_holds(
                        old(self).cache.deep_view(),
                        dependency@.real_name,
                        p@,
                    ) || (p@ matches PackageView::Npm(np) && exists|md: PackageMetadataView|
                        md.package_name == dependency@.real_name && #[trigger] fresh_resolution(
                            dependency@,
                            md,
                            np,
                        ))
                    &&& cache_holds(final(self).cache.deep_view(), dependency@.real_name, p@)
                },
            },
    {
        let ghost wss = self.workspace_packages.deep_view();
        let mut wi: usize = 0;
        while wi < self.workspace_packages.len()
            invariant
                wi <= self.workspace_packages.len(),
                wss == self.workspace_packages.deep_view(),
                wss.len() == self.workspace_packages@.len(),
                forall|j: int| 0 <= j < wi ==> (#[trigger] wss[j]).name != dependency@.real_name,
            decreases self.workspace_packages.len() - wi,
        {
            if str_eq(
                self.workspace_packages[wi].name.as_str(),
                dependency.real_name.as_str(),
            ) {
                proof {
                    assert(wss[wi as int] == self.workspace_packages@[wi as int]@);
                    lemma_first_ws_at(wss, dependency@.real_name, wi as int);
                }
                return Ok(
                    (
                        Package::WorkspacePackage(self.workspace_packages[wi].clone()),
                        dependency.clone(),
                    ),
                );
            }
            proof {
                assert(wss[wi as int] == self.workspace_packages@[wi as int]@);
            }
            wi = wi + 1;
        }
        proof {
            lemma_first_ws_none(wss, dependency@.real_name);
        }
        let mut md = match self.source.get_metadata(dependency.real_name.as_str()) {
            Ok(m) => m,
            Err(e) => {
                return Err(e);
            },
        };
        // the document answers for the requested registry name, whatever
        // name its text carried
        md.package_name = copy_str(dependency.real_name.as_str());
        let rq = match extract_dependency_version_req(dependency, &md) {
            Ok(rq) => rq,
            Err(e) => {
                return Err(e);
            },
        };
        // a cached package whose version the requirement accepts is reused
        let mut entry: Option<usize> = None;
        let mut ci: usize = 0;
        while ci < self.cache.len()
            invariant
                ci <= self.cache.len(),
                self.cache == old(self).cache,
                match entry {
                    Some(f) => f < ci && f < self.cache@.len() && (
                    #[trigger] self.cache.deep_view()[f as int]).0 == dependency@.real_name
                        && forall|k2: int|
                        0 <= k2 < f ==> (#[trigger] self.cache.deep_view()[k2]).0
                            != dependency@.real_name,
                    None => forall|k2: int|
                        0 <= k2 < ci ==> (#[trigger] self.cache.deep_view()[k2]).0
                            != dependency@.real_name,
                },
            decreases self.cache.len() - ci,
        {
            proof {
                assert(self.cache.deep_view()[ci as int] == (
                    self.cache@[ci as int].0@,
                    self.cache@[ci as int].1.deep_view(),
                ));
            }
            if entry.is_none() && string_eq(&self.cache[ci].0, &dependency.real_name) {
                entry = Some(ci);
            }
            ci = ci + 1;
        }
        if let Some(f) = entry {
            let mut t: usize = 0;
            while t < self.cache[f].1.len()
                invariant
                    f < self.cache@.len(),
                    t <= self.cache@[f as int].1@.len(),
                    extracted_req(dependency@, md@) == Ok::<VersionReqView, Seq<char>>(rq@),
                    md@.package_name == dependency@.real_name,
                    self.cache == old(self).cache,
                    self.cache.deep_view()[f as int].0 == dependency@.real_name,
                    forall|k2: int|
                        0 <= k2 < f ==> (#[trigger] self.cache.deep_view()[k2]).0
                            != dependency@.real_name,
                    self.workspace_packages == old(self).workspace_packages,
                    first_ws_with_name(
                        old(self).workspace_packages.deep_view(),
                        dependency@.real_name,
                    ) is None,
                decreases self.cache@[f as int].1@.len() - t,
            {
                let candidate = &self.cache[f].1[t];
                if version_matches(&rq, candidate.version()) {
                    let found = candidate.clone();
                    proof {
                        assert(resolution_checked(dependency@, md@, found@));
                        lemma_assoc_lookup_at(
                            self.cache.deep_view(),
                            dependency@.real_name,
                            f as int,
                        );
                        assert(self.cache.deep_view()[f as int] == (
                            self.cache@[f as int].0@,
                            self.cache@[f as int].1.deep_view(),
                        ));
                        assert(self.cache@[f as int].1.deep_view()[t as int] == found@);
                        assert(self.cache.deep_view()[f as int].1.contains(found@));
                        assert(cache_holds(
                            self.cache.deep_view(),
                            dependency@.real_name,
                            found@,
                        ));
                    }
                    return Ok((found, dependency.clone()));
                }
                t = t + 1;
            }
        }
        // nothing reusable: resolve fresh and remember the answer
        let package = match resolve_dependency(requester, dependency, &md) {
            Ok(p) => p,
            Err(e) => {
                return Err(e);
            },
        };
        let answer = Package::NpmPackage(package);
        proof {
            assert(resolution_checked(dependency@, md@, answer@));
            assert(answer@ matches PackageView::Npm(np) && fresh_resolution(dependency@, md@, np));
        }
        let ghost old_cache = self.cache.deep_view();
        match entry {
            Some(f) => {
                let (key, mut ps) = self.cache.remove(f);
                ps.push(answer.clone());
                self.cache.insert(f, (key, ps));
                proof {
                    assert(self.cache.deep_view() =~~= old_cache.update(
                        f as int,
                        (old_cache[f as int].0, old_cache[f as int].1.push(answer@)),
                    ));
                    assert(forall|k2: int|
                        0 <= k2 < f ==> (#[trigger] self.cache.deep_view()[k2]).0
                            != dependency@.real_name);
                    assert(self.cache.deep_view()[f as int].0 == dependency@.real_name);
                    lemma_assoc_lookup_at(self.cache.deep_view(), dependency@.real_name, f as int);
                    let n = self.cache.deep_view()[f as int].1.len();
                    assert(self.cache.deep_view()[f as int].1[n - 1] == answer@);
                    assert(cache_holds(self.cache.deep_view(), dependency@.real_name, answer@));
                }
            },
            None => {
                let mut ps: Vec<Package> = Vec::new();
                ps.push(answer.clone());
                self.cache.push((copy_str(dependency.real_name.as_str()), ps));
                proof {
                    assert(self.cache.deep_view() =~~= old_cache.push(
                        (dependency@.real_name, seq![answer@]),
                    ));
                    assert(forall|k2: int|
                        0 <= k2 < old_cache.len() ==> (#[trigger] self.cache.deep_view()[k2]).0
                            != dependency@.real_name);
                    lemma_assoc_lookup_at(
                        self.cache.deep_view(),
                        dependency@.real_name,
                        old_cache.len() as int,
                    );
                    assert(self.cache.deep_view()[old_cache.len() as int].1[0] == answer@);
                    assert(cache_holds(self.cache.deep_view(), dependency@.real_name, answer@));
                }
            },
        }
        Ok((answer, dependency.clone()))
    }
}

/// What the graph builder asks of a resolver: every answer hands the asked
/// dependency back and stands in the resolver's own resolution relation
/// with it. The relation defaults to holding always; a resolver with a
/// sharper one — such as `Resolver` below — overrides it, and the graph's
/// contract sharpens with it.
pub trait PackageResolver {
    /// The resolver's resolution relation: which packages it may answer
    /// for which dependency.
    open spec fn resolves(&self, dep: DependencyView, p: PackageView) -> bool {
        true
    }

    /// The resolver's failure relation: which error messages it may answer
    /// for which dependency.
    open spec fn may_error(&self, dep: DependencyView, message: Seq<char>) -> bool {
        true
    }

    fn get(&mut self, requester: &str, dependency: &Dependency) -> (r: Result<
        (Package, Dependency),
        JmCoreError,
    >)
        ensures
            forall|d: DependencyView, p: PackageView| #[trigger]
                final(self).resolves(d, p) == old(self).resolves(d, p),
            forall|d: DependencyView, m: Seq<char>| #[trigger]
                final(self).may_error(d, m) == old(self).may_error(d, m),
            r matches Ok((p, d)) ==> d@ == dependency@ && old(self).resolves(dependency@, p@),
            r matches Err(e) ==> old(self).may_error(dependency@, e@),
    ;
}

impl<M: MetadataSource> PackageResolver for Resolver<M> {
    /// A workspace member of the dependency's name is the only answer
    /// where one exists; any other answer's version was checked against
    /// some metadata document.
    open spec fn resolves(&self, dep: DependencyView, p: PackageView) -> bool {
        match first_ws_with_name(self.workspace_packages.deep_view(), dep.real_name) {
            Some(w) => p == PackageView::Workspace(w),
            None => exists|md: PackageMetadataView| #[trigger] resolution_checked(dep, md, p),
        }
    }

    fn get(&mut self, requester: &str, dependency: &Dependency) -> (r: Result<
        (Package, Dependency),
        JmCoreError,
    >) {
        let r = Resolver::get(self, requester, dependency);
        proof {
            assert(final(self).workspace_packages.deep_view() == old(
                self,
            ).workspace_packages.deep_view());
        }
        r
    }
}

} // verus!
