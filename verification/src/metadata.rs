//! Registry metadata: the wire shapes a registry answers with, and the
//! normalized form the resolver works on.

use vstd::prelude::*;

use crate::strutil::string_eq;

verus! {

/// The `bin` entry of a version's registry metadata: either a lone script
/// path (the binary is then named after the package) or a table of
/// `(binary name, script path)` entries.
#[derive(Debug)]
pub enum NpmBinMetadata {
    Text(String),
    Table(Vec<(String, String)>),
}

impl Clone for NpmBinMetadata {
    fn clone(&self) -> (r: Self)
        ensures
            r@ == self@,
    {
        match self {
            NpmBinMetadata::Text(p) => NpmBinMetadata::Text(p.clone()),
            NpmBinMetadata::Table(es) => NpmBinMetadata::Table(clone_string_pairs(es)),
        }
    }
}

/// The `dist` entry of a version's registry metadata.
#[derive(Debug, Clone)]
pub struct NpmDistMetadata {
    pub shasum: String,
    pub tarball: String,
}

/// One version's entry in a registry document.
#[derive(Debug, Clone)]
pub struct NpmVersionMetadata {
    pub bin: Option<NpmBinMetadata>,
    pub dist: NpmDistMetadata,
    pub dependencies: Option<Vec<(String, String)>>,
}

/// A whole registry document for one package, as the registry answers it.
#[derive(Debug, Clone)]
pub struct NpmPackageMetadata {
    pub dist_tags: Option<Vec<(String, String)>>,
    pub versions: Vec<(String, NpmVersionMetadata)>,
}

/// Normalized metadata for one version: absent dependency tables have
/// become empty ones.
#[derive(Debug, Clone)]
pub struct VersionMetadata {
    pub shasum: String,
    pub tarball: String,
    pub dependencies: Vec<(String, String)>,
    pub bin: Option<NpmBinMetadata>,
}

/// Normalized metadata for one package: absent `dist_tags` has become an
/// empty table.
#[derive(Debug, Clone)]
pub struct PackageMetadata {
    pub package_name: String,
    pub dist_tags: Vec<(String, String)>,
    pub versions: Vec<(String, VersionMetadata)>,
}

/// First-match lookup in a sequence of key/value pairs.
pub open spec fn assoc_lookup<V>(entries: Seq<(Seq<char>, V)>, key: Seq<char>) -> Option<V>
    decreases entries.len(),
{
    if entries.len() == 0 {
        None
    } else if entries[0].0 == key {
        Some(entries[0].1)
    } else {
        assoc_lookup(entries.skip(1), key)
    }
}

pub proof fn lemma_assoc_lookup_some<V>(entries: Seq<(Seq<char>, V)>, key: Seq<char>)
    ensures
        assoc_lookup(entries, key) is Some <==> exists|i: int|
            0 <= i < entries.len() && entries[i].0 == key,
    decreases entries.len(),
{
    if entries.len() > 0 {
        lemma_assoc_lookup_some(entries.skip(1), key);
        if assoc_lookup(entries.skip(1), key) is Some {
            let i = choose|i: int|
                0 <= i < entries.skip(1).len() && entries.skip(1)[i].0 == key;
            assert(entries[i + 1].0 == key);
        }
        if exists|i: int| 0 <= i < entries.len() && entries[i].0 == key {
            let i = choose|i: int| 0 <= i < entries.len() && entries[i].0 == key;
            if entries[0].0 != key {
                assert(entries.skip(1)[i - 1].0 == key);
            }
        }
    }
}

impl View for NpmBinMetadata {
    type V = BinView;

    open spec fn view(&self) -> BinView {
        match self {
            NpmBinMetadata::Text(p) => BinView::Text(p@),
            NpmBinMetadata::Table(es) => BinView::Table(es.deep_view()),
        }
    }
}

/// Mathematical shape of a `bin` entry.
#[verifier::ext_equal]
pub enum BinView {
    Text(Seq<char>),
    Table(Seq<(Seq<char>, Seq<char>)>),
}

/// Mathematical shape of one version's normalized metadata.
#[verifier::ext_equal]
pub struct VersionMetadataView {
    pub shasum: Seq<char>,
    pub tarball: Seq<char>,
    pub dependencies: Seq<(Seq<char>, Seq<char>)>,
    pub bin: Option<BinView>,
}

impl View for VersionMetadata {
    type V = VersionMetadataView;

    open spec fn view(&self) -> VersionMetadataView {
        VersionMetadataView {
            shasum: self.shasum@,
            tarball: self.tarball@,
            dependencies: self.dependencies.deep_view(),
            bin: match self.bin {
                Some(b) => Some(b@),
                None => None,
            },
        }
    }
}

/// Mathematical shape of a normalized registry document.
#[verifier::ext_equal]
pub struct PackageMetadataView {
    pub package_name: Seq<char>,
    pub dist_tags: Seq<(Seq<char>, Seq<char>)>,
    pub versions: Seq<(Seq<char>, VersionMetadataView)>,
}

impl View for PackageMetadata {
    type V = PackageMetadataView;

    open spec fn view(&self) -> PackageMetadataView {
        PackageMetadataView {
            package_name: self.package_name@,
            dist_tags: self.dist_tags.deep_view(),
            versions: self.versions.deep_view(),
        }
    }
}

impl DeepView for VersionMetadata {
    type V = VersionMetadataView;

    open spec fn deep_view(&self) -> VersionMetadataView {
        self.view()
    }
}

/// `assoc_lookup` answers the first entry whose key matches.
pub proof fn lemma_assoc_lookup_at<V>(entries: Seq<(Seq<char>, V)>, key: Seq<char>, i: int)
    requires
        0 <= i < entries.len(),
        entries[i].0 == key,
        forall|j: int| 0 <= j < i ==> entries[j].0 != key,
    ensures
        assoc_lookup(entries, key) == Some(entries[i].1),
    decreases i,
{
    if i > 0 {
        lemma_assoc_lookup_at(entries.skip(1), key, i - 1);
    }
}

/// `assoc_lookup` answers nothing when no key matches.
pub proof fn lemma_assoc_lookup_none<V>(entries: Seq<(Seq<char>, V)>, key: Seq<char>)
    requires
        forall|j: int| 0 <= j < entries.len() ==> entries[j].0 != key,
    ensures
        assoc_lookup(entries, key) is None,
    decreases entries.len(),
{
    if entries.len() > 0 {
        assert(forall|j: int|
            0 <= j < entries.skip(1).len() ==> entries.skip(1)[j] == entries[j + 1]);
        lemma_assoc_lookup_none(entries.skip(1), key);
    }
}

impl PackageMetadata {
    /// Looks a dist-tag up; the first entry with the given name wins.
    pub fn dist_tag_of(&self, tag: &String) -> (r: Option<&String>)
        ensures
            match r {
                Some(v) => assoc_lookup(self@.dist_tags, tag@) == Some(v@),
                None => assoc_lookup(self@.dist_tags, tag@) is None,
            },
    {
        let mut i: usize = 0;
        while i < self.dist_tags.len()
            invariant
                i <= self.dist_tags.len(),
                forall|j: int| 0 <= j < i ==> self@.dist_tags[j].0 != tag@,
            decreases self.dist_tags.len() - i,
        {
            if string_eq(&self.dist_tags[i].0, tag) {
                proof {
                    lemma_assoc_lookup_at(self@.dist_tags, tag@, i as int);
                }
                return Some(&self.dist_tags[i].1);
            }
            i = i + 1;
        }
        proof {
            lemma_assoc_lookup_none(self@.dist_tags, tag@);
        }
        None
    }

    /// Looks a version's metadata up; the first entry with the given
    /// version string wins.
    pub fn version_entry(&self, version: &String) -> (r: Option<&VersionMetadata>)
        ensures
            match r {
                Some(v) => assoc_lookup(self@.versions, version@) == Some(v@),
                None => assoc_lookup(self@.versions, version@) is None,
            },
    {
        let mut i: usize = 0;
        while i < self.versions.len()
            invariant
                i <= self.versions.len(),
                forall|j: int| 0 <= j < i ==> self@.versions[j].0 != version@,
            decreases self.versions.len() - i,
        {
            if string_eq(&self.versions[i].0, version) {
                proof {
                    lemma_assoc_lookup_at(self@.versions, version@, i as int);
                }
                return Some(&self.versions[i].1);
            }
            i = i + 1;
        }
        proof {
            lemma_assoc_lookup_none(self@.versions, version@);
        }
        None
    }

    /// Whether a version string is listed in the document.
    pub fn has_version(&self, version: &String) -> (r: bool)
        ensures
            r == (assoc_lookup(self@.versions, version@) is Some),
    {
        self.version_entry(version).is_some()
    }
}

/// Mathematical shape of one version's wire entry.
#[verifier::ext_equal]
pub struct NpmVersionMetadataView {
    pub bin: Option<BinView>,
    pub shasum: Seq<char>,
    pub tarball: Seq<char>,
    pub dependencies: Option<Seq<(Seq<char>, Seq<char>)>>,
}

impl View for NpmVersionMetadata {
    type V = NpmVersionMetadataView;

    open spec fn view(&self) -> NpmVersionMetadataView {
        NpmVersionMetadataView {
            bin: match self.bin {
                Some(b) => Some(b@),
                None => None,
            },
            shasum: self.dist.shasum@,
            tarball: self.dist.tarball@,
            dependencies: match self.dependencies {
                Some(ds) => Some(ds.deep_view()),
                None => None,
            },
        }
    }
}

impl DeepView for NpmVersionMetadata {
    type V = NpmVersionMetadataView;

    open spec fn deep_view(&self) -> NpmVersionMetadataView {
        self.view()
    }
}

/// Mathematical shape of a wire document.
#[verifier::ext_equal]
pub struct NpmPackageMetadataView {
    pub dist_tags: Option<Seq<(Seq<char>, Seq<char>)>>,
    pub versions: Seq<(Seq<char>, NpmVersionMetadataView)>,
}

impl View for NpmPackageMetadata {
    type V = NpmPackageMetadataView;

    open spec fn view(&self) -> NpmPackageMetadataView {
        NpmPackageMetadataView {
            dist_tags: match self.dist_tags {
                Some(ts) => Some(ts.deep_view()),
                None => None,
            },
            versions: self.versions.deep_view(),
        }
    }
}

/// One version's entry normalized: an absent dependency table becomes an
/// empty one.
pub open spec fn normalized_version(nv: NpmVersionMetadataView) -> VersionMetadataView {
    VersionMetadataView {
        shasum: nv.shasum,
        tarball: nv.tarball,
        dependencies: match nv.dependencies {
            Some(ds) => ds,
            None => Seq::empty(),
        },
        bin: nv.bin,
    }
}

/// A wire document normalized under a package name: absent tables become
/// empty ones; every version entry keeps its place.
pub open spec fn normalized_metadata(
    package_name: Seq<char>,
    npm: NpmPackageMetadataView,
) -> PackageMetadataView {
    PackageMetadataView {
        package_name: package_name,
        dist_tags: match npm.dist_tags {
            Some(ts) => ts,
            None => Seq::empty(),
        },
        versions: npm.versions.map_values(
            |e: (Seq<char>, NpmVersionMetadataView)| (e.0, normalized_version(e.1)),
        ),
    }
}

impl PackageMetadata {
    /// Normalizes a registry answer into the resolver's shape.
    pub fn from_npm(package_name: String, npm: NpmPackageMetadata) -> (r: PackageMetadata)
        ensures
            r@ == normalized_metadata(package_name@, npm@),
    {
        let ghost npv = npm@;
        let dist_tags = match npm.dist_tags {
            Some(ts) => ts,
            None => Vec::new(),
        };
        proof {
            assert(dist_tags.deep_view() =~~= match npv.dist_tags {
                Some(ts) => ts,
                None => Seq::empty(),
            });
        }
        let mut versions: Vec<(String, VersionMetadata)> = Vec::new();
        let mut i: usize = 0;
        let npm_versions = npm.versions;
        while i < npm_versions.len()
            invariant
                i <= npm_versions.len(),
                npm_versions.deep_view() == npv.versions,
                npv.versions.len() == npm_versions@.len(),
                versions.deep_view() == npv.versions.subrange(0, i as int).map_values(
                    |e: (Seq<char>, NpmVersionMetadataView)| (e.0, normalized_version(e.1)),
                ),
            decreases npm_versions.len() - i,
        {
            let entry = &npm_versions[i];
            let deps = match &entry.1.dependencies {
                Some(ds) => clone_string_pairs(ds),
                None => Vec::new(),
            };
            proof {
                if entry.1.dependencies is None {
                    assert(deps.deep_view() =~= Seq::<(Seq<char>, Seq<char>)>::empty());
                }
            }
            let bin = match &entry.1.bin {
                Some(b) => Some(b.clone()),
                None => None,
            };
            let vm = VersionMetadata {
                shasum: entry.1.dist.shasum.clone(),
                tarball: entry.1.dist.tarball.clone(),
                dependencies: deps,
                bin,
            };
            proof {
                assert(vm@ =~~= normalized_version(npm_versions@[i as int].1@));
            }
            let ghost old_versions = versions.deep_view();
            versions.push((entry.0.clone(), vm));
            proof {
                let lhs = versions.deep_view();
                let rhs = npv.versions.subrange(0, i + 1 as int).map_values(
                    |e: (Seq<char>, NpmVersionMetadataView)| (e.0, normalized_version(e.1)),
                );
                assert(npm_versions.deep_view()[i as int] == (
                    npm_versions@[i as int].0@,
                    npm_versions@[i as int].1@,
                ));
                assert(lhs[old_versions.len() as int] == versions@[old_versions.len() as int].deep_view());
                assert(lhs[old_versions.len() as int] =~~= (
                    npv.versions[i as int].0,
                    normalized_version(npv.versions[i as int].1),
                ));
                assert(old_versions.len() == i);
                assert(lhs.len() == i + 1);
                assert(rhs.len() == i + 1);
                assert forall|k: int| 0 <= k < i + 1 implies lhs[k] == rhs[k] by {
                    if k < i {
                        assert(lhs[k] == old_versions[k]);
                        assert(old_versions[k] == npv.versions.subrange(0, i as int).map_values(
                            |e: (Seq<char>, NpmVersionMetadataView)| (e.0, normalized_version(e.1)),
                        )[k]);
                        assert(npv.versions.subrange(0, i as int)[k] == npv.versions.subrange(
                            0,
                            i + 1 as int,
                        )[k]);
                    } else {
                        assert(npv.versions.subrange(0, i + 1 as int)[k] == npv.versions[i as int]);
                    }
                }
                assert(lhs =~= rhs);
            }
            i = i + 1;
        }
        proof {
            assert(npv.versions.subrange(0, npm_versions@.len() as int) =~= npv.versions);
        }
        let r = PackageMetadata { package_name, dist_tags, versions };
        proof {
            assert(r@ =~~= normalized_metadata(r.package_name@, npv));
        }
        r
    }
}

/// A copy of a table of string pairs.
fn clone_string_pairs(v: &Vec<(String, String)>) -> (r: Vec<(String, String)>)
    ensures
        r.deep_view() == v.deep_view(),
{
    let mut out: Vec<(String, String)> = Vec::new();
    let mut i: usize = 0;
    while i < v.len()
        invariant
            i <= v.len(),
            out.deep_view() == v.deep_view().subrange(0, i as int),
        decreases v.len() - i,
    {
        let ghost old_out = out.deep_view();
        out.push((v[i].0.clone(), v[i].1.clone()));
        proof {
            let lhs = out.deep_view();
            let rhs = v.deep_view().subrange(0, i + 1 as int);
            assert(v.deep_view()[i as int] == (v@[i as int].0@, v@[i as int].1@));
            assert(old_out.len() == i);
            assert(lhs.len() == i + 1);
            assert forall|k: int| 0 <= k < i + 1 implies lhs[k] == rhs[k] by {
                assert(lhs[k] == out@[k].deep_view());
                if k < i {
                    assert(lhs[k] == old_out[k]);
                    assert(old_out[k] == v.deep_view().subrange(0, i as int)[k]);
                } else {
                    assert(rhs[k] == v.deep_view()[i as int]);
                }
            }
            assert(lhs =~= rhs);
        }
        i = i + 1;
    }
    proof {
        assert(v.deep_view().subrange(0, v@.len() as int) =~= v.deep_view());
    }
    out
}

} // verus!
