use jm::cache::Cache;
use jm::collector::Collector;
use jm::common::{extract_binaries, sanitize_package_name};
use jm::config::{with_manifest_file_content, with_package_json_file_content, Config};
use jm::dependency::Dependency;
use jm::errors::JmCoreError;
use jm::metadata::{NpmBinMetadata, PackageMetadata, VersionMetadata};
use jm::package::{BinaryScript, NpmPackage, Package, WorkspacePackage};
use jm::resolver::{
    extract_dependency_version_req, resolve_dependency, resolve_version, version_matches,
    MetadataSource, Resolver, VersionReq,
};
use jm::root_locator::find_root_dir;
use jm::store::Store;
use jm::workspace::Workspace;
use tempdir::TempDir;

fn version_metadata(shasum: &str, tarball: &str, deps: Vec<(&str, &str)>) -> VersionMetadata {
    VersionMetadata {
        shasum: shasum.to_string(),
        tarball: tarball.to_string(),
        dependencies: deps
            .into_iter()
            .map(|(k, v)| (k.to_string(), v.to_string()))
            .collect(),
        bin: None,
    }
}

fn metadata(
    name: &str,
    dist_tags: Vec<(&str, &str)>,
    versions: Vec<(&str, VersionMetadata)>,
) -> PackageMetadata {
    PackageMetadata {
        package_name: name.to_string(),
        dist_tags: dist_tags
            .into_iter()
            .map(|(k, v)| (k.to_string(), v.to_string()))
            .collect(),
        versions: versions
            .into_iter()
            .map(|(k, v)| (k.to_string(), v))
            .collect(),
    }
}

#[test]
fn lib_sanitized_package_names() {
    let package_name = "@scope/name";

    assert_eq!(
        sanitize_package_name(package_name),
        String::from("@scope_name")
    );
}

#[test]
fn extract_binaries_none() {
    let bin = None;

    assert_eq!(extract_binaries("name", &bin), vec![]);
}

#[test]
fn extract_binaries_string() {
    let bin = Some(NpmBinMetadata::Text("./a.js".to_string()));

    assert_eq!(
        extract_binaries("name", &bin),
        vec![("name".to_string(), "./a.js".to_string())]
    );
}

#[test]
fn extract_binaries_object() {
    let entries = vec![("script".to_string(), "./a.js".to_string())];
    let bin = Some(NpmBinMetadata::Table(entries.clone()));

    assert_eq!(extract_binaries("name", &bin), entries);
}

#[test]
fn with_semver_version() {
    let key = "lodash";
    let version = "~1.0.0";

    let expected = Dependency {
        real_name: key.to_string(),
        name: key.to_string(),
        version_or_dist_tag: version.to_string(),
    };

    let result = Dependency::from_entry(key, version);

    assert_eq!(result, expected);
}

#[test]
fn with_dist_tag_version() {
    let key = "lodash";
    let version = "latest";

    let expected = Dependency {
        real_name: key.to_string(),
        name: key.to_string(),
        version_or_dist_tag: version.to_string(),
    };

    let result = Dependency::from_entry(key, version);

    assert_eq!(result, expected);
}

#[test]
fn with_alias_version() {
    let key = "lol";
    let version = "npm:lodash@latest";

    let expected = Dependency {
        real_name: "lodash".to_string(),
        name: key.to_string(),
        version_or_dist_tag: "latest".to_string(),
    };

    let result = Dependency::from_entry(key, version);

    assert_eq!(result, expected);
}

#[test]
fn with_scoped_alias_version() {
    let key = "lol-types";
    let version = "npm:@types/lodash@latest";

    let expected = Dependency {
        real_name: "@types/lodash".to_string(),
        name: key.to_string(),
        version_or_dist_tag: "latest".to_string(),
    };

    let result = Dependency::from_entry(key, version);

    assert_eq!(result, expected);
}

#[test]
fn alias_without_version_stays_a_literal() {
    let result = Dependency::from_entry("x", "npm:lodash");

    let expected = Dependency {
        name: "x".to_string(),
        real_name: "x".to_string(),
        version_or_dist_tag: "npm:lodash".to_string(),
    };

    assert_eq!(result, expected);
}

#[test]
fn reserialized_alias_parses_to_the_same_dependency() {
    let d = Dependency::from_entry("lol", "npm:lodash@~4.0.0");
    let rewritten = format!("npm:{}@{}", d.real_name, d.version_or_dist_tag);
    assert_eq!(rewritten, "npm:lodash@~4.0.0");
    let again = Dependency::from_entry("lol", &rewritten);
    assert_eq!(again, d);
}

#[test]
fn reserialized_scoped_alias_parses_to_the_same_dependency() {
    let d = Dependency::from_entry("lol-types", "npm:@types/lodash@~4.0.0");
    let rewritten = format!("npm:{}@{}", d.real_name, d.version_or_dist_tag);
    assert_eq!(rewritten, "npm:@types/lodash@~4.0.0");
    let again = Dependency::from_entry("lol-types", &rewritten);
    assert_eq!(again, d);
}

#[test]
fn oversized_range_component_is_not_a_range() {
    let value = format!("^{}", "9".repeat(25));

    let result = Dependency::from_entry("lib", &value);

    let expected = Dependency {
        name: "lib".to_string(),
        real_name: "lib".to_string(),
        version_or_dist_tag: value,
    };

    assert_eq!(result, expected);
}

#[test]
fn oversized_version_component_matches_nothing() {
    let req = VersionReq::Range("~1.0.0".to_string());
    let oversized = format!("1.0.{}", "9".repeat(25));

    assert!(!version_matches(&req, &oversized));
}

#[test]
fn overlong_hyphen_chain_matches_nothing() {
    let req = VersionReq::Range("~1.0.0".to_string());
    let chained = format!("1.0.0-{}a", "a-".repeat(300));

    assert!(!version_matches(&req, &chained));
}

#[test]
fn repeats_within_one_package_count_once() {
    let dep = Dependency {
        name: "lib".to_string(),
        real_name: "lib".to_string(),
        version_or_dist_tag: "~1.0.0".to_string(),
    };
    let package = Package::NpmPackage(NpmPackage {
        name: "p1".to_string(),
        version: "1.0.0".to_string(),
        dependencies: vec![dep.clone(), dep.clone()],
        shasum: String::from("shasum"),
        tarball_url: String::from("tarball-url"),
        binaries: vec![],
    });
    let packages = vec![package.clone()];

    let collector = Collector::new();
    let collected = collector.collect(&packages);

    assert_eq!(collected.len(), 1);
    assert_eq!(collected[0].0, dep);
    assert_eq!(collected[0].1, vec![package]);
}

#[test]
fn exposes_name_version_and_binaries_getters() {
    let npm_binary_script = BinaryScript::new("a".to_string(), "./a.js".to_string());
    let workspace_binary_script = BinaryScript::new("b".to_string(), "./b.js".to_string());

    let npm_package = Package::NpmPackage(NpmPackage::new(
        String::from("some-npm-package"),
        String::from("1.0.0"),
        None,
        String::from("shasum"),
        String::from("tarball-url"),
        vec![npm_binary_script.clone()],
    ));

    let workspace_package = Package::WorkspacePackage(WorkspacePackage::new(
        String::from("some-workspace-package"),
        String::from("2.0.0"),
        None,
        None,
        vec![workspace_binary_script.clone()],
        String::new(),
    ));

    assert_eq!(npm_package.name(), "some-npm-package");
    assert_eq!(npm_package.version(), "1.0.0");
    assert_eq!(npm_package.binaries(), &vec![npm_binary_script]);
    assert_eq!(workspace_package.name(), "some-workspace-package");
    assert_eq!(workspace_package.version(), "2.0.0");
    assert_eq!(workspace_package.binaries(), &vec![workspace_binary_script]);
}

#[test]
fn exposes_name_and_version_getters() {
    let npm_package = Package::NpmPackage(NpmPackage::new(
        String::from("some-package"),
        String::from("1.0.0"),
        None,
        String::from("shasum"),
        String::from("tarball-url"),
        vec![],
    ));

    assert_eq!(npm_package.name(), "some-package");
    assert_eq!(npm_package.version(), "1.0.0");
}

#[test]
fn npm_package_collects_all_packages_dependencies() {
    let package = Package::NpmPackage(NpmPackage::new(
        String::from("some-package"),
        String::from("1.0.0"),
        Some(vec![
            ("lodash".to_string(), "1.0.0".to_string()),
            ("lol".to_string(), "npm:lodash@~2.0.0".to_string()),
        ]),
        String::from("shasum"),
        String::from("tarball-url"),
        vec![],
    ));

    let expected = vec![
        Dependency {
            name: "lodash".to_string(),
            real_name: "lodash".to_string(),
            version_or_dist_tag: "1.0.0".to_string(),
        },
        Dependency {
            name: "lol".to_string(),
            real_name: "lodash".to_string(),
            version_or_dist_tag: "~2.0.0".to_string(),
        },
    ];

    assert_eq!(package.dependencies(), expected);
}

#[test]
fn workspace_package_collects_all_packages_dependencies_and_dev_dependencies() {
    let package = Package::WorkspacePackage(WorkspacePackage::new(
        String::from("some-package"),
        String::from("1.0.0"),
        Some(vec![("lodash".to_string(), "1.0.0".to_string())]),
        Some(vec![("lol".to_string(), "npm:lodash@~2.0.0".to_string())]),
        vec![],
        String::new(),
    ));

    let expected = vec![
        Dependency {
            name: "lodash".to_string(),
            real_name: "lodash".to_string(),
            version_or_dist_tag: "1.0.0".to_string(),
        },
        Dependency {
            name: "lol".to_string(),
            real_name: "lodash".to_string(),
            version_or_dist_tag: "~2.0.0".to_string(),
        },
    ];

    assert_eq!(package.dependencies(), expected);
}

#[test]
fn workspace_package_uses_dependencies_over_dev_dependencies_in_case_of_repetitions() {
    let package = Package::WorkspacePackage(WorkspacePackage::new(
        String::from("some-package"),
        String::from("1.0.0"),
        Some(vec![("lodash".to_string(), "1.0.0".to_string())]),
        Some(vec![("lodash".to_string(), "~2.0.0".to_string())]),
        vec![],
        String::new(),
    ));

    let expected = vec![Dependency {
        name: "lodash".to_string(),
        real_name: "lodash".to_string(),
        version_or_dist_tag: "1.0.0".to_string(),
    }];

    assert_eq!(package.dependencies(), expected);
}

#[test]
fn collects_all_packages_dependencies() {
    let dep1 = Dependency {
        name: "dep1".to_string(),
        real_name: "dep1".to_string(),
        version_or_dist_tag: "latest".to_string(),
    };
    let dep2 = Dependency {
        name: "dep2".to_string(),
        real_name: "dep2".to_string(),
        version_or_dist_tag: "latest".to_string(),
    };

    let packages = vec![
        Package::NpmPackage(NpmPackage {
            name: "p1".to_string(),
            version: "1.0.0".to_string(),
            dependencies: vec![dep1.clone(), dep2.clone()],
            shasum: String::from("shasum"),
            tarball_url: String::from("tarball-url"),
            binaries: vec![],
        }),
        Package::WorkspacePackage(WorkspacePackage {
            base_path: String::new(),
            name: "p2".to_string(),
            version: "1.0.0".to_string(),
            dependencies: vec![dep2.clone()],
            dev_dependencies: vec![],
            binaries: vec![],
        }),
    ];

    let collector = Collector::new();
    let collected = collector.collect(&packages);

    assert_eq!(collected.len(), 2);
    let entry1 = collected.iter().find(|(d, _)| *d == dep1).unwrap();
    let entry2 = collected.iter().find(|(d, _)| *d == dep2).unwrap();
    assert_eq!(entry1.1, vec![packages[0].clone()]);
    assert_eq!(entry2.1, vec![packages[0].clone(), packages[1].clone()]);
}

#[test]
fn extract_dependency_version_req_dist_tag_ok() {
    let dependency = Dependency {
        name: "dep1".to_string(),
        real_name: "dep1".to_string(),
        version_or_dist_tag: "beta".to_string(),
    };
    let md = metadata(
        "dep1",
        vec![("beta", "1.0.0")],
        vec![("1.0.0", version_metadata("a-shasum", "a-tarball", vec![]))],
    );

    let result = extract_dependency_version_req(&dependency, &md);

    match result {
        Ok(VersionReq::Exact(v)) => assert_eq!(v, "1.0.0"),
        other => panic!("expected an exact requirement, got {:?}", other),
    }
}

#[test]
fn extract_dependency_version_req_dist_tag_not_found() {
    let dependency = Dependency {
        name: "dep1".to_string(),
        real_name: "dep1".to_string(),
        version_or_dist_tag: "beta".to_string(),
    };
    let md = metadata(
        "dep1",
        vec![("not-beta", "1.0.0")],
        vec![("1.0.0", version_metadata("a-shasum", "a-tarball", vec![]))],
    );

    let result = extract_dependency_version_req(&dependency, &md);

    match result {
        Err(e) => assert_eq!(
            e.message,
            "Failed to resolve dist tag beta of package dep1".to_string()
        ),
        other => panic!("expected an error, got {:?}", other),
    }
}

#[test]
fn extract_dependency_version_req_dist_tag_no_matching_version() {
    let dependency = Dependency {
        name: "dep1".to_string(),
        real_name: "dep1".to_string(),
        version_or_dist_tag: "beta".to_string(),
    };
    let md = metadata(
        "dep1",
        vec![("beta", "1.0.0")],
        vec![("2.0.0", version_metadata("a-shasum", "a-tarball", vec![]))],
    );

    let result = extract_dependency_version_req(&dependency, &md);

    match result {
        Err(e) => assert_eq!(
            e.message,
            "dep1@beta points to version 1.0.0, which does not exist".to_string()
        ),
        other => panic!("expected an error, got {:?}", other),
    }
}

#[test]
fn test_version_matches() {
    let version_req = VersionReq::Range("~1.0.0".to_string());

    assert!(version_matches(&version_req, "1.0.0"));
    assert!(!version_matches(&version_req, "2.0.0"));
}

#[test]
fn resolve_version_finds_the_best_match() {
    let version_req = VersionReq::Range("~1.0.0".to_string());
    let md = metadata(
        "a-package",
        vec![],
        vec![
            ("1.0.0", version_metadata("a-shasum", "a-tarball", vec![])),
            ("1.0.1", version_metadata("a-shasum", "a-tarball", vec![])),
            ("2.0.0", version_metadata("a-shasum", "a-tarball", vec![])),
        ],
    );

    let result = resolve_version("never-mind", &version_req, &md);

    assert_eq!(result.ok(), Some("1.0.1".to_string()));
}

#[test]
fn resolve_version_prefers_releases_over_prereleases() {
    let version_req = VersionReq::Range("~1.0.0".to_string());
    let md = metadata(
        "a-package",
        vec![],
        vec![
            ("1.0.1-alpha.1", version_metadata("s", "t", vec![])),
            ("1.0.1", version_metadata("s", "t", vec![])),
            ("1.0.0", version_metadata("s", "t", vec![])),
        ],
    );

    let result = resolve_version("never-mind", &version_req, &md);

    assert_eq!(result.ok(), Some("1.0.1".to_string()));
}

#[test]
fn resolve_version_error_when_no_matching_versions_exist() {
    let version_req = VersionReq::Range("~3.0.0".to_string());
    let md = metadata(
        "package",
        vec![],
        vec![("1.0.0", version_metadata("a-shasum", "a-tarball", vec![]))],
    );

    let result = resolve_version("parent-package", &version_req, &md);

    match result {
        Err(e) => assert_eq!(
            e.message,
            "No matching versions for parent-package->package (requested ~3.0.0)".to_string()
        ),
        other => panic!("expected an error, got {:?}", other),
    }
}

#[test]
fn resolves_a_dist_tag_through_dist_tags() {
    let dependency = Dependency {
        name: "lodash".to_string(),
        real_name: "lodash".to_string(),
        version_or_dist_tag: "latest".to_string(),
    };
    let md = metadata(
        "lodash",
        vec![("latest", "4.17.21")],
        vec![
            ("4.17.21", version_metadata("s", "t", vec![])),
            ("4.17.20", version_metadata("s", "t", vec![])),
        ],
    );

    let result = resolve_dependency("p1", &dependency, &md).unwrap();

    assert_eq!(result.name, "lodash");
    assert_eq!(result.version, "4.17.21");
}

#[test]
fn dangling_dist_tag_reports_the_missing_version() {
    let dependency = Dependency {
        name: "lodash".to_string(),
        real_name: "lodash".to_string(),
        version_or_dist_tag: "latest".to_string(),
    };
    let md = metadata(
        "lodash",
        vec![("latest", "9.9.9")],
        vec![("4.17.21", version_metadata("s", "t", vec![]))],
    );

    let result = resolve_dependency("p1", &dependency, &md);

    match result {
        Err(e) => assert_eq!(
            e.message,
            "lodash@latest points to version 9.9.9, which does not exist".to_string()
        ),
        other => panic!("expected an error, got {:?}", other),
    }
}

struct TableSource {
    calls: usize,
    docs: Vec<PackageMetadata>,
}

impl MetadataSource for TableSource {
    fn get_metadata(&mut self, package_name: &str) -> Result<PackageMetadata, JmCoreError> {
        self.calls += 1;
        self.docs
            .iter()
            .find(|d| d.package_name == package_name)
            .cloned()
            .ok_or_else(|| JmCoreError::new(format!("unknown package {}", package_name)))
    }
}

#[test]
fn workspace_member_shadows_the_registry() {
    let member = WorkspacePackage::new(
        "lib".to_string(),
        "9.0.0".to_string(),
        None,
        None,
        vec![],
        "/repo/lib".to_string(),
    );
    let source = TableSource {
        calls: 0,
        docs: vec![metadata(
            "lib",
            vec![],
            vec![("1.0.0", version_metadata("s", "t", vec![]))],
        )],
    };
    let mut resolver = Resolver::new(source, vec![member]);

    let dependency = Dependency {
        name: "lib".to_string(),
        real_name: "lib".to_string(),
        version_or_dist_tag: "~1.0.0".to_string(),
    };

    let (package, _) = resolver.get("p1", &dependency).unwrap();

    match package {
        Package::WorkspacePackage(w) => {
            assert_eq!(w.name, "lib");
            assert_eq!(w.version, "9.0.0");
            assert_eq!(w.base_path, "/repo/lib");
        }
        other => panic!("expected the workspace member, got {:?}", other),
    }
    assert_eq!(resolver.source.calls, 0);
}

#[test]
fn range_widening_reuses_the_cached_package() {
    let source = TableSource {
        calls: 0,
        docs: vec![metadata(
            "lib",
            vec![],
            vec![
                ("1.0.0", version_metadata("s", "t", vec![])),
                ("1.0.4", version_metadata("s", "t", vec![])),
            ],
        )],
    };
    let mut resolver = Resolver::new(source, vec![]);

    let narrow = Dependency {
        name: "lib".to_string(),
        real_name: "lib".to_string(),
        version_or_dist_tag: "~1.0.4".to_string(),
    };
    let wide = Dependency {
        name: "lib".to_string(),
        real_name: "lib".to_string(),
        version_or_dist_tag: "^1.0.0".to_string(),
    };

    let (first, _) = resolver.get("p1", &narrow).unwrap();
    let (second, _) = resolver.get("p2", &wide).unwrap();

    assert_eq!(first.version(), "1.0.4");
    assert_eq!(second.version(), "1.0.4");
    assert_eq!(first, second);
    assert_eq!(resolver.cache.len(), 1);
    assert_eq!(resolver.cache[0].1.len(), 1);
}

#[test]
fn config_fails_on_invalid_manifest_content() {
    let root_path = String::new();
    let content = "{}";
    let registry = "http://some/url";

    let result = Config::new(root_path, content, registry);

    match result {
        Err(e) => assert_eq!(
            e.message,
            "Failed to parse manifest file, please make sure it is a valid JSON and 'workspaces' array exists".to_string()
        ),
        other => panic!("expected an error, got {:?}", other),
    }
}

#[test]
fn config_succeeds_on_valid_manifest_file() {
    let root_path = String::new();
    let content = with_manifest_file_content(vec!["packages/**", "not-in-packages/foo"]);
    let registry = String::from("http://some/url");

    let result = Config::new(root_path.clone(), &content, &registry).unwrap();

    assert_eq!(result.root_path, root_path);
    assert_eq!(
        result.patterns,
        vec!["packages/**".to_string(), "not-in-packages/foo".to_string()]
    );
    assert_eq!(result.registry, registry);
}

#[test]
fn package_json_content_carries_the_dependency_table() {
    let content = with_package_json_file_content("p1", "1.0.0", Some(vec![("lib", "~1.0.0")]));

    assert_eq!(
        content,
        "{ \"name\": \"p1\", \"version\": \"1.0.0\", \"dependencies\": {\"lib\": \"~1.0.0\"} }"
    );
}

#[test]
fn creates_store_on_initialization() {
    let tmp_dir = TempDir::new("jm-store").unwrap();
    let base = tmp_dir.path().to_str().unwrap().to_string();

    let store = Store::new(&base);

    assert_eq!(store.store_path, format!("{}/store", base));
}

#[test]
fn returns_package_path_in_store() {
    let tmp_dir = TempDir::new("jm-store").unwrap();
    let base = tmp_dir.path().to_str().unwrap().to_string();
    let store = Store::new(&base);

    let npm_package = NpmPackage::new(
        "package_name".to_string(),
        "1.0.0".to_string(),
        None,
        "shasum".to_string(),
        "tarball".to_string(),
        vec![],
    );

    let package_path = store.package_path_in_store(&npm_package);

    assert_eq!(package_path, format!("{}/store/package_name@1.0.0", base));
}

#[test]
fn returns_scoped_package_path_in_store() {
    let tmp_dir = TempDir::new("jm-store").unwrap();
    let base = tmp_dir.path().to_str().unwrap().to_string();
    let store = Store::new(&base);

    let npm_package = NpmPackage::new(
        "@scope/package_name".to_string(),
        "1.0.0".to_string(),
        None,
        "shasum".to_string(),
        "tarball".to_string(),
        vec![],
    );

    let package_path = store.package_path_in_store(&npm_package);

    assert_eq!(
        package_path,
        format!("{}/store/@scope_package_name@1.0.0", base)
    );
}

#[test]
fn workspace_test_get_packages() {
    let members = vec![
        WorkspacePackage::new(
            String::from("p1"),
            String::from("1.0.0"),
            None,
            None,
            vec![],
            String::new(),
        ),
        WorkspacePackage::new(
            String::from("p2"),
            String::from("2.0.0"),
            None,
            None,
            vec![],
            String::new(),
        ),
    ];
    let workspace = Workspace {
        workspace_packages: members.clone(),
    };

    let expected = vec![
        Package::WorkspacePackage(members[0].clone()),
        Package::WorkspacePackage(members[1].clone()),
    ];

    assert_eq!(workspace.packages(), expected);
}

#[test]
fn empty_workspace_is_refused() {
    let result = Workspace::new(vec![]);

    match result {
        Err(e) => assert_eq!(e.message, "No packages were found in workspace".to_string()),
        other => panic!("expected an error, got {:?}", other),
    }
}

#[test]
fn test_cache_miss() {
    let tmp_dir = TempDir::new("jm-cache").unwrap();
    let base = tmp_dir.path().to_str().unwrap().to_string();
    let cache = Cache::new(format!("{}/unit_tests", base));

    assert_eq!(cache.get("something"), None);
}

#[test]
fn test_cache_hit() {
    let tmp_dir = TempDir::new("jm-cache").unwrap();
    let base = tmp_dir.path().to_str().unwrap().to_string();
    let mut cache = Cache::new(format!("{}/unit_tests", base));

    cache.set("package");

    assert_ne!(cache.get("package"), None);
}

#[test]
fn test_cache_key_sanitization() {
    let tmp_dir = TempDir::new("jm-cache").unwrap();
    let base = tmp_dir.path().to_str().unwrap().to_string();
    let mut cache = Cache::new(format!("{}/unit_tests", base));

    cache.set("@scope/a");

    let path = cache.get("@scope/a").unwrap();

    assert!(path.contains("@scope_a"));
}

#[test]
fn fails_when_manifest_file_does_not_exist() {
    let tmp_dir = TempDir::new("jm-root").unwrap();
    let base = tmp_dir.path().to_str().unwrap().to_string();
    let candidates = vec![(base, false), ("/".to_string(), false)];

    let result = find_root_dir(&candidates);

    assert_eq!(
        result,
        Err(String::from(
            "Couldn't find root directory. Make sure jm.json exists"
        ))
    );
}

#[test]
fn finds_manifest_file_on_cwd() {
    let tmp_dir = TempDir::new("jm-root").unwrap();
    let base = tmp_dir.path().to_str().unwrap().to_string();
    let candidates = vec![(base.clone(), true), ("/".to_string(), false)];

    let result = find_root_dir(&candidates);

    assert_eq!(result, Ok(base));
}
