use jm::dependency::Dependency;
use jm::errors::JmCoreError;
use jm::graph::{build_graph, graph_edge_count, graph_neighbors, graph_node_count, graph_package};
use jm::metadata::{PackageMetadata, VersionMetadata};
use jm::package::{Package, WorkspacePackage};
use jm::resolver::{resolve_dependency, MetadataSource, PackageResolver, Resolver};
use jm::store::Store;
use jm::writer::{WriteTask, Writer};

fn version_metadata(deps: Vec<(&str, &str)>) -> VersionMetadata {
    VersionMetadata {
        shasum: "shasum".to_string(),
        tarball: "tarball-url".to_string(),
        dependencies: deps
            .into_iter()
            .map(|(k, v)| (k.to_string(), v.to_string()))
            .collect(),
        bin: None,
    }
}

fn metadata(name: &str, versions: Vec<(&str, VersionMetadata)>) -> PackageMetadata {
    PackageMetadata {
        package_name: name.to_string(),
        dist_tags: vec![],
        versions: versions
            .into_iter()
            .map(|(k, v)| (k.to_string(), v))
            .collect(),
    }
}

fn member(name: &str, deps: Vec<(&str, &str)>, base_path: &str) -> WorkspacePackage {
    WorkspacePackage::new(
        name.to_string(),
        "1.0.0".to_string(),
        Some(
            deps.into_iter()
                .map(|(k, v)| (k.to_string(), v.to_string()))
                .collect(),
        ),
        None,
        vec![],
        base_path.to_string(),
    )
}

/// A registry standing behind the resolver contract: every dependency is
/// resolved fresh against a fixed metadata table.
struct TableResolver {
    docs: Vec<PackageMetadata>,
}

impl PackageResolver for TableResolver {
    fn get(
        &mut self,
        requester: &str,
        dependency: &Dependency,
    ) -> Result<(Package, Dependency), JmCoreError> {
        let doc = self
            .docs
            .iter()
            .find(|d| d.package_name == dependency.real_name)
            .ok_or_else(|| JmCoreError::new(format!("unknown package {}", dependency.real_name)))?;
        let package = resolve_dependency(requester, dependency, doc)?;
        Ok((Package::NpmPackage(package), dependency.clone()))
    }
}

struct FailingResolver {}

impl PackageResolver for FailingResolver {
    fn get(
        &mut self,
        _requester: &str,
        _dependency: &Dependency,
    ) -> Result<(Package, Dependency), JmCoreError> {
        Err(JmCoreError::new("Failing resolver".to_string()))
    }
}

fn node_names(graph: &jm::graph::DepGraph) -> Vec<(String, String)> {
    let mut out = vec![];
    let mut i = 0;
    while i < graph_node_count(graph) {
        let p = graph_package(graph, i);
        out.push((p.name().to_string(), p.version().to_string()));
        i += 1;
    }
    out
}

#[test]
fn returns_monorepo_graph() {
    let p1 = member("p1", vec![], "/repo/p1");
    let p2 = member("p2", vec![("lib", "~1.0.0")], "/repo/p2");
    let base = vec![
        Package::WorkspacePackage(p1),
        Package::WorkspacePackage(p2),
    ];
    let mut resolver = TableResolver {
        docs: vec![metadata(
            "lib",
            vec![
                ("1.0.0", version_metadata(vec![])),
                ("1.0.4", version_metadata(vec![])),
            ],
        )],
    };

    let (starting_nodes, graph) = build_graph(base, &mut resolver).unwrap();

    assert_eq!(starting_nodes, vec![0, 1]);
    assert_eq!(graph_node_count(&graph), 3);
    assert_eq!(graph_edge_count(&graph), 1);

    let names = node_names(&graph);
    assert_eq!(names[0], ("p1".to_string(), "1.0.0".to_string()));
    assert_eq!(names[1], ("p2".to_string(), "1.0.0".to_string()));
    assert_eq!(names[2], ("lib".to_string(), "1.0.4".to_string()));

    assert_eq!(graph_neighbors(&graph, 0), Vec::<usize>::new());
    assert_eq!(graph_neighbors(&graph, 1), vec![2]);
}

#[test]
fn returns_monorepo_graph_when_it_has_cyclic_dependencies() {
    let p1 = member("p1", vec![("lib", "~1.0.0")], "/repo/p1");
    let base = vec![Package::WorkspacePackage(p1)];
    let mut resolver = TableResolver {
        docs: vec![
            metadata(
                "lib",
                vec![("1.0.4", version_metadata(vec![("lodash", "~4.0.0")]))],
            ),
            metadata(
                "lodash",
                vec![("4.0.0", version_metadata(vec![("lib", "^1.0.0")]))],
            ),
        ],
    };

    let (starting_nodes, graph) = build_graph(base, &mut resolver).unwrap();

    assert_eq!(starting_nodes, vec![0]);
    assert_eq!(graph_node_count(&graph), 3);
    assert_eq!(graph_edge_count(&graph), 3);

    let names = node_names(&graph);
    assert_eq!(names[1], ("lib".to_string(), "1.0.4".to_string()));
    assert_eq!(names[2], ("lodash".to_string(), "4.0.0".to_string()));

    assert_eq!(graph_neighbors(&graph, 0), vec![1]);
    assert_eq!(graph_neighbors(&graph, 1), vec![2]);
    assert_eq!(graph_neighbors(&graph, 2), vec![1]);
}

#[test]
fn fails_when_resolver_fails() {
    let p1 = member("p1", vec![("lib", "~1.0.0")], "/repo/p1");
    let base = vec![Package::WorkspacePackage(p1)];
    let mut resolver = FailingResolver {};

    let result = build_graph(base, &mut resolver);

    match result {
        Err(e) => assert_eq!(e.message, "Failing resolver".to_string()),
        other => panic!("expected an error, got {:?}", other),
    }
}

#[test]
fn no_two_nodes_hold_equal_packages() {
    // p1 and p2 both depend on the same lib; the builder reuses the node
    let p1 = member("p1", vec![("lib", "~1.0.0")], "/repo/p1");
    let p2 = member("p2", vec![("lib", "~1.0.0")], "/repo/p2");
    let base = vec![
        Package::WorkspacePackage(p1),
        Package::WorkspacePackage(p2),
    ];
    let mut resolver = TableResolver {
        docs: vec![metadata("lib", vec![("1.0.4", version_metadata(vec![]))])],
    };

    let (_, graph) = build_graph(base, &mut resolver).unwrap();

    assert_eq!(graph_node_count(&graph), 3);
    assert_eq!(graph_edge_count(&graph), 2);
    let mut i = 0;
    while i < 3 {
        let mut j = i + 1;
        while j < 3 {
            assert!(graph_package(&graph, i) != graph_package(&graph, j));
            j += 1;
        }
        i += 1;
    }
}

#[test]
fn aliased_dependency_keeps_its_alias_name() {
    let p1 = member("p1", vec![("lol", "npm:lodash@~4.0.0")], "/repo/p1");
    let base = vec![Package::WorkspacePackage(p1)];
    let mut resolver = TableResolver {
        docs: vec![metadata(
            "lodash",
            vec![("4.0.3", version_metadata(vec![]))],
        )],
    };

    let (_, graph) = build_graph(base, &mut resolver).unwrap();

    assert_eq!(graph_node_count(&graph), 2);
    let p = graph_package(&graph, 1);
    assert_eq!(p.name(), "lol");
    assert_eq!(p.version(), "4.0.3");
}

#[test]
fn dependency_free_members_build_without_a_resolver() {
    let p1 = member("p1", vec![], "/repo/p1");
    let p2 = member("p2", vec![], "/repo/p2");
    let base = vec![
        Package::WorkspacePackage(p1),
        Package::WorkspacePackage(p2),
    ];
    let mut resolver = FailingResolver {};

    let (starting_nodes, graph) = build_graph(base, &mut resolver).unwrap();

    assert_eq!(starting_nodes, vec![0, 1]);
    assert_eq!(graph_node_count(&graph), 2);
    assert_eq!(graph_edge_count(&graph), 0);
}

#[test]
fn repeated_dependencies_lay_one_edge() {
    let dep = Dependency {
        name: "lib".to_string(),
        real_name: "lib".to_string(),
        version_or_dist_tag: "~1.0.0".to_string(),
    };
    let p1 = Package::NpmPackage(jm::package::NpmPackage {
        name: "p1".to_string(),
        version: "1.0.0".to_string(),
        dependencies: vec![dep.clone(), dep.clone()],
        shasum: "shasum".to_string(),
        tarball_url: "tarball-url".to_string(),
        binaries: vec![],
    });
    let base = vec![p1];
    let mut resolver = TableResolver {
        docs: vec![metadata("lib", vec![("1.0.4", version_metadata(vec![]))])],
    };

    let (_, graph) = build_graph(base, &mut resolver).unwrap();

    assert_eq!(graph_node_count(&graph), 2);
    assert_eq!(graph_edge_count(&graph), 1);
    assert_eq!(graph_neighbors(&graph, 0), vec![1]);
}

#[test]
fn writer_plans_workspace_links_and_store_paths() {
    let p1 = member("p1", vec![("lib", "~1.0.0")], "/repo/p1");
    let base = vec![Package::WorkspacePackage(p1)];
    let mut resolver = TableResolver {
        docs: vec![metadata("lib", vec![("1.0.4", version_metadata(vec![]))])],
    };
    let (starting_nodes, graph) = build_graph(base, &mut resolver).unwrap();

    let writer = Writer::new(Store::new("/data"));
    let tasks = writer.write(&starting_nodes, &graph);

    assert_eq!(tasks.len(), 2);
    match &tasks[0] {
        WriteTask::Workspace {
            node,
            modules_dir,
            links,
            bin_links,
        } => {
            assert_eq!(*node, 0);
            assert_eq!(modules_dir, "/repo/p1/node_modules");
            assert_eq!(links.len(), 1);
            assert_eq!(links[0].link, "/repo/p1/node_modules/lib");
            assert_eq!(
                links[0].original,
                "/data/store/lib@1.0.4/node_modules/lib"
            );
            assert_eq!(bin_links.len(), 0);
        }
        other => panic!("expected the workspace task first, got {:?}", other),
    }
    match &tasks[1] {
        WriteTask::Npm {
            node,
            root_dir,
            code_dir,
            tarball_url,
            cache_key,
            links,
        } => {
            assert_eq!(*node, 1);
            assert_eq!(root_dir, "/data/store/lib@1.0.4");
            assert_eq!(code_dir, "/data/store/lib@1.0.4/node_modules/lib");
            assert_eq!(tarball_url, "tarball-url");
            assert_eq!(cache_key, "lib@1.0.4");
            assert_eq!(links.len(), 0);
        }
        other => panic!("expected the registry task second, got {:?}", other),
    }
}

#[test]
fn writer_plans_binary_links_for_members() {
    let mut p1 = member("p1", vec![("tool", "~1.0.0")], "/repo/p1");
    p1.dev_dependencies = vec![];
    let base = vec![Package::WorkspacePackage(p1)];
    let mut resolver = TableResolver {
        docs: vec![metadata(
            "tool",
            vec![(
                "1.0.0",
                VersionMetadata {
                    shasum: "shasum".to_string(),
                    tarball: "tarball-url".to_string(),
                    dependencies: vec![],
                    bin: Some(jm::metadata::NpmBinMetadata::Text("./bin/tool.js".to_string())),
                },
            )],
        )],
    };
    let (starting_nodes, graph) = build_graph(base, &mut resolver).unwrap();

    let writer = Writer::new(Store::new("/data"));
    let tasks = writer.write(&starting_nodes, &graph);

    match &tasks[0] {
        WriteTask::Workspace { bin_links, .. } => {
            assert_eq!(bin_links.len(), 1);
            assert_eq!(bin_links[0].link, "/repo/p1/node_modules/.bin/tool");
            assert_eq!(
                bin_links[0].original,
                "/data/store/tool@1.0.0/node_modules/tool/./bin/tool.js"
            );
        }
        other => panic!("expected the workspace task first, got {:?}", other),
    }
}

#[test]
fn writing_twice_plans_the_same_tasks() {
    let p1 = member("p1", vec![("lib", "~1.0.0")], "/repo/p1");
    let base = vec![Package::WorkspacePackage(p1)];
    let mut resolver = TableResolver {
        docs: vec![metadata("lib", vec![("1.0.4", version_metadata(vec![]))])],
    };
    let (starting_nodes, graph) = build_graph(base, &mut resolver).unwrap();

    let writer = Writer::new(Store::new("/data"));
    let first = writer.write(&starting_nodes, &graph);
    let second = writer.write(&starting_nodes, &graph);

    assert_eq!(first, second);
}

#[test]
fn distinct_packages_get_distinct_store_places() {
    let store = Store::new("/data");
    let a = jm::package::NpmPackage::new(
        "lib".to_string(),
        "1.0.0".to_string(),
        None,
        "s".to_string(),
        "t".to_string(),
        vec![],
    );
    let b = jm::package::NpmPackage::new(
        "lib".to_string(),
        "1.0.1".to_string(),
        None,
        "s".to_string(),
        "t".to_string(),
        vec![],
    );

    assert_ne!(
        store.package_code_path_in_store(&a),
        store.package_code_path_in_store(&b)
    );
    assert_eq!(
        store.package_code_path_in_store(&a),
        store.package_code_path_in_store(&a)
    );
}

struct TableSource {
    docs: Vec<PackageMetadata>,
}

impl MetadataSource for TableSource {
    fn get_metadata(&mut self, package_name: &str) -> Result<PackageMetadata, JmCoreError> {
        self.docs
            .iter()
            .find(|d| d.package_name == package_name)
            .cloned()
            .ok_or_else(|| JmCoreError::new(format!("unknown package {}", package_name)))
    }
}

#[test]
fn workspace_name_collision_wins_in_the_graph() {
    let p1 = member("p1", vec![("lib", "~1.0.0")], "/repo/p1");
    let lib_member = member("lib", vec![], "/repo/lib");
    let base = vec![
        Package::WorkspacePackage(p1),
        Package::WorkspacePackage(lib_member.clone()),
    ];
    let source = TableSource {
        docs: vec![metadata("lib", vec![("1.0.4", version_metadata(vec![]))])],
    };
    let mut resolver = Resolver::new(source, vec![lib_member.clone()]);

    let (starting_nodes, graph) = build_graph(base, &mut resolver).unwrap();

    // the member shadows the registry: no third node appears
    assert_eq!(starting_nodes, vec![0, 1]);
    assert_eq!(graph_node_count(&graph), 2);
    assert_eq!(graph_neighbors(&graph, 0), vec![1]);
    assert_eq!(
        graph_package(&graph, 1),
        &Package::WorkspacePackage(lib_member)
    );
}
