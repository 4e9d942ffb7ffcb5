//! The writer: turns the graph into an installation plan. For each node
//! reachable from a starting node there is a task naming the directories
//! to create, the tarball to fetch, and the symlinks to lay down; running
//! the tasks — in any order, any number of times — is the caller's work,
//! safe because every task confines its writes to its own directory and
//! names them deterministically.

use vstd::prelude::*;

use crate::graph::{
    edges_wf, graph_edges, graph_neighbors, graph_node_count, graph_nodes, graph_package,
    has_edge, lemma_edge_in_successors, lemma_successor_is_edge, successors_of, DepGraph,
};
use crate::package::{BinaryScriptView, Package, PackageView};
use crate::store::{package_code_in, package_root_in, Store};

verus! {

/// One symlink to lay down.
#[derive(Debug, PartialEq)]
pub struct LinkAction {
    pub link: String,
    pub original: String,
}

/// Mathematical shape of a symlink action.
#[verifier::ext_equal]
pub struct LinkActionView {
    pub link: Seq<char>,
    pub original: Seq<char>,
}

impl View for LinkAction {
    type V = LinkActionView;

    open spec fn view(&self) -> LinkActionView {
        LinkActionView { link: self.link@, original: self.original@ }
    }
}

impl DeepView for LinkAction {
    type V = LinkActionView;

    open spec fn deep_view(&self) -> LinkActionView {
        self.view()
    }
}

/// One node's work. A registry package gets its code directory created and
/// filled once — a task whose code directory already exists is skipped
/// whole — and its dependency links beside it; a workspace member gets its
/// `node_modules` ensured and its dependency and binary links, every run.
#[derive(Debug, PartialEq)]
pub enum WriteTask {
    Npm {
        node: usize,
        root_dir: String,
        code_dir: String,
        tarball_url: String,
        cache_key: String,
        links: Vec<LinkAction>,
    },
    Workspace { node: usize, modules_dir: String, links: Vec<LinkAction>, bin_links: Vec<LinkAction> },
}

/// Mathematical shape of one task.
#[verifier::ext_equal]
pub enum WriteTaskView {
    Npm {
        node: int,
        root_dir: Seq<char>,
        code_dir: Seq<char>,
        tarball_url: Seq<char>,
        cache_key: Seq<char>,
        links: Seq<LinkActionView>,
    },
    Workspace {
        node: int,
        modules_dir: Seq<char>,
        links: Seq<LinkActionView>,
        bin_links: Seq<LinkActionView>,
    },
}

impl View for WriteTask {
    type V = WriteTaskView;

    open spec fn view(&self) -> WriteTaskView {
        match self {
            WriteTask::Npm { node, root_dir, code_dir, tarball_url, cache_key, links } => WriteTaskView::Npm {
                node: *node as int,
                root_dir: root_dir@,
                code_dir: code_dir@,
                tarball_url: tarball_url@,
                cache_key: cache_key@,
                links: links.deep_view(),
            },
            WriteTask::Workspace { node, modules_dir, links, bin_links } => WriteTaskView::Workspace {
                node: *node as int,
                modules_dir: modules_dir@,
                links: links.deep_view(),
                bin_links: bin_links.deep_view(),
            },
        }
    }
}

impl DeepView for WriteTask {
    type V = WriteTaskView;

    open spec fn deep_view(&self) -> WriteTaskView {
        self.view()
    }
}

/// The node a task serves.
pub open spec fn task_node(t: WriteTaskView) -> int {
    match t {
        WriteTaskView::Npm { node, .. } => node,
        WriteTaskView::Workspace { node, .. } => node,
    }
}

/// The dependency links a task lays down.
pub open spec fn task_links(t: WriteTaskView) -> Seq<LinkActionView> {
    match t {
        WriteTaskView::Npm { links, .. } => links,
        WriteTaskView::Workspace { links, .. } => links,
    }
}

/// Where a dependency link points: a registry package's code directory in
/// the store, or a workspace member's own directory.
pub open spec fn link_target(store_path: Seq<char>, p: PackageView) -> Seq<char> {
    match p {
        PackageView::Npm(np) => package_code_in(store_path, np.name, np.version),
        PackageView::Workspace(w) => w.base_path,
    }
}

/// The directory whose `node_modules` carries a node's dependency links.
pub open spec fn link_base(store_path: Seq<char>, p: PackageView) -> Seq<char> {
    match p {
        PackageView::Npm(np) => package_root_in(store_path, np.name, np.version),
        PackageView::Workspace(w) => w.base_path,
    }
}

/// The dependency link from a parent node to one dependency: the link
/// keeps the dependency's name (scope structure included) under the
/// parent's `node_modules`.
pub open spec fn dep_link(store_path: Seq<char>, parent: PackageView, dep: PackageView) -> LinkActionView {
    LinkActionView {
        link: link_base(store_path, parent) + "/node_modules/"@ + dep.name(),
        original: link_target(store_path, dep),
    }
}

/// The links from a parent to the given successor nodes, in order.
pub open spec fn links_of_succs(
    store_path: Seq<char>,
    nodes: Seq<PackageView>,
    parent: PackageView,
    succs: Seq<int>,
) -> Seq<LinkActionView> {
    succs.map_values(|j: int| dep_link(store_path, parent, nodes[j]))
}

/// The binary links one dependency contributes under a workspace member:
/// one link per declared binary, under `node_modules/.bin`, pointing into
/// the dependency's code directory.
pub open spec fn bin_links_of(
    store_path: Seq<char>,
    ws_base: Seq<char>,
    dep: PackageView,
) -> Seq<LinkActionView> {
    dep.binaries().map_values(
        |b: BinaryScriptView| LinkActionView {
            link: ws_base + "/node_modules/.bin/"@ + b.name,
            original: link_target(store_path, dep) + "/"@ + b.path,
        },
    )
}

/// The binary links of all the given successors, in order.
pub open spec fn bin_links_seq(
    store_path: Seq<char>,
    nodes: Seq<PackageView>,
    ws_base: Seq<char>,
    succs: Seq<int>,
) -> Seq<LinkActionView>
    decreases succs.len(),
{
    if succs.len() == 0 {
        Seq::empty()
    } else {
        bin_links_of(store_path, ws_base, nodes[succs[0]]) + bin_links_seq(
            store_path,
            nodes,
            ws_base,
            succs.skip(1),
        )
    }
}

proof fn lemma_bin_links_push(
    store_path: Seq<char>,
    nodes: Seq<PackageView>,
    ws_base: Seq<char>,
    succs: Seq<int>,
    x: int,
)
    ensures
        bin_links_seq(store_path, nodes, ws_base, succs.push(x)) == bin_links_seq(
            store_path,
            nodes,
            ws_base,
            succs,
        ) + bin_links_of(store_path, ws_base, nodes[x]),
    decreases succs.len(),
{
    if succs.len() == 0 {
        assert(succs.push(x)[0] == x);
        assert(succs.push(x).skip(1) =~= Seq::<int>::empty());
        assert(bin_links_seq(store_path, nodes, ws_base, Seq::<int>::empty())
            =~= Seq::<LinkActionView>::empty());
        assert(bin_links_seq(store_path, nodes, ws_base, succs.push(x)) =~= bin_links_of(
            store_path,
            ws_base,
            nodes[x],
        ));
        assert(bin_links_seq(store_path, nodes, ws_base, succs) + bin_links_of(
            store_path,
            ws_base,
            nodes[x],
        ) =~= bin_links_of(store_path, ws_base, nodes[x]));
    } else {
        assert(succs.push(x).skip(1) =~= succs.skip(1).push(x));
        lemma_bin_links_push(store_path, nodes, ws_base, succs.skip(1), x);
        assert(succs.push(x)[0] == succs[0]);
        assert(bin_links_seq(store_path, nodes, ws_base, succs.push(x)) == bin_links_of(
            store_path,
            ws_base,
            nodes[succs[0]],
        ) + bin_links_seq(store_path, nodes, ws_base, succs.skip(1).push(x)));
        assert(bin_links_seq(store_path, nodes, ws_base, succs) + bin_links_of(
            store_path,
            ws_base,
            nodes[x],
        ) =~= bin_links_of(store_path, ws_base, nodes[succs[0]]) + (bin_links_seq(
            store_path,
            nodes,
            ws_base,
            succs.skip(1),
        ) + bin_links_of(store_path, ws_base, nodes[x])));
    }
}

/// The task for one node.
pub open spec fn task_for(
    store_path: Seq<char>,
    nodes: Seq<PackageView>,
    edges: Seq<(int, int)>,
    i: int,
) -> WriteTaskView {
    match nodes[i] {
        PackageView::Npm(np) => WriteTaskView::Npm {
            node: i,
            root_dir: package_root_in(store_path, np.name, np.version),
            code_dir: package_code_in(store_path, np.name, np.version),
            tarball_url: np.tarball_url,
            cache_key: np.name + "@"@ + np.version,
            links: links_of_succs(store_path, nodes, nodes[i], successors_of(edges, i)),
        },
        PackageView::Workspace(w) => WriteTaskView::Workspace {
            node: i,
            modules_dir: w.base_path + "/node_modules"@,
            links: links_of_succs(store_path, nodes, nodes[i], successors_of(edges, i)),
            bin_links: bin_links_seq(store_path, nodes, w.base_path, successors_of(edges, i)),
        },
    }
}

/// A walk along the graph's edges.
pub open spec fn is_walk(edges: Seq<(int, int)>, path: Seq<int>) -> bool {
    forall|k: int|
        #![trigger path[k]]
        0 <= k < path.len() - 1 ==> has_edge(edges, path[k], path[k + 1])
}

/// Whether a walk leads from the root to node `i`.
pub open spec fn reachable_from(edges: Seq<(int, int)>, root: int, i: int) -> bool {
    exists|path: Seq<int>|
        #![trigger is_walk(edges, path)]
        path.len() > 0 && path[0] == root && path.last() == i && is_walk(edges, path)
}

proof fn lemma_reachable_root_self(edges: Seq<(int, int)>, r: int)
    ensures
        reachable_from(edges, r, r),
{
    let path = seq![r];
    assert(path.last() == r);
    assert(is_walk(edges, path));
}

proof fn lemma_reachable_step_from(edges: Seq<(int, int)>, root: int, i: int, j: int)
    requires
        reachable_from(edges, root, i),
        has_edge(edges, i, j),
    ensures
        reachable_from(edges, root, j),
{
    let path = choose|path: Seq<int>|
        #![trigger is_walk(edges, path)]
        path.len() > 0 && path[0] == root && path.last() == i && is_walk(edges, path);
    let path2 = path.push(j);
    assert(path2.last() == j);
    assert(path2[0] == path[0]);
    assert forall|k: int|
        #![trigger path2[k]]
        0 <= k < path2.len() - 1 implies has_edge(edges, path2[k], path2[k + 1]) by {
        if k < path.len() - 1 {
            assert(path2[k] == path[k]);
            assert(path2[k + 1] == path[k + 1]);
        } else {
            assert(path2[k] == path.last());
            assert(path2[k + 1] == j);
        }
    }
    assert(is_walk(edges, path2));
}

/// A set of nodes that holds a walk's start and follows its edges holds
/// its end.
proof fn lemma_walk_stays_marked(
    edges: Seq<(int, int)>,
    visited: Seq<bool>,
    path: Seq<int>,
)
    requires
        is_walk(edges, path),
        path.len() > 0,
        0 <= path[0] < visited.len(),
        visited[path[0]],
        edges_wf_bounds(edges, visited.len() as int),
        forall|a: int, b: int|
            0 <= a < visited.len() && 0 <= b < visited.len() && visited[a] && has_edge(
                edges,
                a,
                b,
            ) ==> visited[b],
    ensures
        0 <= path.last() < visited.len(),
        visited[path.last()],
    decreases path.len(),
{
    if path.len() == 1 {
    } else {
        assert(has_edge(edges, path[0], path[1]));
        let k = choose|k: int| 0 <= k < edges.len() && #[trigger] edges[k] == (path[0], path[1]);
        assert(0 <= path[1] < visited.len());
        assert(visited[path[1]]);
        let rest = path.skip(1);
        assert(rest[0] == path[1]);
        assert(rest.last() == path.last());
        assert forall|k2: int|
            #![trigger rest[k2]]
            0 <= k2 < rest.len() - 1 implies has_edge(edges, rest[k2], rest[k2 + 1]) by {
            assert(rest[k2] == path[k2 + 1]);
            assert(rest[k2 + 1] == path[k2 + 2]);
            assert(has_edge(edges, path[k2 + 1], path[k2 + 2]));
        }
        lemma_walk_stays_marked(edges, visited, rest);
    }
}

/// Every edge endpoint lies below the bound.
pub open spec fn edges_wf_bounds(edges: Seq<(int, int)>, n: int) -> bool {
    forall|k: int|
        0 <= k < edges.len() ==> 0 <= (#[trigger] edges[k]).0 < n && 0 <= edges[k].1 < n
}

/// How many nodes are marked.
pub open spec fn count_marked(s: Seq<bool>) -> int
    decreases s.len(),
{
    if s.len() == 0 {
        0
    } else {
        count_marked(s.drop_last()) + if s.last() {
            1int
        } else {
            0int
        }
    }
}

proof fn lemma_count_all_false(s: Seq<bool>)
    requires
        forall|i: int| 0 <= i < s.len() ==> !(#[trigger] s[i]),
    ensures
        count_marked(s) == 0,
    decreases s.len(),
{
    if s.len() > 0 {
        assert(!s.last());
        lemma_count_all_false(s.drop_last());
    }
}

proof fn lemma_count_marked_le(s: Seq<bool>)
    ensures
        0 <= count_marked(s) <= s.len(),
    decreases s.len(),
{
    if s.len() > 0 {
        lemma_count_marked_le(s.drop_last());
    }
}

proof fn lemma_count_marked_update(s: Seq<bool>, i: int)
    requires
        0 <= i < s.len(),
        !s[i],
    ensures
        count_marked(s.update(i, true)) == count_marked(s) + 1,
    decreases s.len(),
{
    if i == s.len() - 1 {
        assert(s.update(i, true).drop_last() =~= s.drop_last());
        assert(s.update(i, true).last());
    } else {
        assert(s.update(i, true).drop_last() =~= s.drop_last().update(i, true));
        assert(s.update(i, true).last() == s.last());
        lemma_count_marked_update(s.drop_last(), i);
    }
}

/// The writer over a store.
pub struct Writer {
    pub store: Store,
}

impl Writer {
    pub fn new(store: Store) -> (r: Writer)
        ensures
            r.store.store_path == store.store_path,
    {
        Writer { store }
    }
}

/// The links from a parent node to the given successors.
fn build_links(
    store: &Store,
    graph: &DepGraph,
    parent: &Package,
    neighbors: &Vec<usize>,
) -> (r: Vec<LinkAction>)
    requires
        forall|s: int|
            0 <= s < neighbors@.len() ==> ((#[trigger] neighbors@[s]) as int) < graph_nodes(*graph).len(),
    ensures
        r.deep_view() == links_of_succs(
            store.store_path@,
            graph_nodes(*graph),
            parent@,
            neighbors@.map_values(|x: usize| x as int),
        ),
{
    let ghost succs = neighbors@.map_values(|x: usize| x as int);
    let base = match parent {
        Package::NpmPackage(np) => store.package_path_in_store(np),
        Package::WorkspacePackage(w) => w.base_path.clone(),
    };
    proof {
        assert(base@ == link_base(store.store_path@, parent@));
    }
    let mut out: Vec<LinkAction> = Vec::new();
    let mut s: usize = 0;
    while s < neighbors.len()
        invariant
            s <= neighbors.len(),
            succs == neighbors@.map_values(|x: usize| x as int),
            succs.len() == neighbors@.len(),
            forall|t: int|
                0 <= t < neighbors@.len() ==> ((#[trigger] neighbors@[t]) as int) < graph_nodes(*graph).len(),
            base@ == link_base(store.store_path@, parent@),
            out.deep_view() == links_of_succs(
                store.store_path@,
                graph_nodes(*graph),
                parent@,
                succs.subrange(0, s as int),
            ),
        decreases neighbors.len() - s,
    {
        let j = neighbors[s];
        let dep = graph_package(graph, j);
        let mut link = base.clone();
        link.append("/node_modules/");
        link.append(dep.name());
        let original = match dep {
            Package::NpmPackage(np) => store.package_code_path_in_store(np),
            Package::WorkspacePackage(w) => w.base_path.clone(),
        };
        let ghost old_out = out.deep_view();
        out.push(LinkAction { link, original });
        proof {
            let lhs = out.deep_view();
            let rhs = links_of_succs(
                store.store_path@,
                graph_nodes(*graph),
                parent@,
                succs.subrange(0, s + 1 as int),
            );
            assert(succs[s as int] == neighbors@[s as int] as int);
            assert(old_out.len() == s);
            assert(lhs.len() == s + 1);
            assert(rhs.len() == s + 1);
            assert forall|k: int| 0 <= k < s + 1 implies lhs[k] == rhs[k] by {
                assert(lhs[k] == out@[k]@);
                if k < s {
                    assert(lhs[k] == old_out[k]);
                    assert(old_out[k] == links_of_succs(
                        store.store_path@,
                        graph_nodes(*graph),
                        parent@,
                        succs.subrange(0, s as int),
                    )[k]);
                    assert(succs.subrange(0, s as int)[k] == succs.subrange(0, s + 1 as int)[k]);
                } else {
                    assert(succs.subrange(0, s + 1 as int)[k] == succs[s as int]);
                    assert(lhs[k] =~= dep_link(
                        store.store_path@,
                        parent@,
                        graph_nodes(*graph)[succs[s as int]],
                    ));
                }
            }
            assert(lhs =~= rhs);
        }
        s = s + 1;
    }
    proof {
        assert(succs.subrange(0, succs.len() as int) =~= succs);
    }
    out
}

/// The binary links the given successors contribute under a workspace
/// member's directory.
fn build_bin_links(
    store: &Store,
    graph: &DepGraph,
    ws_base: &String,
    neighbors: &Vec<usize>,
) -> (r: Vec<LinkAction>)
    requires
        forall|s: int|
            0 <= s < neighbors@.len() ==> ((#[trigger] neighbors@[s]) as int) < graph_nodes(*graph).len(),
    ensures
        r.deep_view() == bin_links_seq(
            store.store_path@,
            graph_nodes(*graph),
            ws_base@,
            neighbors@.map_values(|x: usize| x as int),
        ),
{
    let ghost succs = neighbors@.map_values(|x: usize| x as int);
    let mut out: Vec<LinkAction> = Vec::new();
    proof {
        assert(succs.subrange(0, 0) =~= Seq::<int>::empty());
        assert(bin_links_seq(store.store_path@, graph_nodes(*graph), ws_base@, Seq::<int>::empty())
            =~= Seq::<LinkActionView>::empty());
        assert(out.deep_view() =~= Seq::<LinkActionView>::empty());
    }
    let mut s: usize = 0;
    while s < neighbors.len()
        invariant
            s <= neighbors.len(),
            succs == neighbors@.map_values(|x: usize| x as int),
            succs.len() == neighbors@.len(),
            forall|t: int|
                0 <= t < neighbors@.len() ==> ((#[trigger] neighbors@[t]) as int) < graph_nodes(*graph).len(),
            out.deep_view() == bin_links_seq(
                store.store_path@,
                graph_nodes(*graph),
                ws_base@,
                succs.subrange(0, s as int),
            ),
        decreases neighbors.len() - s,
    {
        let j = neighbors[s];
        let dep = graph_package(graph, j);
        let target_base = match dep {
            Package::NpmPackage(np) => store.package_code_path_in_store(np),
            Package::WorkspacePackage(w) => w.base_path.clone(),
        };
        proof {
            assert(target_base@ == link_target(store.store_path@, dep@));
        }
        let binaries = dep.binaries();
        let ghost round_start = out.deep_view();
        let mut b: usize = 0;
        while b < binaries.len()
            invariant
                b <= binaries.len(),
                binaries.deep_view() == dep@.binaries(),
                binaries.deep_view().len() == binaries@.len(),
                target_base@ == link_target(store.store_path@, dep@),
                out.deep_view() == round_start + bin_links_of(
                    store.store_path@,
                    ws_base@,
                    dep@,
                ).subrange(0, b as int),
            decreases binaries.len() - b,
        {
            let mut link = ws_base.clone();
            link.append("/node_modules/.bin/");
            link.append(binaries[b].name.as_str());
            let mut original = target_base.clone();
            original.append("/");
            original.append(binaries[b].path.as_str());
            let ghost old_out = out.deep_view();
            out.push(LinkAction { link, original });
            proof {
                let ones = bin_links_of(store.store_path@, ws_base@, dep@);
                assert(binaries.deep_view()[b as int] == binaries@[b as int]@);
                assert(out.deep_view().len() == old_out.len() + 1);
                assert(out.deep_view()[old_out.len() as int] == out@[old_out.len() as int]@);
                assert(ones[b as int] =~~= out.deep_view()[old_out.len() as int]);
                let lhs = out.deep_view();
                let rhs = round_start + ones.subrange(0, b + 1 as int);
                assert(rhs.len() == lhs.len());
                assert forall|k: int| 0 <= k < lhs.len() implies lhs[k] == rhs[k] by {
                    if k < old_out.len() {
                        assert(lhs[k] == old_out[k]);
                        assert(old_out[k] == (round_start + ones.subrange(0, b as int))[k]);
                        if k >= round_start.len() {
                            assert(ones.subrange(0, b as int)[k - round_start.len()]
                                == ones.subrange(0, b + 1 as int)[k - round_start.len()]);
                        }
                    } else {
                        assert(k == round_start.len() + b);
                        assert(rhs[k] == ones.subrange(0, b + 1 as int)[b as int]);
                    }
                }
                assert(lhs =~= rhs);
            }
            b = b + 1;
        }
        proof {
            let ones = bin_links_of(store.store_path@, ws_base@, dep@);
            assert(ones.subrange(0, binaries@.len() as int) =~= ones);
            assert(succs.subrange(0, s as int).push(succs[s as int]) =~= succs.subrange(
                0,
                s + 1 as int,
            ));
            lemma_bin_links_push(
                store.store_path@,
                graph_nodes(*graph),
                ws_base@,
                succs.subrange(0, s as int),
                succs[s as int],
            );
            assert(graph_nodes(*graph)[succs[s as int]] == dep@);
        }
        s = s + 1;
    }
    proof {
        assert(succs.subrange(0, succs.len() as int) =~= succs);
    }
    out
}

/// The task for one node.
fn task_for_node(store: &Store, graph: &DepGraph, i: usize) -> (t: WriteTask)
    requires
        i < graph_nodes(*graph).len(),
    ensures
        t@ == task_for(store.store_path@, graph_nodes(*graph), graph_edges(*graph), i as int),
        task_node(t@) == i as int,
{
    let neighbors = graph_neighbors(graph, i);
    let node = graph_package(graph, i);
    match node {
        Package::NpmPackage(np) => {
            let root_dir = store.package_path_in_store(np);
            let code_dir = store.package_code_path_in_store(np);
            let mut cache_key = np.name.clone();
            cache_key.append("@");
            cache_key.append(np.version.as_str());
            let links = build_links(store, graph, node, &neighbors);
            let t = WriteTask::Npm {
                node: i,
                root_dir,
                code_dir,
                tarball_url: np.tarball_url.clone(),
                cache_key,
                links,
            };
            proof {
                assert(cache_key@ =~= np@.name + "@"@ + np@.version);
                assert(t@ =~~= task_for(
                    store.store_path@,
                    graph_nodes(*graph),
                    graph_edges(*graph),
                    i as int,
                ));
            }
            t
        },
        Package::WorkspacePackage(w) => {
            let mut modules_dir = w.base_path.clone();
            modules_dir.append("/node_modules");
            let links = build_links(store, graph, node, &neighbors);
            let bin_links = build_bin_links(store, graph, &w.base_path, &neighbors);
            let t = WriteTask::Workspace { node: i, modules_dir, links, bin_links };
            proof {
                assert(modules_dir@ =~= w@.base_path + "/node_modules"@);
                assert(t@ =~~= task_for(
                    store.store_path@,
                    graph_nodes(*graph),
                    graph_edges(*graph),
                    i as int,
                ));
            }
            t
        },
    }
}

/// Whether some task serves node `i`.
pub open spec fn tasked(ts: Seq<WriteTaskView>, i: int) -> bool {
    exists|t: int| 0 <= t < ts.len() && task_node(#[trigger] ts[t]) == i
}

/// Whether the stack holds node `i`.
pub open spec fn stack_has(s: Seq<usize>, i: int) -> bool {
    exists|k: int| 0 <= k < s.len() && (#[trigger] s[k]) as int == i
}

/// Every outgoing edge of node `i` leads to a visited node.
pub open spec fn expanded(edges: Seq<(int, int)>, visited: Seq<bool>, i: int) -> bool {
    forall|j: int| 0 <= j < visited.len() && #[trigger] has_edge(edges, i, j) ==> visited[j]
}

impl Writer {
    /// The installation plan: one task for every node reachable from a
    /// starting node, one start at a time, depth first with a fresh
    /// visited set per start. A node reachable from two starts gets its
    /// (identical) task twice; the tasks tolerate reruns, so the plan's
    /// effect is determined by the graph alone.
    pub fn write(&self, starting_nodes: &Vec<usize>, graph: &DepGraph) -> (tasks: Vec<WriteTask>)
        requires
            forall|s: int|
                0 <= s < starting_nodes@.len() ==> ((#[trigger] starting_nodes@[s]) as int)
                    < graph_nodes(*graph).len(),
            edges_wf(graph_nodes(*graph), graph_edges(*graph)),
        ensures
            forall|t: int|
                0 <= t < tasks.deep_view().len() ==> {
                    &&& 0 <= task_node(#[trigger] tasks.deep_view()[t]) < graph_nodes(
                        *graph,
                    ).len()
                    &&& tasks.deep_view()[t] == task_for(
                        self.store.store_path@,
                        graph_nodes(*graph),
                        graph_edges(*graph),
                        task_node(tasks.deep_view()[t]),
                    )
                    &&& exists|s: int|
                        0 <= s < starting_nodes@.len() && reachable_from(
                            graph_edges(*graph),
                            (#[trigger] starting_nodes@[s]) as int,
                            task_node(tasks.deep_view()[t]),
                        )
                },
            forall|s: int, i: int|
                #![trigger reachable_from(graph_edges(*graph), (starting_nodes@[s]) as int, i)]
                0 <= s < starting_nodes@.len() && 0 <= i < graph_nodes(*graph).len()
                    && reachable_from(graph_edges(*graph), (starting_nodes@[s]) as int, i)
                    ==> tasked(tasks.deep_view(), i),
            plan_describes(
                self.store.store_path@,
                graph_nodes(*graph),
                graph_edges(*graph),
                starting_nodes@,
                tasks.deep_view(),
            ),
    {
        let node_count = graph_node_count(graph);
        let mut tasks: Vec<WriteTask> = Vec::new();
        let mut si: usize = 0;
        while si < starting_nodes.len()
            invariant
                si <= starting_nodes.len(),
                node_count == graph_nodes(*graph).len(),
                forall|s: int|
                    0 <= s < starting_nodes@.len() ==> ((#[trigger] starting_nodes@[s]) as int)
                        < graph_nodes(*graph).len(),
                edges_wf(graph_nodes(*graph), graph_edges(*graph)),
                forall|t: int|
                    0 <= t < tasks.deep_view().len() ==> {
                        &&& 0 <= task_node(#[trigger] tasks.deep_view()[t]) < graph_nodes(
                            *graph,
                        ).len()
                        &&& tasks.deep_view()[t] == task_for(
                            self.store.store_path@,
                            graph_nodes(*graph),
                            graph_edges(*graph),
                            task_node(tasks.deep_view()[t]),
                        )
                        &&& exists|s: int|
                            0 <= s < starting_nodes@.len() && reachable_from(
                                graph_edges(*graph),
                                (#[trigger] starting_nodes@[s]) as int,
                                task_node(tasks.deep_view()[t]),
                            )
                    },
                forall|s: int, i: int|
                    #![trigger reachable_from(graph_edges(*graph), (starting_nodes@[s]) as int, i)]
                    0 <= s < si && 0 <= i < graph_nodes(*graph).len() && reachable_from(
                        graph_edges(*graph),
                        (starting_nodes@[s]) as int,
                        i,
                    ) ==> tasked(tasks.deep_view(), i),
            decreases starting_nodes.len() - si,
        {
            let root = starting_nodes[si];
            let ghost edges = graph_edges(*graph);
            let mut visited: Vec<bool> = Vec::new();
            let mut f: usize = 0;
            while f < node_count
                invariant
                    f <= node_count,
                    visited@.len() == f,
                    forall|i: int| 0 <= i < f ==> !(#[trigger] visited@[i]),
                decreases node_count - f,
            {
                visited.push(false);
                f = f + 1;
            }
            let mut stack: Vec<usize> = Vec::new();
            let mut marked: usize = 1;
            proof {
                lemma_count_all_false(visited@);
                lemma_count_marked_update(visited@, root as int);
            }
            visited[root] = true;
            stack.push(root);
            proof {
                lemma_count_marked_le(visited@);
                lemma_reachable_root_self(edges, root as int);
                assert(stack@[0] == root);
                assert(stack_has(stack@, root as int));
            }
            while stack.len() > 0
                invariant
                    node_count == graph_nodes(*graph).len(),
                    edges == graph_edges(*graph),
                    edges_wf(graph_nodes(*graph), graph_edges(*graph)),
                    (root as int) < node_count,
                    visited@.len() == node_count,
                    visited@[root as int],
                    marked == count_marked(visited@),
                    marked <= node_count,
                    forall|s: int|
                        0 <= s < starting_nodes@.len() ==> ((#[trigger] starting_nodes@[s]) as int)
                            < graph_nodes(*graph).len(),
                    forall|k: int|
                        0 <= k < stack@.len() ==> ((#[trigger] stack@[k]) as int) < node_count
                            && visited@[stack@[k] as int],
                    forall|i: int|
                        0 <= i < node_count && #[trigger] visited@[i] ==> reachable_from(
                            edges,
                            root as int,
                            i,
                        ),
                    forall|i: int|
                        0 <= i < node_count && #[trigger] visited@[i] && !stack_has(stack@, i)
                            ==> expanded(edges, visited@, i),
                    forall|i: int|
                        0 <= i < node_count && #[trigger] visited@[i] ==> stack_has(stack@, i)
                            || tasked(tasks.deep_view(), i),
                    forall|t: int|
                        0 <= t < tasks.deep_view().len() ==> {
                            &&& 0 <= task_node(#[trigger] tasks.deep_view()[t]) < graph_nodes(
                                *graph,
                            ).len()
                            &&& tasks.deep_view()[t] == task_for(
                                self.store.store_path@,
                                graph_nodes(*graph),
                                graph_edges(*graph),
                                task_node(tasks.deep_view()[t]),
                            )
                            &&& exists|s: int|
                                0 <= s < starting_nodes@.len() && reachable_from(
                                    graph_edges(*graph),
                                    (#[trigger] starting_nodes@[s]) as int,
                                    task_node(tasks.deep_view()[t]),
                                )
                        },
                    forall|s: int, i: int|
                        #![trigger reachable_from(graph_edges(*graph), (starting_nodes@[s]) as int, i)]
                        0 <= s < si && 0 <= i < graph_nodes(*graph).len() && reachable_from(
                            graph_edges(*graph),
                            (starting_nodes@[s]) as int,
                            i,
                        ) ==> tasked(tasks.deep_view(), i),
                    si < starting_nodes@.len(),
                    root == starting_nodes@[si as int],
                decreases node_count - marked, stack@.len(),
            {
                let ghost old_stack = stack@;
                let i = match stack.pop() {
                    Some(i) => i,
                    None => {
                        proof {
                            assert(false);
                        }
                        return tasks;
                    },
                };
                proof {
                    assert(old_stack[old_stack.len() - 1] == i);
                    assert((i as int) < node_count && visited@[i as int]);
                }
                let ghost marked0 = marked;
                let ghost stack0 = stack@;
                proof {
                    // what was expanded before the pop stays expanded
                    assert forall|ii: int|
                        0 <= ii < node_count && #[trigger] visited@[ii] && ii != i as int
                            && !stack_has(stack@, ii) implies expanded(edges, visited@, ii) by {
                        assert(!stack_has(old_stack, ii)) by {
                            if stack_has(old_stack, ii) {
                                let k = choose|k: int|
                                    0 <= k < old_stack.len() && (#[trigger] old_stack[k]) as int
                                        == ii;
                                if k == old_stack.len() - 1 {
                                    assert(ii == i as int);
                                } else {
                                    assert(stack@[k] as int == ii);
                                }
                            }
                        }
                    }
                }
                let ghost old_tasks = tasks.deep_view();
                let task = task_for_node(&self.store, graph, i);
                tasks.push(task);
                proof {
                    assert(tasks.deep_view() =~= old_tasks.push(task_for(
                        self.store.store_path@,
                        graph_nodes(*graph),
                        graph_edges(*graph),
                        i as int,
                    )));
                    assert(task_node(tasks.deep_view()[old_tasks.len() as int]) == i as int);
                    assert(tasked(tasks.deep_view(), i as int));
                    // older tasks keep their places
                    assert forall|ii: int|
                        0 <= ii < node_count && #[trigger] visited@[ii] implies stack_has(stack@, ii)
                            || tasked(tasks.deep_view(), ii) by {
                        if ii != i as int {
                            if stack_has(old_stack, ii) {
                                let k = choose|k: int|
                                    0 <= k < old_stack.len() && (#[trigger] old_stack[k]) as int
                                        == ii;
                                if k < old_stack.len() - 1 {
                                    assert(stack@[k] as int == ii);
                                    assert(stack_has(stack@, ii));
                                } else {
                                    assert(ii == i as int);
                                }
                            } else {
                                let t = choose|t: int|
                                    0 <= t < old_tasks.len() && task_node(#[trigger] old_tasks[t])
                                        == ii;
                                assert(task_node(tasks.deep_view()[t]) == ii);
                                assert(tasked(tasks.deep_view(), ii));
                            }
                        }
                    }
                    // tasks only grow, so earlier starts stay covered
                    assert forall|s2: int, i2: int|
                        #![trigger reachable_from(graph_edges(*graph), (starting_nodes@[s2]) as int, i2)]
                        0 <= s2 < si && 0 <= i2 < graph_nodes(*graph).len() && reachable_from(
                            graph_edges(*graph),
                            (starting_nodes@[s2]) as int,
                            i2,
                        ) implies tasked(tasks.deep_view(), i2) by {
                        let t = choose|t: int|
                            0 <= t < old_tasks.len() && task_node(#[trigger] old_tasks[t]) == i2;
                        assert(task_node(tasks.deep_view()[t]) == i2);
                    }
                }
                let neighbors = graph_neighbors(graph, i);
                let ghost succs = neighbors@.map_values(|x: usize| x as int);
                let mut w: usize = 0;
                while w < neighbors.len()
                    invariant
                        w <= neighbors.len(),
                        node_count == graph_nodes(*graph).len(),
                        edges == graph_edges(*graph),
                        edges_wf(graph_nodes(*graph), graph_edges(*graph)),
                        (i as int) < node_count,
                        visited@.len() == node_count,
                        visited@[root as int],
                        (root as int) < node_count,
                        marked == count_marked(visited@),
                        marked <= node_count,
                        marked0 <= marked,
                        marked == marked0 ==> stack@ == stack0,
                        visited@[i as int],
                        succs == neighbors@.map_values(|x: usize| x as int),
                        succs == successors_of(edges, i as int),
                        succs.len() == neighbors@.len(),
                        forall|t: int|
                            0 <= t < neighbors@.len() ==> ((#[trigger] neighbors@[t]) as int)
                                < node_count,
                        forall|k: int|
                            0 <= k < stack@.len() ==> ((#[trigger] stack@[k]) as int) < node_count
                                && visited@[stack@[k] as int],
                        forall|ii: int|
                            0 <= ii < node_count && #[trigger] visited@[ii] ==> reachable_from(
                                edges,
                                root as int,
                                ii,
                            ),
                        // nodes already expanded stay expanded; the popped
                        // node is expanded up to the neighbors handled so far
                        forall|ii: int|
                            0 <= ii < node_count && #[trigger] visited@[ii] && ii != i as int
                                && !stack_has(stack@, ii) ==> expanded(edges, visited@, ii),
                        forall|t: int|
                            0 <= t < w ==> visited@[(#[trigger] neighbors@[t]) as int],
                        forall|ii: int|
                            0 <= ii < node_count && #[trigger] visited@[ii] ==> stack_has(
                                stack@,
                                ii,
                            ) || tasked(tasks.deep_view(), ii),
                        tasked(tasks.deep_view(), i as int),
                    decreases neighbors.len() - w,
                {
                    let n = neighbors[w];
                    if !visited[n] {
                        proof {
                            lemma_count_marked_update(visited@, n as int);
                            lemma_count_marked_le(visited@.update(n as int, true));
                            assert(succs[w as int] == n as int);
                            lemma_successor_is_edge(edges, i as int, w as int);
                            lemma_reachable_step_from(edges, root as int, i as int, n as int);
                        }
                        let ghost old_visited = visited@;
                        let ghost old_stack2 = stack@;
                        visited[n] = true;
                        marked = marked + 1;
                        stack.push(n);
                        proof {
                            assert(visited@ =~= old_visited.update(n as int, true));
                            assert(stack@[old_stack2.len() as int] == n);
                            assert(stack_has(stack@, n as int));
                            assert forall|ii: int|
                                0 <= ii < node_count && #[trigger] visited@[ii] implies
                                reachable_from(edges, root as int, ii) by {
                                if ii != n as int {
                                    assert(old_visited[ii]);
                                }
                            }
                            assert forall|ii: int|
                                0 <= ii < node_count && #[trigger] visited@[ii] && ii != i as int
                                    && !stack_has(stack@, ii) implies expanded(
                                edges,
                                visited@,
                                ii,
                            ) by {
                                if ii != n as int {
                                    assert(old_visited[ii]);
                                    assert(!stack_has(old_stack2, ii)) by {
                                        if stack_has(old_stack2, ii) {
                                            let k = choose|k: int|
                                                0 <= k < old_stack2.len() && (
                                                #[trigger] old_stack2[k]) as int == ii;
                                            assert(stack@[k] as int == ii);
                                        }
                                    }
                                    assert(expanded(edges, old_visited, ii));
                                    assert forall|j: int|
                                        0 <= j < visited@.len() && #[trigger] has_edge(
                                            edges,
                                            ii,
                                            j,
                                        ) implies visited@[j] by {
                                        assert(old_visited[j]);
                                    }
                                }
                            }
                            assert forall|ii: int|
                                0 <= ii < node_count && #[trigger] visited@[ii] implies stack_has(
                                stack@,
                                ii,
                            ) || tasked(tasks.deep_view(), ii) by {
                                if ii != n as int {
                                    assert(old_visited[ii]);
                                    if stack_has(old_stack2, ii) {
                                        let k = choose|k: int|
                                            0 <= k < old_stack2.len() && (
                                            #[trigger] old_stack2[k]) as int == ii;
                                        assert(stack@[k] as int == ii);
                                    }
                                }
                            }
                            assert forall|t: int|
                                0 <= t < w + 1 implies visited@[(#[trigger] neighbors@[t]) as int]
                                by {
                                if t < w {
                                    assert(old_visited[neighbors@[t] as int]);
                                }
                            }
                        }
                    }
                    w = w + 1;
                }
                proof {
                    // the popped node is now expanded
                    assert forall|ii: int|
                        0 <= ii < node_count && #[trigger] visited@[ii] && !stack_has(stack@, ii)
                            implies expanded(edges, visited@, ii) by {
                        if ii == i as int {
                            assert forall|j: int|
                                0 <= j < visited@.len() && #[trigger] has_edge(
                                    edges,
                                    ii,
                                    j,
                                ) implies visited@[j] by {
                                lemma_edge_in_successors(edges, i as int, j);
                                let t = choose|t: int|
                                    0 <= t < succs.len() && succs[t] == j;
                                assert(neighbors@[t] as int == j);
                                assert(visited@[neighbors@[t] as int]);
                            }
                        }
                    }
                }
            }
            // the stack is empty: everything reachable from this start is
            // visited, and everything visited has its task
            proof {
                assert(stack@.len() == 0);
                assert(edges_wf_bounds(edges, visited@.len() as int));
                assert forall|a: int, b: int|
                    0 <= a < visited@.len() && 0 <= b < visited@.len() && visited@[a] && has_edge(
                        edges,
                        a,
                        b,
                    ) implies visited@[b] by {
                    assert(!stack_has(stack@, a));
                    assert(expanded(edges, visited@, a));
                }
                assert forall|s: int, i: int|
                    #![trigger reachable_from(graph_edges(*graph), (starting_nodes@[s]) as int, i)]
                    0 <= s < si + 1 && 0 <= i < graph_nodes(*graph).len() && reachable_from(
                        graph_edges(*graph),
                        (starting_nodes@[s]) as int,
                        i,
                    ) implies tasked(tasks.deep_view(), i) by {
                    if s == si {
                        let path = choose|path: Seq<int>|
                            #![trigger is_walk(edges, path)]
                            path.len() > 0 && path[0] == root as int && path.last() == i
                                && is_walk(edges, path);
                        lemma_walk_stays_marked(edges, visited@, path);
                        assert(visited@[i]);
                        assert(!stack_has(stack@, i));
                    }
                }
            }
            si = si + 1;
        }
        tasks
    }
}

/// Link correctness: for every edge from a workspace member, the member's
/// task lays a link named after the dependency, under the member's own
/// `node_modules`, pointing at the dependency's code directory in the
/// store (or at the dependency's own directory, for a fellow member).
pub proof fn lemma_link_correctness(
    store_path: Seq<char>,
    nodes: Seq<PackageView>,
    edges: Seq<(int, int)>,
    i: int,
    j: int,
)
    requires
        0 <= i < nodes.len(),
        0 <= j < nodes.len(),
        has_edge(edges, i, j),
        nodes[i] is Workspace,
    ensures
        task_for(store_path, nodes, edges, i) is Workspace,
        task_links(task_for(store_path, nodes, edges, i)) == links_of_succs(
            store_path,
            nodes,
            nodes[i],
            successors_of(edges, i),
        ),
        exists|k: int|
            0 <= k < successors_of(edges, i).len() && #[trigger] links_of_succs(
                store_path,
                nodes,
                nodes[i],
                successors_of(edges, i),
            )[k] == dep_link(store_path, nodes[i], nodes[j]),
{
    lemma_edge_in_successors(edges, i, j);
    let succs = successors_of(edges, i);
    let sidx = choose|sidx: int| 0 <= sidx < succs.len() && succs[sidx] == j;
    let links = links_of_succs(store_path, nodes, nodes[i], succs);
    assert(links[sidx] == dep_link(store_path, nodes[i], nodes[j]));
}

/// What a plan claims of its tasks: every task belongs to a node reachable
/// from a starting node and holds exactly that node's work, and every
/// reachable node has a task.
pub open spec fn plan_describes(
    store_path: Seq<char>,
    nodes: Seq<PackageView>,
    edges: Seq<(int, int)>,
    starting: Seq<usize>,
    ts: Seq<WriteTaskView>,
) -> bool {
    &&& forall|t: int|
        0 <= t < ts.len() ==> {
            &&& 0 <= task_node(#[trigger] ts[t]) < nodes.len()
            &&& ts[t] == task_for(store_path, nodes, edges, task_node(ts[t]))
            &&& exists|s: int|
                0 <= s < starting.len() && reachable_from(
                    edges,
                    (#[trigger] starting[s]) as int,
                    task_node(ts[t]),
                )
        }
    &&& forall|s: int, i: int|
        #![trigger reachable_from(edges, (starting[s]) as int, i)]
        0 <= s < starting.len() && 0 <= i < nodes.len() && reachable_from(
            edges,
            (starting[s]) as int,
            i,
        ) ==> tasked(ts, i)
}

/// Whether a task of equal content stands somewhere in the plan.
pub open spec fn task_among(ts: Seq<WriteTaskView>, task: WriteTaskView) -> bool {
    exists|u: int| 0 <= u < ts.len() && (#[trigger] ts[u]) == task
}

/// Every task of one plan appears, with equal content, in the other.
pub open spec fn plan_covered(ts1: Seq<WriteTaskView>, ts2: Seq<WriteTaskView>) -> bool {
    forall|t: int| #![trigger ts1[t]] 0 <= t < ts1.len() ==> task_among(ts2, ts1[t])
}

/// Idempotence of writing: the plan is a function of the store and the
/// graph. Any two plans for the same graph carry the same tasks — every
/// task of one appears, with equal content, in the other — so running the
/// writer twice lays down the same directories and links.
pub proof fn lemma_write_deterministic(
    store_path: Seq<char>,
    nodes: Seq<PackageView>,
    edges: Seq<(int, int)>,
    starting: Seq<usize>,
    ts1: Seq<WriteTaskView>,
    ts2: Seq<WriteTaskView>,
)
    requires
        plan_describes(store_path, nodes, edges, starting, ts1),
        plan_describes(store_path, nodes, edges, starting, ts2),
    ensures
        plan_covered(ts1, ts2),
        plan_covered(ts2, ts1),
{
    lemma_plan_covered(store_path, nodes, edges, starting, ts1, ts2);
    lemma_plan_covered(store_path, nodes, edges, starting, ts2, ts1);
}

proof fn lemma_plan_covered(
    store_path: Seq<char>,
    nodes: Seq<PackageView>,
    edges: Seq<(int, int)>,
    starting: Seq<usize>,
    ts1: Seq<WriteTaskView>,
    ts2: Seq<WriteTaskView>,
)
    requires
        plan_describes(store_path, nodes, edges, starting, ts1),
        plan_describes(store_path, nodes, edges, starting, ts2),
    ensures
        plan_covered(ts1, ts2),
{
    assert forall|t: int| #![trigger ts1[t]] 0 <= t < ts1.len() implies task_among(
        ts2,
        ts1[t],
    ) by {
        let i = task_node(ts1[t]);
        let s = choose|s: int|
            0 <= s < starting.len() && reachable_from(edges, (#[trigger] starting[s]) as int, i);
        assert(reachable_from(edges, (starting[s]) as int, i));
        assert(tasked(ts2, i));
        let u = choose|u: int| 0 <= u < ts2.len() && task_node(#[trigger] ts2[u]) == i;
        assert(ts2[u] == task_for(store_path, nodes, edges, i));
        assert(ts2[u] == ts1[t]);
        assert(task_among(ts2, ts1[t]));
    }
}

} // verus!
