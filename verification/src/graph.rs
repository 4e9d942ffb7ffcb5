//! The dependency graph: petgraph holds the nodes and edges, named here
//! and trusted; the builder that fills it is verified.
//!
//! Nodes carry `Package` values; an edge `a -> b` says `a` depends on `b`.

use vstd::prelude::*;

use crate::collector::{covered_upto, entry_covers, pair_before, Collector};
use crate::dependency::{Dependency, DependencyView};
use crate::errors::JmCoreError;
use crate::package::{Package, PackageView};
use crate::resolver::PackageResolver;
use crate::strutil::copy_str;

verus! {

#[verifier::external_type_specification]
#[verifier::external_body]
#[verifier::reject_recursive_types(N)]
#[verifier::reject_recursive_types(E)]
#[verifier::reject_recursive_types(Ty)]
#[verifier::reject_recursive_types(Ix)]
pub struct ExGraph<N, E, Ty, Ix>(petgraph::graph::Graph<N, E, Ty, Ix>);

#[verifier::external_type_specification]
#[verifier::external_body]
pub struct ExDirected(petgraph::Directed);

/// The graph the builder produces and the writer walks.
pub type DepGraph = petgraph::graph::Graph<Package, (), petgraph::Directed, u32>;

/// The packages the graph's nodes hold, in node-index order.
pub uninterp spec fn graph_nodes(g: DepGraph) -> Seq<PackageView>;

/// The graph's edges as `(from, to)` node-index pairs, in insertion order.
pub uninterp spec fn graph_edges(g: DepGraph) -> Seq<(int, int)>;

/// Relies on petgraph's Graph::new: an empty directed graph.
#[verifier::external_body]
fn graph_new() -> (g: DepGraph)
    ensures
        graph_nodes(g) == Seq::<PackageView>::empty(),
        graph_edges(g) == Seq::<(int, int)>::empty(),
{
    petgraph::graph::Graph::new()
}

/// Relies on Graph::add_node: appends one node and answers its index; the
/// call panics only at the index type's maximum, which the bound excludes.
#[verifier::external_body]
fn graph_add_node(g: &mut DepGraph, package: Package) -> (ix: usize)
    requires
        graph_nodes(*old(g)).len() < 0xffff_ffff,
    ensures
        graph_nodes(*final(g)) == graph_nodes(*old(g)).push(package@),
        graph_edges(*final(g)) == graph_edges(*old(g)),
        ix == graph_nodes(*old(g)).len(),
{
    g.add_node(package).index()
}

/// Relies on Graph::add_edge: appends one directed edge between existing
/// nodes; the call panics only at the index type's maximum, which the
/// bound excludes.
#[verifier::external_body]
fn graph_add_edge(g: &mut DepGraph, from: usize, to: usize)
    requires
        from < graph_nodes(*old(g)).len(),
        to < graph_nodes(*old(g)).len(),
        graph_edges(*old(g)).len() < 0xffff_ffff,
    ensures
        graph_nodes(*final(g)) == graph_nodes(*old(g)),
        graph_edges(*final(g)) == graph_edges(*old(g)).push((from as int, to as int)),
{
    g.add_edge(
        petgraph::graph::NodeIndex::new(from),
        petgraph::graph::NodeIndex::new(to),
        (),
    );
}

/// Relies on Graph::node_count.
#[verifier::external_body]
pub fn graph_node_count(g: &DepGraph) -> (n: usize)
    ensures
        n == graph_nodes(*g).len(),
{
    g.node_count()
}

/// Relies on Graph::edge_count.
#[verifier::external_body]
pub fn graph_edge_count(g: &DepGraph) -> (n: usize)
    ensures
        n == graph_edges(*g).len(),
{
    g.edge_count()
}

/// Relies on petgraph's node indexing: the package at a node.
#[verifier::external_body]
pub fn graph_package(g: &DepGraph, i: usize) -> (p: &Package)
    requires
        i < graph_nodes(*g).len(),
    ensures
        p@ == graph_nodes(*g)[i as int],
{
    &g[petgraph::graph::NodeIndex::new(i)]
}

/// The successors of node `a`: the targets of its outgoing edges, most
/// recently added first, as petgraph walks them.
pub open spec fn successors_of(edges: Seq<(int, int)>, a: int) -> Seq<int>
    decreases edges.len(),
{
    if edges.len() == 0 {
        Seq::empty()
    } else {
        let rest = successors_of(edges.drop_last(), a);
        if edges.last().0 == a {
            seq![edges.last().1] + rest
        } else {
            rest
        }
    }
}

/// Every outgoing edge's target is among the successors.
pub proof fn lemma_edge_in_successors(edges: Seq<(int, int)>, a: int, b: int)
    requires
        has_edge(edges, a, b),
    ensures
        successors_of(edges, a).contains(b),
    decreases edges.len(),
{
    let k = choose|k: int| 0 <= k < edges.len() && #[trigger] edges[k] == (a, b);
    if k == edges.len() - 1 {
        assert(successors_of(edges, a)[0] == b);
    } else {
        assert(edges.drop_last()[k] == (a, b));
        assert(has_edge(edges.drop_last(), a, b));
        lemma_edge_in_successors(edges.drop_last(), a, b);
        let rest = successors_of(edges.drop_last(), a);
        let m = choose|m: int| 0 <= m < rest.len() && rest[m] == b;
        if edges.last().0 == a {
            assert(successors_of(edges, a)[m + 1] == b);
        }
    }
}

/// Every successor is an outgoing edge's target.
pub proof fn lemma_successor_is_edge(edges: Seq<(int, int)>, a: int, s: int)
    requires
        0 <= s < successors_of(edges, a).len(),
    ensures
        has_edge(edges, a, successors_of(edges, a)[s]),
    decreases edges.len(),
{
    if edges.len() > 0 {
        let rest = successors_of(edges.drop_last(), a);
        if edges.last().0 == a {
            if s == 0 {
                assert(edges[edges.len() - 1] == (a, successors_of(edges, a)[0]));
            } else {
                lemma_successor_is_edge(edges.drop_last(), a, s - 1);
                let b = rest[s - 1];
                let k = choose|k: int|
                    0 <= k < edges.drop_last().len() && #[trigger] edges.drop_last()[k] == (a, b);
                assert(edges[k] == (a, b));
            }
        } else {
            lemma_successor_is_edge(edges.drop_last(), a, s);
            let b = rest[s];
            let k = choose|k: int|
                0 <= k < edges.drop_last().len() && #[trigger] edges.drop_last()[k] == (a, b);
            assert(edges[k] == (a, b));
        }
    }
}

/// Relies on Graph::neighbors: the targets of the node's outgoing edges,
/// most recently added edge first; every target is an existing node.
#[verifier::external_body]
pub fn graph_neighbors(g: &DepGraph, i: usize) -> (r: Vec<usize>)
    requires
        i < graph_nodes(*g).len(),
    ensures
        r@.map_values(|x: usize| x as int) == successors_of(graph_edges(*g), i as int),
        forall|s: int| 0 <= s < r@.len() ==> ((#[trigger] r@[s]) as int) < graph_nodes(*g).len(),
{
    g.neighbors(petgraph::graph::NodeIndex::new(i)).map(|n| n.index()).collect()
}

/// No two nodes hold equal packages.
pub open spec fn nodes_distinct(nodes: Seq<PackageView>) -> bool {
    forall|i: int, j: int| 0 <= i < j < nodes.len() ==> nodes[i] != nodes[j]
}

/// Every edge joins two existing nodes.
pub open spec fn edges_wf(nodes: Seq<PackageView>, edges: Seq<(int, int)>) -> bool {
    forall|k: int|
        0 <= k < edges.len() ==> 0 <= (#[trigger] edges[k]).0 < nodes.len() && 0 <= edges[k].1
            < nodes.len()
}

/// Whether the edge `a -> b` is in the graph.
pub open spec fn has_edge(edges: Seq<(int, int)>, a: int, b: int) -> bool {
    exists|k: int| 0 <= k < edges.len() && #[trigger] edges[k] == (a, b)
}

/// The edge `from -> to` stands for a dependency its source declared,
/// resolved by the resolver to the package at its target.
pub open spec fn edge_ok<R: PackageResolver>(
    r: R,
    nodes: Seq<PackageView>,
    from: int,
    to: int,
) -> bool {
    exists|d: DependencyView|
        #![trigger r.resolves(d, nodes[to])]
        nodes[from].dependencies().contains(d) && r.resolves(d, nodes[to])
}

/// Every edge stands for a declared dependency of its source, resolved to
/// its target.
pub open spec fn edges_sound<R: PackageResolver>(
    r: R,
    nodes: Seq<PackageView>,
    edges: Seq<(int, int)>,
) -> bool {
    forall|k: int|
        0 <= k < edges.len() ==> edge_ok(r, nodes, (#[trigger] edges[k]).0, edges[k].1)
}

/// The dependency `d` of node `i` has an edge to a node the resolver
/// answers for it.
pub open spec fn dep_edged<R: PackageResolver>(
    r: R,
    nodes: Seq<PackageView>,
    edges: Seq<(int, int)>,
    i: int,
    d: DependencyView,
) -> bool {
    exists|j: int| 0 <= j < nodes.len() && #[trigger] has_edge(edges, i, j) && r.resolves(
        d,
        nodes[j],
    )
}

/// Every dependency the node declares has its edge.
pub open spec fn node_done<R: PackageResolver>(
    r: R,
    nodes: Seq<PackageView>,
    edges: Seq<(int, int)>,
    i: int,
) -> bool {
    forall|l: int|
        0 <= l < nodes[i].dependencies().len() ==> dep_edged(
            r,
            nodes,
            edges,
            i,
            #[trigger] nodes[i].dependencies()[l],
        )
}

/// Every dependency of every node has its edge: graph completeness.
pub open spec fn graph_complete<R: PackageResolver>(
    r: R,
    nodes: Seq<PackageView>,
    edges: Seq<(int, int)>,
) -> bool {
    forall|i: int| 0 <= i < nodes.len() ==> #[trigger] node_done(r, nodes, edges, i)
}

/// An edged dependency stays edged when the graph only grows.
proof fn lemma_dep_edged_grows<R: PackageResolver>(
    r: R,
    nodes1: Seq<PackageView>,
    edges1: Seq<(int, int)>,
    nodes2: Seq<PackageView>,
    edges2: Seq<(int, int)>,
    i: int,
    d: DependencyView,
)
    requires
        dep_edged(r, nodes1, edges1, i, d),
        nodes1.is_prefix_of(nodes2),
        edges1.is_prefix_of(edges2),
    ensures
        dep_edged(r, nodes2, edges2, i, d),
{
    let j = choose|j: int|
        0 <= j < nodes1.len() && #[trigger] has_edge(edges1, i, j) && r.resolves(d, nodes1[j]);
    let k = choose|k: int| 0 <= k < edges1.len() && #[trigger] edges1[k] == (i, j);
    assert(edges2[k] == (i, j));
    assert(has_edge(edges2, i, j));
    assert(nodes2[j] == nodes1[j]);
}

/// Every node equal to one of the entry's declaring packages has its edge
/// for the entry's dependency.
pub open spec fn entry_done<R: PackageResolver>(
    r: R,
    nodes: Seq<PackageView>,
    edges: Seq<(int, int)>,
    d: DependencyView,
    parents: Seq<PackageView>,
) -> bool {
    forall|t: int, i: int|
        #![trigger parents[t], nodes[i]]
        0 <= t < parents.len() && 0 <= i < nodes.len() && nodes[i] == parents[t] ==> dep_edged(
            r,
            nodes,
            edges,
            i,
            d,
        )
}

/// The builder's standing facts: distinct nodes, the base packages as the
/// first nodes, and well-formed, sound edges.
pub open spec fn builder_inv<R: PackageResolver>(
    r: R,
    basev: Seq<PackageView>,
    nodes: Seq<PackageView>,
    edges: Seq<(int, int)>,
) -> bool {
    &&& nodes.no_duplicates()
    &&& basev.is_prefix_of(nodes)
    &&& edges_wf(nodes, edges)
    &&& edges_sound(r, nodes, edges)
}

/// The position of a package among the graph's nodes.
fn index_of_package(seen: &Vec<Package>, p: &Package) -> (r: Option<usize>)
    ensures
        match r {
            Some(i) => i < seen.deep_view().len() && seen.deep_view()[i as int] == p@,
            None => forall|i: int| 0 <= i < seen.deep_view().len() ==> seen.deep_view()[i] != p@,
        },
{
    let mut i: usize = 0;
    while i < seen.len()
        invariant
            i <= seen.len(),
            seen.deep_view().len() == seen@.len(),
            forall|j: int| 0 <= j < i ==> seen.deep_view()[j] != p@,
        decreases seen.len() - i,
    {
        if seen[i] == *p {
            proof {
                assert(seen.deep_view()[i as int] == seen@[i as int]@);
            }
            return Some(i);
        }
        proof {
            assert(seen.deep_view()[i as int] == seen@[i as int]@);
        }
        i = i + 1;
    }
    None
}

/// The message given when the graph outgrows its node or edge indices.
pub open spec fn graph_too_large_msg() -> Seq<char> {
    "Dependency graph is too large"@
}

/// Every package's dependency list is empty.
pub open spec fn packages_dependency_free(pkgs: Seq<PackageView>) -> bool {
    forall|i: int| 0 <= i < pkgs.len() ==> (#[trigger] pkgs[i]).dependencies().len() == 0
}

/// Some edge targets node `i`.
pub open spec fn edge_target(edges: Seq<(int, int)>, i: int) -> bool {
    exists|k: int| 0 <= k < edges.len() && (#[trigger] edges[k]).1 == i
}

/// Every node beyond the first `base_len` is some edge's target.
pub open spec fn extras_edge_targeted(base_len: int, n: int, edges: Seq<(int, int)>) -> bool {
    forall|i: int| base_len <= i < n ==> #[trigger] edge_target(edges, i)
}

/// No two edge slots hold the same pair.
pub open spec fn edges_distinct(edges: Seq<(int, int)>) -> bool {
    forall|k1: int, k2: int| 0 <= k1 < k2 < edges.len() ==> edges[k1] != edges[k2]
}

/// The builder's edge mirror, as index pairs.
pub open spec fn edge_views(s: Seq<(usize, usize)>) -> Seq<(int, int)> {
    s.map_values(|e: (usize, usize)| (e.0 as int, e.1 as int))
}

proof fn lemma_edge_target_grows(edges1: Seq<(int, int)>, edges2: Seq<(int, int)>, i: int)
    requires
        edge_target(edges1, i),
        edges1.is_prefix_of(edges2),
    ensures
        edge_target(edges2, i),
{
    let k = choose|k: int| 0 <= k < edges1.len() && (#[trigger] edges1[k]).1 == i;
    assert(edges2[k] == edges1[k]);
}

/// Whether the mirror already holds the pair `(a, b)`.
fn contains_edge_pair(edge_list: &Vec<(usize, usize)>, a: usize, b: usize) -> (r: bool)
    ensures
        r == has_edge(edge_views(edge_list@), a as int, b as int),
{
    let mut i: usize = 0;
    while i < edge_list.len()
        invariant
            i <= edge_list.len(),
            forall|j: int|
                0 <= j < i ==> (#[trigger] edge_views(edge_list@)[j]) != (a as int, b as int),
        decreases edge_list.len() - i,
    {
        if edge_list[i].0 == a && edge_list[i].1 == b {
            proof {
                assert(edge_views(edge_list@)[i as int] == (a as int, b as int));
            }
            return true;
        }
        proof {
            assert(edge_views(edge_list@)[i as int] == (
                edge_list@[i as int].0 as int,
                edge_list@[i as int].1 as int,
            ));
        }
        i = i + 1;
    }
    proof {
        if has_edge(edge_views(edge_list@), a as int, b as int) {
            let k = choose|k: int|
                0 <= k < edge_views(edge_list@).len() && #[trigger] edge_views(edge_list@)[k] == (
                a as int,
                b as int,
            );
            assert(edge_views(edge_list@)[k] != (a as int, b as int));
        }
    }
    false
}

/// Builds the dependency graph: the base packages become the starting
/// nodes; each round collects the frontier's dependencies, resolves every
/// distinct one once, reuses the node for an already-seen package, adds an
/// edge from every declarer, and advances only on the packages first seen
/// this round. Cycles therefore close as edges to existing nodes, and the
/// loop terminates — its `decreases` measure is checked — because every
/// round either adds a node, and the node count is capped by the index
/// type (the cap is answered with an error), or exhausts its frontier.
///
/// On success: the starting nodes are exactly the base packages, in order;
/// no two nodes hold equal packages; every edge stands for a declared
/// dependency resolved to its target; no edge is laid twice; every node
/// beyond the base packages is some edge's target; and every dependency of
/// every node has its edge. An error is the graph-size message or one a
/// resolver call answered; when no package declares anything no resolver
/// is ever asked, so a small enough base is promised success and a larger
/// one only the size message.
pub fn build_graph<R: PackageResolver>(base: Vec<Package>, resolver: &mut R) -> (r: Result<
    (Vec<usize>, DepGraph),
    JmCoreError,
>)
    requires
        base.deep_view().no_duplicates(),
    ensures
        forall|d: DependencyView, p: PackageView| #[trigger]
            final(resolver).resolves(d, p) == old(resolver).resolves(d, p),
        forall|d: DependencyView, m: Seq<char>| #[trigger]
            final(resolver).may_error(d, m) == old(resolver).may_error(d, m),
        match r {
            Ok((starting, graph)) => {
                &&& base.deep_view().len() <= graph_nodes(graph).len()
                &&& starting@.len() == base@.len()
                &&& forall|i: int|
                    0 <= i < starting@.len() ==> (#[trigger] starting@[i]) as int == i
                &&& base.deep_view().is_prefix_of(graph_nodes(graph))
                &&& nodes_distinct(graph_nodes(graph))
                &&& edges_wf(graph_nodes(graph), graph_edges(graph))
                &&& edges_sound(*old(resolver), graph_nodes(graph), graph_edges(graph))
                &&& edges_distinct(graph_edges(graph))
                &&& extras_edge_targeted(
                    base.deep_view().len() as int,
                    graph_nodes(graph).len() as int,
                    graph_edges(graph),
                )
                &&& graph_complete(*old(resolver), graph_nodes(graph), graph_edges(graph))
            },
            Err(e) => e@ == graph_too_large_msg() || exists|dv: DependencyView|
                old(resolver).may_error(dv, e@),
        },
        packages_dependency_free(base.deep_view()) && base.deep_view().len() < 0xffff_ffff
            ==> r is Ok,
        packages_dependency_free(base.deep_view()) ==> match r {
            Err(e) => e@ == graph_too_large_msg(),
            Ok(_) => true,
        },
{
    let ghost basev = base.deep_view();
    let collector = Collector::new();
    let mut graph = graph_new();
    let mut seen: Vec<Package> = Vec::new();
    let mut starting: Vec<usize> = Vec::new();
    let mut frontier: Vec<Package> = Vec::new();
    let mut edge_list: Vec<(usize, usize)> = Vec::new();
    proof {
        assert(edge_views(edge_list@) =~= Seq::<(int, int)>::empty());
    }
    let mut bi: usize = 0;
    while bi < base.len()
        invariant
            bi <= base.len(),
            bi <= 0xffff_ffff,
            basev == base.deep_view(),
            basev.len() == base@.len(),
            forall|d: DependencyView, p: PackageView| #[trigger]
                resolver.resolves(d, p) == old(resolver).resolves(d, p),
            forall|d: DependencyView, m: Seq<char>| #[trigger]
                resolver.may_error(d, m) == old(resolver).may_error(d, m),
            graph_nodes(graph) == seen.deep_view(),
            graph_edges(graph) == Seq::<(int, int)>::empty(),
            edge_list@.len() == 0,
            seen.deep_view() == basev.subrange(0, bi as int),
            frontier.deep_view() == basev.subrange(0, bi as int),
            starting@.len() == bi,
            forall|i: int| 0 <= i < bi ==> (#[trigger] starting@[i]) as int == i,
        decreases base.len() - bi,
    {
        if graph_node_count(&graph) >= 0xffff_ffff {
            proof {
                assert(basev.len() >= 0xffff_ffff);
            }
            return Err(JmCoreError::new(copy_str("Dependency graph is too large")));
        }
        let ghost old_seen = seen.deep_view();
        let ix = graph_add_node(&mut graph, base[bi].clone());
        starting.push(ix);
        seen.push(base[bi].clone());
        frontier.push(base[bi].clone());
        proof {
            assert(basev[bi as int] == base@[bi as int]@);
            assert(seen.deep_view() =~= old_seen.push(basev[bi as int]));
            assert(seen.deep_view() =~= basev.subrange(0, bi + 1));
            assert(frontier.deep_view() =~= basev.subrange(0, bi + 1));
        }
        bi = bi + 1;
    }
    proof {
        assert(basev.subrange(0, base@.len() as int) =~= basev);
        assert(basev.is_prefix_of(seen.deep_view())) by {
            assert(basev =~= seen.deep_view().subrange(0, basev.len() as int));
        }
        assert(edges_wf(seen.deep_view(), graph_edges(graph)));
        assert(edges_sound(*old(resolver), seen.deep_view(), graph_edges(graph)));
        assert(builder_inv(*old(resolver), basev, seen.deep_view(), graph_edges(graph)));
    }
    while frontier.len() > 0
        invariant
            forall|d: DependencyView, p: PackageView| #[trigger]
                resolver.resolves(d, p) == old(resolver).resolves(d, p),
            forall|d: DependencyView, m: Seq<char>| #[trigger]
                resolver.may_error(d, m) == old(resolver).may_error(d, m),
            basev == base.deep_view(),
            basev.len() == base@.len(),
            basev.no_duplicates(),
            graph_nodes(graph) == seen.deep_view(),
            builder_inv(*old(resolver), basev, seen.deep_view(), graph_edges(graph)),
            graph_edges(graph) == edge_views(edge_list@),
            edges_distinct(graph_edges(graph)),
            extras_edge_targeted(
                basev.len() as int,
                seen.deep_view().len() as int,
                graph_edges(graph),
            ),
            packages_dependency_free(basev) ==> seen.deep_view() == basev,
            seen.deep_view().len() <= 0xffff_ffff,
            starting@.len() == basev.len(),
            forall|i: int| 0 <= i < starting@.len() ==> (#[trigger] starting@[i]) as int == i,
            forall|k: int|
                0 <= k < frontier.deep_view().len() ==> seen.deep_view().contains(
                    #[trigger] frontier.deep_view()[k],
                ),
            forall|i: int|
                0 <= i < seen.deep_view().len() && !frontier.deep_view().contains(
                    seen.deep_view()[i],
                ) ==> #[trigger] node_done(
                    *old(resolver),
                    seen.deep_view(),
                    graph_edges(graph),
                    i,
                ),
        decreases 0xffff_ffff - seen.deep_view().len(), frontier@.len(),
    {
        let ghost fr = frontier.deep_view();
        let ghost nodes0 = seen.deep_view();
        let entries = collector.collect(&frontier);
        proof {
            assert forall|k: int| 0 <= k < fr.len() implies nodes0.contains(#[trigger] fr[k]) by {
                assert(seen.deep_view().contains(fr[k]));
            }
        }
        let mut new_frontier: Vec<Package> = Vec::new();
        let mut ei: usize = 0;
        while ei < entries.len()
            invariant
                ei <= entries.len(),
                forall|d: DependencyView, p: PackageView| #[trigger]
                    resolver.resolves(d, p) == old(resolver).resolves(d, p),
                forall|d: DependencyView, m: Seq<char>| #[trigger]
                    resolver.may_error(d, m) == old(resolver).may_error(d, m),
                basev == base.deep_view(),
                basev.len() == base@.len(),
                basev.no_duplicates(),
                graph_nodes(graph) == seen.deep_view(),
                builder_inv(*old(resolver), basev, seen.deep_view(), graph_edges(graph)),
                graph_edges(graph) == edge_views(edge_list@),
                edges_distinct(graph_edges(graph)),
                extras_edge_targeted(
                    basev.len() as int,
                    seen.deep_view().len() as int,
                    graph_edges(graph),
                ),
                packages_dependency_free(basev) ==> seen.deep_view() == basev,
                seen.deep_view().len() <= 0xffff_ffff,
                starting@.len() == basev.len(),
                forall|i: int| 0 <= i < starting@.len() ==> (#[trigger] starting@[i]) as int == i,
                fr == frontier.deep_view(),
                crate::collector::collected_wf(fr, entries.deep_view()),
                covered_upto(fr, entries.deep_view(), fr.len() as int, 0),
                entries.deep_view().len() == entries@.len(),
                forall|k: int| 0 <= k < fr.len() ==> nodes0.contains(#[trigger] fr[k]),
                nodes0.is_prefix_of(seen.deep_view()),
                seen.deep_view() =~= nodes0 + new_frontier.deep_view(),
                forall|i: int|
                    0 <= i < nodes0.len() && !fr.contains(nodes0[i]) ==> #[trigger] node_done(
                        *old(resolver),
                        seen.deep_view(),
                        graph_edges(graph),
                        i,
                    ),
                forall|k: int|
                    0 <= k < ei ==> entry_done(
                        *old(resolver),
                        seen.deep_view(),
                        graph_edges(graph),
                        (#[trigger] entries.deep_view()[k]).0,
                        entries.deep_view()[k].1,
                    ),
            decreases entries@.len() - ei,
        {
            proof {
                assert(entries.deep_view()[ei as int].1.len() > 0);
                assert(entries.deep_view()[ei as int] == (
                    entries@[ei as int].0@,
                    entries@[ei as int].1.deep_view(),
                ));
                assert(entries@[ei as int].1.deep_view().len() == entries@[ei as int].1@.len());
                // a resolver is asked only because some package declared
                // something, so dependency-free bases never reach here
                assert(!packages_dependency_free(basev)) by {
                    if packages_dependency_free(basev) {
                        let p = entries.deep_view()[ei as int].1[0];
                        assert(fr.contains(p));
                        assert(p.dependencies().contains(entries.deep_view()[ei as int].0));
                        assert(nodes0.contains(p));
                        let idx = choose|idx: int|
                            0 <= idx < nodes0.len() && nodes0[idx] == p;
                        assert(seen.deep_view()[idx] == p);
                        assert(seen.deep_view() == basev);
                        assert(basev[idx].dependencies().len() == 0);
                    }
                }
            }
            let requester = copy_str(entries[ei].1[0].name());
            let answer = match resolver.get(requester.as_str(), &entries[ei].0) {
                Ok((q, _)) => q,
                Err(e) => {
                    proof {
                        assert(old(resolver).may_error(entries.deep_view()[ei as int].0, e@));
                    }
                    return Err(e);
                },
            };
            let ghost d = entries.deep_view()[ei as int].0;
            let ghost parents = entries.deep_view()[ei as int].1;
            proof {
                assert(old(resolver).resolves(d, answer@));
            }
            let ghost nodes_pre = seen.deep_view();
            let ghost edges_pre = graph_edges(graph);
            let qi: usize = match index_of_package(&seen, &answer) {
                Some(t) => t,
                None => {
                    if graph_node_count(&graph) >= 0xffff_ffff {
                        return Err(JmCoreError::new(copy_str("Dependency graph is too large")));
                    }
                    let ix = graph_add_node(&mut graph, answer.clone());
                    seen.push(answer.clone());
                    new_frontier.push(answer.clone());
                    proof {
                        assert(seen.deep_view() =~= nodes_pre.push(answer@));
                        assert(seen.deep_view() =~= nodes0 + new_frontier.deep_view());
                        assert(seen.deep_view().no_duplicates()) by {
                            assert(forall|i: int|
                                0 <= i < nodes_pre.len() ==> (#[trigger] seen.deep_view()[i])
                                    == nodes_pre[i]);
                            assert(forall|i: int|
                                0 <= i < nodes_pre.len() ==> nodes_pre[i] != answer@);
                        }
                        assert(basev.is_prefix_of(seen.deep_view())) by {
                            assert(basev =~= seen.deep_view().subrange(0, basev.len() as int));
                        }
                        assert(edges_wf(seen.deep_view(), graph_edges(graph)));
                        assert forall|k: int|
                            0 <= k < graph_edges(graph).len() implies edge_ok(
                            *old(resolver),
                            seen.deep_view(),
                            (#[trigger] graph_edges(graph)[k]).0,
                            graph_edges(graph)[k].1,
                        ) by {
                            assert(edge_ok(
                                *old(resolver),
                                nodes_pre,
                                graph_edges(graph)[k].0,
                                graph_edges(graph)[k].1,
                            ));
                            let dd = choose|dd: DependencyView|
                                #![trigger old(resolver).resolves(dd, nodes_pre[graph_edges(graph)[k].1])]
                                nodes_pre[(graph_edges(graph)[k]).0].dependencies().contains(dd)
                                    && old(resolver).resolves(
                                    dd,
                                    nodes_pre[graph_edges(graph)[k].1],
                                );
                            assert(seen.deep_view()[(graph_edges(graph)[k]).0] == nodes_pre[(
                            graph_edges(graph)[k]).0]);
                            assert(seen.deep_view()[graph_edges(graph)[k].1]
                                == nodes_pre[graph_edges(graph)[k].1]);
                            assert(old(resolver).resolves(
                                dd,
                                seen.deep_view()[graph_edges(graph)[k].1],
                            ));
                        }
                        assert(seen.deep_view().no_duplicates());
                        assert(basev.is_prefix_of(seen.deep_view()));
                        assert(edges_wf(seen.deep_view(), graph_edges(graph)));
                        assert(edges_sound(*old(resolver), seen.deep_view(), graph_edges(graph)));
                        assert(builder_inv(
                            *old(resolver),
                            basev,
                            seen.deep_view(),
                            graph_edges(graph),
                        ));
                    }
                    ix
                },
            };
            proof {
                assert(seen.deep_view()[qi as int] == answer@);
                assert(extras_edge_targeted(
                    basev.len() as int,
                    nodes_pre.len() as int,
                    graph_edges(graph),
                ));
                assert(seen.deep_view().len() == nodes_pre.len() || (seen.deep_view().len()
                    == nodes_pre.len() + 1 && qi as int == nodes_pre.len()));
                assert(nodes_pre.is_prefix_of(seen.deep_view())) by {
                    assert(nodes_pre =~= seen.deep_view().subrange(0, nodes_pre.len() as int));
                }
                assert(edges_pre.is_prefix_of(graph_edges(graph))) by {
                    assert(edges_pre =~= graph_edges(graph).subrange(0, edges_pre.len() as int));
                }
            }
            // one edge from every declaring package
            let ghost nodes_q = seen.deep_view();
            let mut pt: usize = 0;
            while pt < entries[ei].1.len()
                invariant
                    ei < entries@.len(),
                    ei < entries.deep_view().len(),
                    pt <= entries@[ei as int].1@.len(),
                    forall|dd: DependencyView, pp: PackageView| #[trigger]
                        resolver.resolves(dd, pp) == old(resolver).resolves(dd, pp),
                    forall|dd: DependencyView, mm: Seq<char>| #[trigger]
                        resolver.may_error(dd, mm) == old(resolver).may_error(dd, mm),
                    basev == base.deep_view(),
                    basev.len() == base@.len(),
                    basev.no_duplicates(),
                    !packages_dependency_free(basev),
                    graph_nodes(graph) == seen.deep_view(),
                    builder_inv(*old(resolver), basev, seen.deep_view(), graph_edges(graph)),
                    graph_edges(graph) == edge_views(edge_list@),
                    edges_distinct(graph_edges(graph)),
                    basev.len() <= nodes_pre.len(),
                    extras_edge_targeted(
                        basev.len() as int,
                        nodes_pre.len() as int,
                        graph_edges(graph),
                    ),
                    seen.deep_view().len() == nodes_pre.len() || (seen.deep_view().len()
                        == nodes_pre.len() + 1 && qi as int == nodes_pre.len()),
                    qi as int >= nodes_pre.len() ==> (pt > 0 ==> edge_target(
                        graph_edges(graph),
                        qi as int,
                    )),
                    seen.deep_view() == nodes_q,
                    crate::collector::collected_wf(fr, entries.deep_view()),
                    d == entries.deep_view()[ei as int].0,
                    parents == entries.deep_view()[ei as int].1,
                    parents == entries@[ei as int].1.deep_view(),
                    parents.len() == entries@[ei as int].1@.len(),
                    qi < seen.deep_view().len(),
                    seen.deep_view()[qi as int] == answer@,
                    old(resolver).resolves(d, answer@),
                    forall|k: int| 0 <= k < fr.len() ==> nodes0.contains(#[trigger] fr[k]),
                    nodes0.is_prefix_of(seen.deep_view()),
                    edges_pre.is_prefix_of(graph_edges(graph)),
                    forall|t: int, i: int|
                        #![trigger parents[t], seen.deep_view()[i]]
                        0 <= t < pt && 0 <= i < seen.deep_view().len() && seen.deep_view()[i]
                            == parents[t] ==> dep_edged(
                            *old(resolver),
                            seen.deep_view(),
                            graph_edges(graph),
                            i,
                            d,
                        ),
                decreases entries@[ei as int].1@.len() - pt,
            {
                proof {
                    assert(parents[pt as int] == entries@[ei as int].1@[pt as int]@);
                    assert(fr.contains(parents[pt as int])) by {
                        assert(entries.deep_view()[ei as int].1[pt as int] == parents[pt as int]);
                        assert(fr.contains(entries.deep_view()[ei as int].1[pt as int]));
                    }
                    let k0 = choose|k0: int| 0 <= k0 < fr.len() && fr[k0] == parents[pt as int];
                    assert(nodes0.contains(parents[pt as int]));
                    let i0 = choose|i0: int|
                        0 <= i0 < nodes0.len() && nodes0[i0] == parents[pt as int];
                    assert(seen.deep_view()[i0] == parents[pt as int]);
                }
                let pi: usize = match index_of_package(&seen, &entries[ei].1[pt]) {
                    Some(t) => t,
                    None => {
                        proof {
                            let i0 = choose|i0: int|
                                0 <= i0 < nodes0.len() && nodes0[i0] == parents[pt as int];
                            assert(seen.deep_view()[i0] != entries@[ei as int].1@[pt as int]@);
                            assert(false);
                        }
                        return Err(JmCoreError::new(String::new()));
                    },
                };
                // a pair laid down before is not laid twice; the existing
                // edge already serves this parent's dependency
                let duplicate = contains_edge_pair(&edge_list, pi, qi);
                if !duplicate {
                    if graph_edge_count(&graph) >= 0xffff_ffff {
                        return Err(JmCoreError::new(copy_str("Dependency graph is too large")));
                    }
                    let ghost edges_q = graph_edges(graph);
                    let ghost old_list = edge_list@;
                    graph_add_edge(&mut graph, pi, qi);
                    edge_list.push((pi, qi));
                    proof {
                        assert(graph_edges(graph) =~= edges_q.push((pi as int, qi as int)));
                        assert(edge_views(edge_list@) =~= edge_views(old_list).push(
                            (pi as int, qi as int),
                        )) by {
                            assert(edge_list@ =~= old_list.push((pi, qi)));
                            assert forall|k: int|
                                0 <= k < edge_list@.len() implies #[trigger] edge_views(
                                edge_list@,
                            )[k] == edge_views(old_list).push((pi as int, qi as int))[k] by {
                                if k < old_list.len() {
                                    assert(edge_list@[k] == old_list[k]);
                                }
                            }
                        }
                        assert(edges_distinct(graph_edges(graph))) by {
                            assert forall|k1: int, k2: int|
                                0 <= k1 < k2 < graph_edges(graph).len() implies graph_edges(
                                graph,
                            )[k1] != graph_edges(graph)[k2] by {
                                if k2 == edges_q.len() {
                                    assert(graph_edges(graph)[k1] == edges_q[k1]);
                                    if edges_q[k1] == (pi as int, qi as int) {
                                        assert(has_edge(edges_q, pi as int, qi as int));
                                    }
                                } else {
                                    assert(graph_edges(graph)[k1] == edges_q[k1]);
                                    assert(graph_edges(graph)[k2] == edges_q[k2]);
                                }
                            }
                        }
                        assert(edges_wf(seen.deep_view(), graph_edges(graph)));
                        assert(seen.deep_view()[pi as int] == parents[pt as int]);
                        assert(parents[pt as int].dependencies().contains(d)) by {
                            assert(entries.deep_view()[ei as int].1[pt as int]
                                == parents[pt as int]);
                        }
                        assert forall|k: int|
                            0 <= k < graph_edges(graph).len() implies edge_ok(
                            *old(resolver),
                            seen.deep_view(),
                            (#[trigger] graph_edges(graph)[k]).0,
                            graph_edges(graph)[k].1,
                        ) by {
                            if k < edges_q.len() {
                                assert(graph_edges(graph)[k] == edges_q[k]);
                                assert(edge_ok(
                                    *old(resolver),
                                    seen.deep_view(),
                                    edges_q[k].0,
                                    edges_q[k].1,
                                ));
                            } else {
                                assert(graph_edges(graph)[k] == (pi as int, qi as int));
                                assert(seen.deep_view()[pi as int].dependencies().contains(d)
                                    && old(resolver).resolves(d, seen.deep_view()[qi as int]));
                                assert(edge_ok(
                                    *old(resolver),
                                    seen.deep_view(),
                                    pi as int,
                                    qi as int,
                                ));
                            }
                        }
                        assert(seen.deep_view().no_duplicates());
                        assert(basev.is_prefix_of(seen.deep_view()));
                        assert(edges_sound(*old(resolver), seen.deep_view(), graph_edges(graph)));
                        assert(builder_inv(
                            *old(resolver),
                            basev,
                            seen.deep_view(),
                            graph_edges(graph),
                        ));
                        assert(edges_pre.is_prefix_of(graph_edges(graph))) by {
                            assert(edges_pre =~= graph_edges(graph).subrange(
                                0,
                                edges_pre.len() as int,
                            ));
                        }
                        assert(edges_q.is_prefix_of(graph_edges(graph))) by {
                            assert(edges_q =~= graph_edges(graph).subrange(
                                0,
                                edges_q.len() as int,
                            ));
                        }
                        assert forall|i: int|
                            basev.len() <= i < nodes_pre.len() implies #[trigger] edge_target(
                            graph_edges(graph),
                            i,
                        ) by {
                            lemma_edge_target_grows(edges_q, graph_edges(graph), i);
                        }
                        assert(has_edge(graph_edges(graph), pi as int, qi as int)) by {
                            assert(graph_edges(graph)[edges_q.len() as int] == (
                                pi as int,
                                qi as int,
                            ));
                        }
                        assert(edge_target(graph_edges(graph), qi as int)) by {
                            assert((#[trigger] graph_edges(graph)[edges_q.len() as int]).1
                                == qi as int);
                        }
                        assert forall|t: int, i: int|
                            #![trigger parents[t], seen.deep_view()[i]]
                            0 <= t < pt + 1 && 0 <= i < seen.deep_view().len()
                                && seen.deep_view()[i] == parents[t] implies dep_edged(
                            *old(resolver),
                            seen.deep_view(),
                            graph_edges(graph),
                            i,
                            d,
                        ) by {
                            if t < pt {
                                lemma_dep_edged_grows(
                                    *old(resolver),
                                    seen.deep_view(),
                                    edges_q,
                                    seen.deep_view(),
                                    graph_edges(graph),
                                    i,
                                    d,
                                );
                            } else {
                                assert(seen.deep_view().no_duplicates());
                                assert(seen.deep_view()[pi as int] == parents[t]);
                                assert(i == pi as int);
                                assert(dep_edged(
                                    *old(resolver),
                                    seen.deep_view(),
                                    graph_edges(graph),
                                    pi as int,
                                    d,
                                ));
                            }
                        }
                    }
                } else {
                    proof {
                        assert(has_edge(graph_edges(graph), pi as int, qi as int));
                        assert(seen.deep_view()[pi as int] == parents[pt as int]);
                        assert(edge_target(graph_edges(graph), qi as int)) by {
                            let k = choose|k: int|
                                0 <= k < graph_edges(graph).len() && #[trigger] graph_edges(
                                graph,
                            )[k] == (pi as int, qi as int);
                            assert((#[trigger] graph_edges(graph)[k]).1 == qi as int);
                        }
                        assert forall|t: int, i: int|
                            #![trigger parents[t], seen.deep_view()[i]]
                            0 <= t < pt + 1 && 0 <= i < seen.deep_view().len()
                                && seen.deep_view()[i] == parents[t] implies dep_edged(
                            *old(resolver),
                            seen.deep_view(),
                            graph_edges(graph),
                            i,
                            d,
                        ) by {
                            if t == pt {
                                assert(seen.deep_view().no_duplicates());
                                assert(seen.deep_view()[pi as int] == parents[t]);
                                assert(i == pi as int);
                                assert(dep_edged(
                                    *old(resolver),
                                    seen.deep_view(),
                                    graph_edges(graph),
                                    pi as int,
                                    d,
                                ));
                            }
                        }
                    }
                }
                pt = pt + 1;
            }
            proof {
                // the round's node, reused or fresh, is some edge's target
                assert(parents.len() > 0);
                assert(extras_edge_targeted(
                    basev.len() as int,
                    seen.deep_view().len() as int,
                    graph_edges(graph),
                )) by {
                    assert forall|i: int|
                        basev.len() <= i < seen.deep_view().len() implies #[trigger] edge_target(
                        graph_edges(graph),
                        i,
                    ) by {
                        if i >= nodes_pre.len() {
                            assert(i == qi as int);
                        }
                    }
                }
                // the whole entry is now edged, and earlier entries survive
                assert(entry_done(*old(resolver), seen.deep_view(), graph_edges(graph), d, parents));
                assert forall|k: int| 0 <= k < ei + 1 implies entry_done(
                    *old(resolver),
                    seen.deep_view(),
                    graph_edges(graph),
                    (#[trigger] entries.deep_view()[k]).0,
                    entries.deep_view()[k].1,
                ) by {
                    if k < ei {
                        let dk = entries.deep_view()[k].0;
                        let pk = entries.deep_view()[k].1;
                        assert forall|t: int, i: int|
                            #![trigger pk[t], seen.deep_view()[i]]
                            0 <= t < pk.len() && 0 <= i < seen.deep_view().len()
                                && seen.deep_view()[i] == pk[t] implies dep_edged(
                            *old(resolver),
                            seen.deep_view(),
                            graph_edges(graph),
                            i,
                            dk,
                        ) by {
                            assert(fr.contains(pk[t]));
                            assert(nodes0.contains(pk[t]));
                            let i0 = choose|i0: int|
                                0 <= i0 < nodes0.len() && nodes0[i0] == pk[t];
                            assert(seen.deep_view()[i0] == pk[t]);
                            assert(seen.deep_view().no_duplicates());
                            assert(i == i0);
                            assert(i0 < nodes_pre.len());
                            assert(nodes_pre[i0] == pk[t]);
                            assert(dep_edged(*old(resolver), nodes_pre, edges_pre, i0, dk));
                            lemma_dep_edged_grows(
                                *old(resolver),
                                nodes_pre,
                                edges_pre,
                                seen.deep_view(),
                                graph_edges(graph),
                                i0,
                                dk,
                            );
                        }
                    }
                }
                // nodes outside the frontier stay done
                assert forall|i: int|
                    0 <= i < nodes0.len() && !fr.contains(nodes0[i]) implies #[trigger] node_done(
                    *old(resolver),
                    seen.deep_view(),
                    graph_edges(graph),
                    i,
                ) by {
                    assert(node_done(*old(resolver), nodes_pre, edges_pre, i));
                    assert(seen.deep_view()[i] == nodes_pre[i]);
                    assert forall|l: int|
                        0 <= l < seen.deep_view()[i].dependencies().len() implies dep_edged(
                        *old(resolver),
                        seen.deep_view(),
                        graph_edges(graph),
                        i,
                        #[trigger] seen.deep_view()[i].dependencies()[l],
                    ) by {
                        assert(dep_edged(
                            *old(resolver),
                            nodes_pre,
                            edges_pre,
                            i,
                            nodes_pre[i].dependencies()[l],
                        ));
                        lemma_dep_edged_grows(
                            *old(resolver),
                            nodes_pre,
                            edges_pre,
                            seen.deep_view(),
                            graph_edges(graph),
                            i,
                            nodes_pre[i].dependencies()[l],
                        );
                    }
                }
            }
            ei = ei + 1;
        }
        // the frontier is fully processed: its nodes are done, and the next
        // frontier is exactly the packages first seen this round
        proof {
            assert forall|i: int|
                0 <= i < seen.deep_view().len() && !new_frontier.deep_view().contains(
                    seen.deep_view()[i],
                ) implies #[trigger] node_done(
                *old(resolver),
                seen.deep_view(),
                graph_edges(graph),
                i,
            ) by {
                if i < nodes0.len() {
                    if fr.contains(nodes0[i]) {
                        let k0 = choose|k0: int| 0 <= k0 < fr.len() && fr[k0] == nodes0[i];
                        assert forall|l: int|
                            0 <= l < seen.deep_view()[i].dependencies().len() implies dep_edged(
                            *old(resolver),
                            seen.deep_view(),
                            graph_edges(graph),
                            i,
                            #[trigger] seen.deep_view()[i].dependencies()[l],
                        ) by {
                            assert(pair_before(k0, l, fr.len() as int, 0));
                            assert(seen.deep_view()[i] == nodes0[i]);
                            assert(fr[k0].dependencies()[l]
                                == seen.deep_view()[i].dependencies()[l]);
                            assert(entry_covers(
                                entries.deep_view(),
                                fr[k0].dependencies()[l],
                                fr[k0],
                            ));
                            let k2 = choose|k2: int|
                                0 <= k2 < entries.deep_view().len() && (
                                #[trigger] entries.deep_view()[k2]).0 == fr[k0].dependencies()[l]
                                    && entries.deep_view()[k2].1.contains(fr[k0]);
                            let t2 = choose|t2: int|
                                0 <= t2 < entries.deep_view()[k2].1.len()
                                    && entries.deep_view()[k2].1[t2] == fr[k0];
                            assert(entry_done(
                                *old(resolver),
                                seen.deep_view(),
                                graph_edges(graph),
                                entries.deep_view()[k2].0,
                                entries.deep_view()[k2].1,
                            ));
                            assert(seen.deep_view()[i] == entries.deep_view()[k2].1[t2]);
                        }
                    }
                } else {
                    assert(seen.deep_view()[i] == new_frontier.deep_view()[i - nodes0.len()]);
                    assert(new_frontier.deep_view().contains(seen.deep_view()[i]));
                    assert(false);
                }
            }
        }
        let ghost new_fr = new_frontier.deep_view();
        frontier = new_frontier;
        proof {
            assert forall|k: int|
                0 <= k < frontier.deep_view().len() implies seen.deep_view().contains(
                #[trigger] frontier.deep_view()[k],
            ) by {
                assert(seen.deep_view()[nodes0.len() + k] == new_fr[k]);
            }
            if new_fr.len() == 0 {
                assert(seen.deep_view() =~= nodes0);
            } else {
                assert(seen.deep_view().len() > nodes0.len());
            }
        }
    }
    proof {
        assert forall|i: int| 0 <= i < seen.deep_view().len() implies #[trigger] node_done(
            *old(resolver),
            seen.deep_view(),
            graph_edges(graph),
            i,
        ) by {
            assert(frontier.deep_view().len() == 0);
            assert(!frontier.deep_view().contains(seen.deep_view()[i]));
        }
        assert(graph_complete(*old(resolver), seen.deep_view(), graph_edges(graph)));
        assert(nodes_distinct(seen.deep_view()));
    }
    Ok((starting, graph))
}

} // verus!
