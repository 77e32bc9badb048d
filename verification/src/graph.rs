//! The `#include` dependency graph: which file includes which, whether the
//! inclusions form a cycle, and an order in which dependencies come first.

use vstd::prelude::*;
use crate::text::{arrow_joined, join_arrows, str_eq, strings_view};

verus! {

// ── Graphs as values ────────────────────────────────────────────────────────

/// Consecutive nodes of `p` are joined by edges.
pub open spec fn is_walk(edges: Seq<(int, int)>, p: Seq<int>) -> bool {
    forall|i: int| 0 <= i < p.len() - 1 ==> edges.contains((#[trigger] p[i], p[i + 1]))
}

/// There is a walk of at least one edge from `a` to `b`.
pub open spec fn reaches(edges: Seq<(int, int)>, a: int, b: int) -> bool {
    exists|p: Seq<int>| #[trigger] is_walk(edges, p) && p.len() >= 2 && p[0] == a && p.last() == b
}

/// Some node of `0..n` reaches itself.
pub open spec fn has_cycle(edges: Seq<(int, int)>, n: int) -> bool {
    exists|v: int| 0 <= v < n && #[trigger] reaches(edges, v, v)
}

/// Node `v` is listed in one of `comps`.
pub open spec fn in_some_component(comps: Seq<Seq<int>>, v: int) -> bool {
    exists|c: int, k: int| 0 <= c < comps.len() && 0 <= k < comps[c].len() && #[trigger] comps[c][k] == v
}

/// `comps` splits the nodes `0..n` into strongly connected components, each
/// the largest set of nodes that reach one another, listed so that a
/// component comes after every component it has an edge into.
#[verifier::opaque]
pub open spec fn is_scc_decomposition(comps: Seq<Seq<int>>, n: int, edges: Seq<(int, int)>) -> bool {
    &&& forall|c: int, k: int|
        0 <= c < comps.len() && 0 <= k < comps[c].len() ==> 0 <= #[trigger] comps[c][k] < n
    &&& forall|v: int| 0 <= v < n ==> #[trigger] in_some_component(comps, v)
    &&& forall|c1: int, k1: int, c2: int, k2: int|
        0 <= c1 < comps.len() && 0 <= k1 < comps[c1].len() && 0 <= c2 < comps.len() && 0 <= k2
            < comps[c2].len() && #[trigger] comps[c1][k1] == #[trigger] comps[c2][k2] ==> c1 == c2
            && k1 == k2
    &&& forall|c: int, k1: int, k2: int|
        0 <= c < comps.len() && 0 <= k1 < comps[c].len() && 0 <= k2 < comps[c].len() && k1 != k2
            ==> reaches(edges, #[trigger] comps[c][k1], #[trigger] comps[c][k2])
    &&& forall|c1: int, k1: int, c2: int, k2: int|
        0 <= c1 < comps.len() && 0 <= k1 < comps[c1].len() && 0 <= c2 < comps.len() && 0 <= k2
            < comps[c2].len() && reaches(edges, #[trigger] comps[c1][k1], #[trigger] comps[c2][k2])
            && reaches(edges, comps[c2][k2], comps[c1][k1]) ==> c1 == c2
    &&& forall|c1: int, k1: int, c2: int, k2: int|
        0 <= c1 < comps.len() && 0 <= k1 < comps[c1].len() && 0 <= c2 < comps.len() && 0 <= k2
            < comps[c2].len() && c1 != c2 && edges.contains((#[trigger] comps[c1][k1], #[trigger] comps[c2][k2]))
            ==> c2 < c1
}

/// `order` lists each node of `0..n` once, every node before its successors.
pub open spec fn is_topological_order(order: Seq<int>, n: int, edges: Seq<(int, int)>) -> bool {
    &&& order.len() == n
    &&& forall|i: int| 0 <= i < order.len() ==> 0 <= #[trigger] order[i] < n
    &&& forall|i: int, j: int| 0 <= i < j < order.len() ==> #[trigger] order[i] != #[trigger] order[j]
    &&& forall|v: int| 0 <= v < n ==> #[trigger] order.contains(v)
    &&& forall|i: int, j: int|
        0 <= i < order.len() && 0 <= j < order.len() && edges.contains((#[trigger] order[i], #[trigger] order[j]))
            ==> i < j
}

// ── petgraph ────────────────────────────────────────────────────────────────

#[verifier::external_type_specification]
#[verifier::external_body]
#[verifier::reject_recursive_types(N)]
#[verifier::reject_recursive_types(E)]
#[verifier::reject_recursive_types(Ty)]
#[verifier::reject_recursive_types(Ix)]
pub struct ExPetGraph<N, E, Ty, Ix>(petgraph::graph::Graph<N, E, Ty, Ix>);

#[verifier::external_type_specification]
#[verifier::external_body]
pub struct ExPetDirected(petgraph::Directed);

/// The node weights of a graph, in index order.
pub uninterp spec fn pet_nodes(g: petgraph::graph::Graph<String, (), petgraph::Directed, u32>) -> Seq<Seq<char>>;

/// The edges of a graph, as pairs of node indices, in the order they were added.
pub uninterp spec fn pet_edges(g: petgraph::graph::Graph<String, (), petgraph::Directed, u32>) -> Seq<(int, int)>;

/// An empty directed graph (`petgraph::graph::Graph::new`).
#[verifier::external_body]
fn pet_new() -> (g: petgraph::graph::Graph<String, (), petgraph::Directed, u32>)
    ensures
        pet_nodes(g) == Seq::<Seq<char>>::empty(),
        pet_edges(g) == Seq::<(int, int)>::empty(),
{
    petgraph::graph::Graph::new()
}

/// Adds a node (`petgraph::graph::Graph::add_node`); its index is the
/// number of nodes before. Panics when the index type is full, which the
/// `requires` rules out.
#[verifier::external_body]
fn pet_add_node(g: &mut petgraph::graph::Graph<String, (), petgraph::Directed, u32>, weight: String) -> (i: usize)
    requires
        pet_nodes(*old(g)).len() < u32::MAX,
    ensures
        pet_nodes(*final(g)) == pet_nodes(*old(g)).push(weight@),
        pet_edges(*final(g)) == pet_edges(*old(g)),
        i == pet_nodes(*old(g)).len(),
{
    g.add_node(weight).index()
}

/// Adds an edge from `a` to `b` (`petgraph::graph::Graph::add_edge`).
/// Panics when a node does not exist or the index type is full, which the
/// `requires` rules out.
#[verifier::external_body]
fn pet_add_edge(g: &mut petgraph::graph::Graph<String, (), petgraph::Directed, u32>, a: usize, b: usize)
    requires
        a < pet_nodes(*old(g)).len(),
        b < pet_nodes(*old(g)).len(),
        pet_edges(*old(g)).len() < u32::MAX,
    ensures
        pet_nodes(*final(g)) == pet_nodes(*old(g)),
        pet_edges(*final(g)) == pet_edges(*old(g)).push((a as int, b as int)),
{
    g.add_edge(petgraph::graph::NodeIndex::new(a), petgraph::graph::NodeIndex::new(b), ());
}

/// Whether there is an edge from `a` to `b` (`petgraph::graph::Graph::contains_edge`).
#[verifier::external_body]
fn pet_contains_edge(g: &petgraph::graph::Graph<String, (), petgraph::Directed, u32>, a: usize, b: usize) -> (r: bool)
    requires
        a < pet_nodes(*g).len(),
        b < pet_nodes(*g).len(),
    ensures
        r == pet_edges(*g).contains((a as int, b as int)),
{
    g.contains_edge(petgraph::graph::NodeIndex::new(a), petgraph::graph::NodeIndex::new(b))
}

/// A copy of the weight of node `i` (indexing a `petgraph::graph::Graph`).
#[verifier::external_body]
fn pet_node_weight(g: &petgraph::graph::Graph<String, (), petgraph::Directed, u32>, i: usize) -> (r: String)
    requires
        i < pet_nodes(*g).len(),
    ensures
        r@ == pet_nodes(*g)[i as int],
{
    g[petgraph::graph::NodeIndex::new(i)].clone()
}

/// The strongly connected components (`petgraph::algo::tarjan_scc`), as
/// node indices: each element is a component, in reverse topological order.
#[verifier::external_body]
fn pet_tarjan_scc(g: &petgraph::graph::Graph<String, (), petgraph::Directed, u32>) -> (r: Vec<Vec<usize>>)
    ensures
        is_scc_decomposition(
            r@.map_values(|c: Vec<usize>| c@.map_values(|v: usize| v as int)),
            pet_nodes(*g).len() as int,
            pet_edges(*g),
        ),
{
    petgraph::algo::tarjan_scc(g).into_iter().map(|c| c.into_iter().map(|v| v.index()).collect()).collect()
}

/// A topological order of the nodes (`petgraph::algo::toposort`), or
/// `Err` when the graph has a cycle (a self loop counts).
#[verifier::external_body]
fn pet_toposort(g: &petgraph::graph::Graph<String, (), petgraph::Directed, u32>) -> (r: Result<Vec<usize>, ()>)
    ensures
        match r {
            Ok(order) => is_topological_order(
                order@.map_values(|v: usize| v as int),
                pet_nodes(*g).len() as int,
                pet_edges(*g),
            ),
            Err(_) => has_cycle(pet_edges(*g), pet_nodes(*g).len() as int),
        },
{
    match petgraph::algo::toposort(g, None) {
        Ok(order) => Ok(order.into_iter().map(|v| v.index()).collect()),
        Err(_) => Err(()),
    }
}

// ── Walk lemmas ─────────────────────────────────────────────────────────────

#[verifier::spinoff_prover]
proof fn lemma_reaches_trans(edges: Seq<(int, int)>, a: int, b: int, c: int)
    requires
        reaches(edges, a, b),
        reaches(edges, b, c),
    ensures
        reaches(edges, a, c),
{
    let p1 = choose|p: Seq<int>| #[trigger] is_walk(edges, p) && p.len() >= 2 && p[0] == a && p.last() == b;
    let p2 = choose|p: Seq<int>| #[trigger] is_walk(edges, p) && p.len() >= 2 && p[0] == b && p.last() == c;
    let p = p1 + p2.drop_first();
    assert forall|i: int| 0 <= i < p.len() - 1 implies edges.contains((#[trigger] p[i], p[i + 1])) by {
        if i < p1.len() - 1 {
            assert(p[i] == p1[i] && p[i + 1] == p1[i + 1]);
        } else if i == p1.len() - 1 {
            assert(p[i] == p1.last() && p[i + 1] == p2[1]);
            assert(edges.contains((p2[0], p2[1])));
        } else {
            let j = i - p1.len() + 1;
            assert(p[i] == p2[j] && p[i + 1] == p2[j + 1]);
            assert(edges.contains((p2[j], p2[j + 1])));
        }
    }
    assert(is_walk(edges, p));
}

proof fn lemma_edge_reaches(edges: Seq<(int, int)>, a: int, b: int)
    requires
        edges.contains((a, b)),
    ensures
        reaches(edges, a, b),
{
    let p = seq![a, b];
    assert forall|i: int| 0 <= i < p.len() - 1 implies edges.contains((#[trigger] p[i], p[i + 1])) by {
        assert(i == 0);
    }
    assert(is_walk(edges, p));
}

/// A node on a cycle either has a self loop or reaches, and is reached
/// from, a different node.
proof fn lemma_cycle_witness(edges: Seq<(int, int)>, v: int)
    requires
        reaches(edges, v, v),
    ensures
        edges.contains((v, v)) || exists|w: int|
            w != v && edges.contains((v, w)) && #[trigger] reaches(edges, v, w) && reaches(edges, w, v),
{
    let p = choose|p: Seq<int>| #[trigger] is_walk(edges, p) && p.len() >= 2 && p[0] == v && p.last() == v;
    let w = p[1];
    assert(edges.contains((p[0], p[1])));
    if w != v {
        lemma_edge_reaches(edges, v, w);
        let q = p.subrange(1, p.len() as int);
        assert(q.len() >= 2);
        assert forall|i: int| 0 <= i < q.len() - 1 implies edges.contains((#[trigger] q[i], q[i + 1])) by {
            assert(q[i] == p[i + 1] && q[i + 1] == p[i + 2]);
            assert(edges.contains((p[i + 1], p[i + 2])));
        }
        assert(is_walk(edges, q));
        assert(reaches(edges, w, v));
    }
}

proof fn lemma_push_contains(s: Seq<Seq<char>>, x: Seq<char>)
    ensures
        forall|p: Seq<char>| #[trigger] s.push(x).contains(p) <==> (s.contains(p) || p == x),
{
    assert forall|p: Seq<char>| #[trigger] s.push(x).contains(p) <==> (s.contains(p) || p == x) by {
        if s.contains(p) {
            let k = choose|k: int| 0 <= k < s.len() && s[k] == p;
            assert(s.push(x)[k] == p);
        }
        if p == x {
            assert(s.push(x)[s.len() as int] == p);
        }
        if s.push(x).contains(p) {
            let k = choose|k: int| 0 <= k < s.push(x).len() && s.push(x)[k] == p;
            if k < s.len() {
                assert(s[k] == p);
            }
        }
    }
}

/// Component `c` holds a cycle: it has several nodes, or one with a self loop.
pub open spec fn component_has_cycle(comps: Seq<Seq<int>>, c: int, edges: Seq<(int, int)>) -> bool {
    comps[c].len() > 1 || (comps[c].len() == 1 && edges.contains((comps[c][0], comps[c][0])))
}

proof fn lemma_component_cycle_members(comps: Seq<Seq<int>>, n: int, edges: Seq<(int, int)>, c: int, k: int)
    requires
        is_scc_decomposition(comps, n, edges),
        0 <= c < comps.len(),
        0 <= k < comps[c].len(),
        component_has_cycle(comps, c, edges),
    ensures
        reaches(edges, comps[c][k], comps[c][k]),
{
    reveal(is_scc_decomposition);
    if comps[c].len() > 1 {
        let k2 = if k == 0 { 1int } else { 0int };
        assert(reaches(edges, comps[c][k], comps[c][k2]));
        assert(reaches(edges, comps[c][k2], comps[c][k]));
        lemma_reaches_trans(edges, comps[c][k], comps[c][k2], comps[c][k]);
    } else {
        assert(k == 0);
        lemma_edge_reaches(edges, comps[c][0], comps[c][0]);
    }
}

proof fn lemma_cycle_in_some_component(comps: Seq<Seq<int>>, n: int, edges: Seq<(int, int)>)
    requires
        is_scc_decomposition(comps, n, edges),
        has_cycle(edges, n),
        forall|e: int| 0 <= e < edges.len() ==> 0 <= (#[trigger] edges[e]).0 < n && 0 <= edges[e].1 < n,
    ensures
        exists|c: int| 0 <= c < comps.len() && #[trigger] component_has_cycle(comps, c, edges),
{
    reveal(is_scc_decomposition);
    let v = choose|v: int| 0 <= v < n && #[trigger] reaches(edges, v, v);
    assert(in_some_component(comps, v));
    let (c, k) = choose|c: int, k: int| 0 <= c < comps.len() && 0 <= k < comps[c].len() && #[trigger] comps[c][k] == v;
    lemma_cycle_witness(edges, v);
    if edges.contains((v, v)) {
        if comps[c].len() == 1 {
            assert(k == 0);
        }
        assert(component_has_cycle(comps, c, edges));
    } else {
        let w = choose|w: int| w != v && edges.contains((v, w)) && #[trigger] reaches(edges, v, w) && reaches(edges, w, v);
        let e = choose|e: int| 0 <= e < edges.len() && edges[e] == (v, w);
        assert(0 <= w < n);
        assert(in_some_component(comps, w));
        let (c2, k2) = choose|c2: int, k2: int| 0 <= c2 < comps.len() && 0 <= k2 < comps[c2].len() && #[trigger] comps[c2][k2] == w;
        assert(c2 == c);
        assert(k2 != k);
        assert(component_has_cycle(comps, c, edges));
    }
}

proof fn lemma_component_member_mutual(comps: Seq<Seq<int>>, n: int, edges: Seq<(int, int)>, c: int, j: int)
    requires
        is_scc_decomposition(comps, n, edges),
        0 <= c < comps.len(),
        0 <= j < comps[c].len(),
        component_has_cycle(comps, c, edges),
    ensures
        reaches(edges, comps[c][0], comps[c][j]),
        reaches(edges, comps[c][j], comps[c][0]),
{
    reveal(is_scc_decomposition);
    if j == 0 {
        lemma_component_cycle_members(comps, n, edges, c, 0);
    } else {
        assert(reaches(edges, comps[c][0], comps[c][j]));
        assert(reaches(edges, comps[c][j], comps[c][0]));
    }
}

proof fn lemma_component_pair_reaches(comps: Seq<Seq<int>>, n: int, edges: Seq<(int, int)>, c: int, a: int, b: int)
    requires
        is_scc_decomposition(comps, n, edges),
        0 <= c < comps.len(),
        0 <= a < comps[c].len(),
        0 <= b < comps[c].len(),
        component_has_cycle(comps, c, edges),
    ensures
        reaches(edges, comps[c][a], comps[c][b]),
{
    if a == b {
        lemma_component_cycle_members(comps, n, edges, c, a);
    } else {
        reveal(is_scc_decomposition);
    }
}

proof fn lemma_mutual_in_component(comps: Seq<Seq<int>>, n: int, edges: Seq<(int, int)>, c: int, k: int)
    requires
        is_scc_decomposition(comps, n, edges),
        0 <= c < comps.len(),
        comps[c].len() > 0,
        0 <= k < n,
        reaches(edges, comps[c][0], k),
        reaches(edges, k, comps[c][0]),
    ensures
        exists|j: int| 0 <= j < comps[c].len() && comps[c][j] == k,
{
    reveal(is_scc_decomposition);
    assert(in_some_component(comps, k));
    let (c2, k2) = choose|c2: int, k2: int|
        0 <= c2 < comps.len() && 0 <= k2 < comps[c2].len() && #[trigger] comps[c2][k2] == k;
    assert(reaches(edges, comps[c][0], comps[c2][k2]) && reaches(edges, comps[c2][k2], comps[c][0]));
    assert(c2 == c);
}

proof fn lemma_component_entries(comps: Seq<Seq<int>>, n: int, edges: Seq<(int, int)>, c: int)
    requires
        is_scc_decomposition(comps, n, edges),
        0 <= c < comps.len(),
    ensures
        forall|j: int| 0 <= j < comps[c].len() ==> 0 <= #[trigger] comps[c][j] < n,
        forall|a: int, b: int|
            0 <= a < comps[c].len() && 0 <= b < comps[c].len() && a != b ==> #[trigger] comps[c][a]
                != #[trigger] comps[c][b],
{
    reveal(is_scc_decomposition);
}

/// The names of a component with a cycle are that component's files.
proof fn lemma_component_names(g: GraphView, comps: Seq<Seq<int>>, c: int, names: Seq<Seq<char>>)
    requires
        is_scc_decomposition(comps, g.nodes.len() as int, g.edges),
        0 <= c < comps.len(),
        component_has_cycle(comps, c, g.edges),
        names.len() == comps[c].len(),
        forall|j: int| 0 <= j < names.len() ==> #[trigger] names[j] == g.nodes[comps[c][j]],
        forall|i: int, j: int| 0 <= i < j < g.nodes.len() ==> #[trigger] g.nodes[i] != #[trigger] g.nodes[j],
    ensures
        is_cycle_component(names, g),
{
    reveal(is_cycle_component);
    let n = g.nodes.len() as int;
    let edges = g.edges;
    lemma_component_entries(comps, n, edges, c);
    assert(comps[c].len() > 0);
    let v = comps[c][0];
    assert(0 <= v < n);
    assert(reaches(edges, v, v)) by {
        lemma_component_cycle_members(comps, n, edges, c, 0);
    }
    assert forall|a: int, b: int| 0 <= a < names.len() && 0 <= b < names.len() && a != b implies names[a]
        != names[b] by {
        assert(comps[c][a] != comps[c][b]);
        assert(0 <= comps[c][a] < n && 0 <= comps[c][b] < n);
        if comps[c][a] < comps[c][b] {
            assert(g.nodes[comps[c][a]] != g.nodes[comps[c][b]]);
        } else {
            assert(g.nodes[comps[c][b]] != g.nodes[comps[c][a]]);
        }
    }
    assert forall|k: int| 0 <= k < n implies (names.contains(#[trigger] g.nodes[k]) <==> reaches(edges, v, k)
        && reaches(edges, k, v)) by {
        if names.contains(g.nodes[k]) {
            let j = choose|j: int| 0 <= j < names.len() && names[j] == g.nodes[k];
            let w = comps[c][j];
            assert(0 <= w < n);
            if w != k {
                if w < k {
                    assert(g.nodes[w] != g.nodes[k]);
                } else {
                    assert(g.nodes[k] != g.nodes[w]);
                }
            }
            lemma_component_member_mutual(comps, n, edges, c, j);
        }
        if reaches(edges, v, k) && reaches(edges, k, v) {
            lemma_mutual_in_component(comps, n, edges, c, k);
            let j = choose|j: int| 0 <= j < comps[c].len() && comps[c][j] == k;
            assert(names[j] == g.nodes[k]);
        }
    }
    assert forall|i: int| 0 <= i < names.len() implies g.nodes.contains(#[trigger] names[i]) by {
        assert(0 <= comps[c][i] < n);
        assert(g.nodes[comps[c][i]] == names[i]);
    }
}

// ── The dependency graph ────────────────────────────────────────────────────

/// A dependency graph as values: file names by node index, and edges from
/// includer to includee.
pub struct GraphView {
    pub nodes: Seq<Seq<char>>,
    pub edges: Seq<(int, int)>,
}

/// Directed dependency graph for `#include` relationships.
///
/// Edge direction: includer to includee (the includer depends on the
/// includee). Expansion order is reverse topological order: dependencies
/// come first.
pub struct DependencyGraph {
    graph: petgraph::graph::Graph<String, (), petgraph::Directed, u32>,
    /// The file names, by node index.
    indices: Vec<String>,
}

/// The file `name` is a node of `g` that lies on a cycle.
pub open spec fn on_cycle(g: GraphView, name: Seq<char>) -> bool {
    exists|v: int| 0 <= v < g.nodes.len() && g.nodes[v] == name && #[trigger] reaches(g.edges, v, v)
}

/// `names` lists, once each, exactly the files of `g` that reach and are
/// reached by one file on a cycle: the strongly connected component of
/// that file.
#[verifier::opaque]
pub open spec fn is_cycle_component(names: Seq<Seq<char>>, g: GraphView) -> bool {
    &&& names.no_duplicates()
    &&& exists|v: int|
        0 <= v < g.nodes.len() && #[trigger] reaches(g.edges, v, v) && forall|k: int|
            0 <= k < g.nodes.len() ==> (names.contains(#[trigger] g.nodes[k]) <==> reaches(g.edges, v, k) && reaches(
                g.edges,
                k,
                v,
            ))
    &&& forall|i: int| 0 <= i < names.len() ==> g.nodes.contains(#[trigger] names[i])
}

/// `order` lists the files of `g` once each, every file after the files it includes.
pub open spec fn is_dependency_order(order: Seq<Seq<char>>, g: GraphView) -> bool {
    exists|idx: Seq<int>|
        #[trigger] is_topological_order(idx, g.nodes.len() as int, g.edges) && order == Seq::new(
            g.nodes.len(),
            |k: int| g.nodes[idx[g.nodes.len() - 1 - k]],
        )
}

/// An expansion order lists every file of the graph exactly as many times as
/// the graph has it, and every included file before each file that includes it.
pub proof fn lemma_dependencies_first(g: GraphView, order: Seq<Seq<char>>)
    requires
        is_dependency_order(order, g),
    ensures
        order.len() == g.nodes.len(),
        forall|v: int| 0 <= v < g.nodes.len() ==> order.contains(#[trigger] g.nodes[v]),
        forall|e: int|
            0 <= e < g.edges.len() && 0 <= (#[trigger] g.edges[e]).0 < g.nodes.len() && 0 <= g.edges[e].1
                < g.nodes.len() ==> exists|i: int, j: int|
                0 <= i < j < order.len() && #[trigger] order[i] == g.nodes[g.edges[e].1]
                    && #[trigger] order[j] == g.nodes[g.edges[e].0],
{
    let n = g.nodes.len() as int;
    let idx = choose|idx: Seq<int>|
        #[trigger] is_topological_order(idx, n, g.edges) && order == Seq::new(
            g.nodes.len(),
            |k: int| g.nodes[idx[g.nodes.len() - 1 - k]],
        );
    assert forall|v: int| 0 <= v < n implies order.contains(#[trigger] g.nodes[v]) by {
        assert(idx.contains(v));
        let p = choose|p: int| 0 <= p < idx.len() && idx[p] == v;
        assert(order[n - 1 - p] == g.nodes[v]);
    }
    assert forall|e: int|
        0 <= e < g.edges.len() && 0 <= (#[trigger] g.edges[e]).0 < n && 0 <= g.edges[e].1 < n
            implies exists|i: int, j: int|
            0 <= i < j < order.len() && #[trigger] order[i] == g.nodes[g.edges[e].1]
                && #[trigger] order[j] == g.nodes[g.edges[e].0] by {
        let (a, b) = g.edges[e];
        assert(idx.contains(a));
        assert(idx.contains(b));
        let p = choose|p: int| 0 <= p < idx.len() && idx[p] == a;
        let q = choose|q: int| 0 <= q < idx.len() && idx[q] == b;
        assert(g.edges.contains((idx[p], idx[q])));
        assert(p < q);
        assert(order[n - 1 - q] == g.nodes[b]);
        assert(order[n - 1 - p] == g.nodes[a]);
    }
}

/// `nodes` with `p` added at the end, unless it is there already.
pub open spec fn with_node(nodes: Seq<Seq<char>>, p: Seq<char>) -> Seq<Seq<char>> {
    if nodes.contains(p) {
        nodes
    } else {
        nodes.push(p)
    }
}

/// An expansion order of a graph with distinct file names names no file twice.
pub proof fn lemma_dependency_order_distinct(g: GraphView, order: Seq<Seq<char>>)
    requires
        is_dependency_order(order, g),
        g.nodes.no_duplicates(),
    ensures
        order.no_duplicates(),
{
    let n = g.nodes.len() as int;
    let idx = choose|idx: Seq<int>|
        #[trigger] is_topological_order(idx, n, g.edges) && order == Seq::new(
            g.nodes.len(),
            |k: int| g.nodes[idx[g.nodes.len() - 1 - k]],
        );
    assert forall|i: int, j: int| 0 <= i < order.len() && 0 <= j < order.len() && i != j implies order[i]
        != order[j] by {
        let a = n - 1 - i;
        let b = n - 1 - j;
        if a < b {
            assert(idx[a] != idx[b]);
        } else {
            assert(idx[b] != idx[a]);
        }
        assert(0 <= idx[a] < n && 0 <= idx[b] < n);
    }
}

/// File `a` reaches file `b` by a walk of at least one inclusion.
pub open spec fn reaches_named(g: GraphView, a: Seq<char>, b: Seq<char>) -> bool {
    exists|i: int, j: int|
        0 <= i < g.nodes.len() && 0 <= j < g.nodes.len() && g.nodes[i] == a && g.nodes[j] == b && #[trigger] reaches(
            g.edges,
            i,
            j,
        )
}

impl View for DependencyGraph {
    type V = GraphView;

    closed spec fn view(&self) -> GraphView {
        GraphView { nodes: pet_nodes(self.graph), edges: pet_edges(self.graph) }
    }
}

impl Default for DependencyGraph {
    fn default() -> (r: Self)
        ensures
            r.wf(),
            r@.nodes == Seq::<Seq<char>>::empty(),
            r@.edges == Seq::<(int, int)>::empty(),
    {
        Self::new()
    }
}

impl DependencyGraph {
    /// The graph's internal agreement: the name index mirrors the graph's
    /// nodes, no name occurs twice, and every edge joins existing nodes.
    pub closed spec fn wf(&self) -> bool {
        &&& strings_view(self.indices@) == pet_nodes(self.graph)
        &&& forall|i: int, j: int|
            0 <= i < j < pet_nodes(self.graph).len() ==> #[trigger] pet_nodes(self.graph)[i]
                != #[trigger] pet_nodes(self.graph)[j]
        &&& forall|e: int|
            0 <= e < pet_edges(self.graph).len() ==> 0 <= (#[trigger] pet_edges(self.graph)[e]).0
                < pet_nodes(self.graph).len() && 0 <= pet_edges(self.graph)[e].1 < pet_nodes(self.graph).len()
    }

    /// An empty graph.
    pub fn new() -> (r: Self)
        ensures
            r.wf(),
            r@.nodes == Seq::<Seq<char>>::empty(),
            r@.edges == Seq::<(int, int)>::empty(),
            r@.nodes.no_duplicates(),
    {
        let r = DependencyGraph { graph: pet_new(), indices: Vec::new() };
        assert(strings_view(r.indices@) =~= Seq::<Seq<char>>::empty());
        r
    }

    fn find(&self, path: &str) -> (r: Option<usize>)
        requires
            self.wf(),
        ensures
            match r {
                Some(i) => i < self@.nodes.len() && self@.nodes[i as int] == path@,
                None => !self@.nodes.contains(path@),
            },
    {
        let n = self.indices.len();
        let mut i: usize = 0;
        while i < n
            invariant
                self.wf(),
                n == self.indices@.len(),
                i <= n,
                forall|j: int| 0 <= j < i ==> self@.nodes[j] != path@,
            decreases n - i,
        {
            if str_eq(self.indices[i].as_str(), path) {
                return Some(i);
            }
            i = i + 1;
        }
        None
    }

    /// Ensure a file path exists as a node in the graph, returning its index.
    pub fn add_file(&mut self, path: &str) -> (r: usize)
        requires
            old(self).wf(),
            old(self)@.nodes.contains(path@) || old(self)@.nodes.len() < u32::MAX,
        ensures
            final(self).wf(),
            r < final(self)@.nodes.len(),
            final(self)@.nodes[r as int] == path@,
            final(self)@.edges == old(self)@.edges,
            old(self)@.nodes.contains(path@) ==> final(self)@ == old(self)@,
            !old(self)@.nodes.contains(path@) ==> final(self)@.nodes == old(self)@.nodes.push(path@),
            final(self)@.nodes == with_node(old(self)@.nodes, path@),
            final(self)@.nodes.no_duplicates(),
            forall|j: int| 0 <= j < final(self)@.nodes.len() && #[trigger] final(self)@.nodes[j] == path@ ==> j == r,
    {
        proof {
            self.lemma_no_duplicates();
        }
        match self.find(path) {
            Some(i) => i,
            None => {
                let ghost prev = self.indices@;
                let i = pet_add_node(&mut self.graph, String::from_str(path));
                self.indices.push(String::from_str(path));
                assert(strings_view(self.indices@) =~= strings_view(prev).push(path@));
                proof {
                    self.lemma_no_duplicates();
                }
                i
            },
        }
    }

    /// A graph's file names are distinct.
    pub proof fn lemma_no_duplicates(&self)
        requires
            self.wf(),
        ensures
            self@.nodes.no_duplicates(),
    {
        assert forall|i: int, j: int| 0 <= i < self@.nodes.len() && 0 <= j < self@.nodes.len() && i != j implies self@.nodes[i]
            != self@.nodes[j] by {
            if i < j {
                assert(pet_nodes(self.graph)[i] != pet_nodes(self.graph)[j]);
            } else {
                assert(pet_nodes(self.graph)[j] != pet_nodes(self.graph)[i]);
            }
        }
    }

    /// Every edge of a graph joins two of its files, so the ordering laws
    /// on edges hold of all of them.
    pub proof fn lemma_edges_in_range(&self)
        requires
            self.wf(),
        ensures
            forall|e: int|
                0 <= e < self@.edges.len() ==> 0 <= (#[trigger] self@.edges[e]).0 < self@.nodes.len() && 0
                    <= self@.edges[e].1 < self@.nodes.len(),
    {
        assert forall|e: int| 0 <= e < self@.edges.len() implies 0 <= (#[trigger] self@.edges[e]).0
            < self@.nodes.len() && 0 <= self@.edges[e].1 < self@.nodes.len() by {
            assert(self@.edges[e] == pet_edges(self.graph)[e]);
        }
    }

    /// Record that `from` depends on `to` (`from` includes `to`).
    pub fn add_dependency(&mut self, from: &str, to: &str)
        requires
            old(self).wf(),
            old(self)@.nodes.len() + 2 <= u32::MAX,
            old(self)@.edges.len() < u32::MAX,
        ensures
            final(self).wf(),
            final(self)@.nodes.contains(from@),
            final(self)@.nodes.contains(to@),
            forall|p: Seq<char>| #[trigger] final(self)@.nodes.contains(p) <==> (old(self)@.nodes.contains(p) || p == from@ || p == to@),
            old(self)@.nodes.is_prefix_of(final(self)@.nodes),
            final(self)@.nodes == with_node(with_node(old(self)@.nodes, from@), to@),
            final(self)@.nodes.no_duplicates(),
            exists|a: int, b: int|
                final(self)@.nodes[a] == from@ && final(self)@.nodes[b] == to@
                    && #[trigger] final(self)@.edges == old(self)@.edges.push((a, b)),
    {
        let ghost n0 = self@.nodes;
        let a = self.add_file(from);
        let ghost n1 = self@.nodes;
        let b = self.add_file(to);
        let ghost mid = self@;
        pet_add_edge(&mut self.graph, a, b);
        proof {
            assert(self@.edges == mid.edges.push((a as int, b as int)));
            lemma_push_contains(n0, from@);
            lemma_push_contains(n1, to@);
            assert(n0.is_prefix_of(n1));
            assert(n1.is_prefix_of(self@.nodes));
            assert(n0.is_prefix_of(self@.nodes));
            self.lemma_no_duplicates();
        }
    }

    fn has_self_loop(&self, node: usize) -> (r: bool)
        requires
            self.wf(),
            node < self@.nodes.len(),
        ensures
            r == self@.edges.contains((node as int, node as int)),
    {
        pet_contains_edge(&self.graph, node, node)
    }

    /// Check for cycles: the files of the first strongly connected
    /// component that holds a cycle, if any.
    pub fn detect_cycle(&self) -> (r: Option<Vec<String>>)
        requires
            self.wf(),
        ensures
            r is Some <==> has_cycle(self@.edges, self@.nodes.len() as int),
            r matches Some(c) ==> c@.len() > 0 && forall|i: int|
                0 <= i < c@.len() ==> on_cycle(self@, #[trigger] c@[i]@),
            r matches Some(c) ==> is_cycle_component(strings_view(c@), self@),
            r matches Some(c) ==> forall|i: int, j: int|
                0 <= i < c@.len() && 0 <= j < c@.len() ==> reaches_named(self@, #[trigger] c@[i]@, #[trigger] c@[j]@),
    {
        let sccs = pet_tarjan_scc(&self.graph);
        let ghost comps = sccs@.map_values(|c: Vec<usize>| c@.map_values(|v: usize| v as int));
        let ghost n = self@.nodes.len() as int;
        let ghost edges = self@.edges;
        let m = sccs.len();
        let mut i: usize = 0;
        while i < m
            invariant
                self.wf(),
                m == sccs@.len(),
                i <= m,
                n == self@.nodes.len(),
                edges == self@.edges,
                comps == sccs@.map_values(|c: Vec<usize>| c@.map_values(|v: usize| v as int)),
                is_scc_decomposition(comps, n, edges),
                forall|c: int| 0 <= c < i ==> !#[trigger] component_has_cycle(comps, c, edges),
            decreases m - i,
        {
            let scc = &sccs[i];
            assert(comps[i as int] == scc@.map_values(|v: usize| v as int));
            proof {
                lemma_component_entries(comps, n, edges, i as int);
            }
            let found = if scc.len() > 1 {
                true
            } else if scc.len() == 1 {
                assert(0 <= comps[i as int][0] < n);
                self.has_self_loop(scc[0])
            } else {
                false
            };
            if found {
                assert(component_has_cycle(comps, i as int, edges));
                let mut names: Vec<String> = Vec::new();
                let len = scc.len();
                let mut k: usize = 0;
                while k < len
                    invariant
                        self.wf(),
                        len == scc@.len(),
                        k <= len,
                        n == self@.nodes.len(),
                        0 <= i < comps.len(),
                        comps[i as int] == scc@.map_values(|v: usize| v as int),
                        forall|j: int| 0 <= j < comps[i as int].len() ==> 0 <= #[trigger] comps[i as int][j] < n,
                        names@.len() == k,
                        forall|j: int| 0 <= j < k ==> (#[trigger] names@[j])@ == self@.nodes[comps[i as int][j]],
                    decreases len - k,
                {
                    let v = scc[k];
                    assert(comps[i as int][k as int] == v as int);
                    let name = pet_node_weight(&self.graph, v);
                    let ghost before = names@;
                    names.push(name);
                    assert(names@[k as int] == name);
                    assert(forall|j: int| 0 <= j < k ==> names@[j] == before[j]);
                    k = k + 1;
                }
                proof {
                    let sv = strings_view(names@);
                    assert forall|j: int| 0 <= j < sv.len() implies #[trigger] sv[j] == self@.nodes[comps[i as int][j]] by {
                        assert(sv[j] == names@[j]@);
                    }
                    lemma_component_names(self@, comps, i as int, sv);
                    lemma_component_cycle_members(comps, n, edges, i as int, 0);
                    assert(reaches(edges, comps[i as int][0], comps[i as int][0]));
                    assert forall|a: int, b: int| 0 <= a < names@.len() && 0 <= b < names@.len() implies reaches_named(
                        self@,
                        #[trigger] names@[a]@,
                        #[trigger] names@[b]@,
                    ) by {
                        lemma_component_pair_reaches(comps, n, edges, i as int, a, b);
                        assert(0 <= comps[i as int][a] < n && 0 <= comps[i as int][b] < n);
                    }
                    assert forall|j: int| 0 <= j < names@.len() implies on_cycle(self@, #[trigger] names@[j]@) by {
                        lemma_component_cycle_members(comps, n, edges, i as int, j);
                        assert(names@[j]@ == self@.nodes[comps[i as int][j]]);
                    }
                }
                return Some(names);
            }
            i = i + 1;
        }
        proof {
            if has_cycle(edges, n) {
                lemma_cycle_in_some_component(comps, n, edges);
                let c = choose|c: int| 0 <= c < comps.len() && #[trigger] component_has_cycle(comps, c, edges);
                assert(!component_has_cycle(comps, c, edges));
            }
        }
        None
    }

    /// Return files in expansion order (dependencies first, dependents
    /// last), or the message naming a cycle when the graph has one.
    pub fn expansion_order(&self) -> (r: Result<Vec<String>, String>)
        requires
            self.wf(),
        ensures
            r is Ok <==> !has_cycle(self@.edges, self@.nodes.len() as int),
            r matches Ok(order) ==> is_dependency_order(strings_view(order@), self@),
            r matches Ok(order) ==> order@.len() == self@.nodes.len() && strings_view(order@).no_duplicates()
                && forall|v: int| 0 <= v < self@.nodes.len() ==> strings_view(order@).contains(#[trigger] self@.nodes[v]),
            r matches Err(m) ==> exists|c: Seq<Seq<char>>|
                c.len() > 0 && (forall|i: int| 0 <= i < c.len() ==> on_cycle(self@, #[trigger] c[i]))
                    && m@ == "circular dependency detected: "@ + #[trigger] arrow_joined(c),
    {
        if let Some(cycle) = self.detect_cycle() {
            let m = join_arrows("circular dependency detected: ", &cycle);
            proof {
                let c = strings_view(cycle@);
                assert forall|i: int| 0 <= i < c.len() implies on_cycle(self@, #[trigger] c[i]) by {
                    assert(c[i] == cycle@[i]@);
                }
            }
            return Err(m);
        }
        match pet_toposort(&self.graph) {
            Err(_) => {
                // A topological sort fails only on a cycle, and there is none.
                Err(String::new())
            },
            Ok(topo) => {
                let ghost idx = topo@.map_values(|v: usize| v as int);
                let ghost nodes = self@.nodes;
                let n = topo.len();
                let mut order: Vec<String> = Vec::new();
                let mut k: usize = 0;
                while k < n
                    invariant
                        self.wf(),
                        nodes == self@.nodes,
                        n == topo@.len(),
                        n == nodes.len(),
                        idx == topo@.map_values(|v: usize| v as int),
                        is_topological_order(idx, nodes.len() as int, self@.edges),
                        k <= n,
                        strings_view(order@) =~= Seq::new(k as nat, |j: int| nodes[idx[n - 1 - j]]),
                    decreases n - k,
                {
                    let v = topo[n - 1 - k];
                    assert(idx[n - 1 - k as int] == v as int);
                    let name = pet_node_weight(&self.graph, v);
                    let ghost before = order@;
                    order.push(name);
                    assert(strings_view(order@) =~= strings_view(before).push(name@));
                    k = k + 1;
                }
                assert(is_topological_order(idx, nodes.len() as int, self@.edges));
                proof {
                    self.lemma_no_duplicates();
                    lemma_dependency_order_distinct(self@, strings_view(order@));
                    lemma_dependencies_first(self@, strings_view(order@));
                }
                Ok(order)
            },
        }
    }
}

} // verus!
