//! The dependency graph: a directed acyclic graph of `petgraph` whose nodes
//! are numbered in insertion order and whose edges carry an [`Edge`] label.
//!
//! The graph itself lives in `petgraph`; what Verus knows of it is stated over
//! two names: [`graph_node_count`] and [`graph_edges`] (the edges in edge-index
//! order). Paths, reachability and cycles are defined over the edge sequence.
use petgraph::acyclic::Acyclic;
use petgraph::data::Build;
use petgraph::graph::{DiGraph, EdgeIndex, NodeIndex};
use petgraph::visit::EdgeRef;
use vstd::prelude::*;

verus! {

/// The label of an edge of the dependency graph.
#[derive(Clone, Copy, PartialEq, Eq, Structural, Debug)]
pub enum Edge {
    /// Import ---{edge}---> Export
    Imports,
    /// Export ---{edge}---> Local
    Exports,
}

/// An edge as seen by the specifications: source node, target node, label.
pub type EdgeTriple = (usize, usize, Edge);

/// An acyclic directed graph of `petgraph` (`Acyclic<DiGraph<(), Edge>>`).
#[verifier::external_body]
pub struct DependencyGraph {
    graph: Acyclic<DiGraph<(), Edge>>,
}

/// The edges of the graph, in edge-index order.
pub uninterp spec fn graph_edges(g: DependencyGraph) -> Seq<EdgeTriple>;

/// The number of nodes of the graph (nodes are numbered `0..count`).
pub uninterp spec fn graph_node_count(g: DependencyGraph) -> nat;

/// The largest node count and edge count that `petgraph`'s default `u32`
/// index type allows before its insertion methods panic.
pub open spec fn index_limit() -> nat {
    0xffff_fffe
}

/// `Acyclic::new`: an empty graph.
#[verifier::external_body]
pub fn graph_new() -> (g: DependencyGraph)
    ensures
        graph_node_count(g) == 0,
        graph_edges(g) == Seq::<EdgeTriple>::empty(),
{
    DependencyGraph { graph: Acyclic::new() }
}

/// `Acyclic::add_node` (through `petgraph::data::Build`): appends a node and
/// returns its index, the former node count; the edges are untouched.
#[verifier::external_body]
pub fn graph_add_node(g: &mut DependencyGraph) -> (n: usize)
    requires
        graph_node_count(*old(g)) < index_limit(),
    ensures
        n == graph_node_count(*old(g)),
        graph_node_count(*final(g)) == graph_node_count(*old(g)) + 1,
        graph_edges(*final(g)) == graph_edges(*old(g)),
{
    g.graph.add_node(()).index()
}

/// `Acyclic::try_add_edge`: adds the edge `a -> b` unless it would close a
/// cycle (including a self-loop), which is the case exactly when `a` is
/// reachable from `b`. Returns whether the edge was added; a new edge takes
/// the next edge index.
#[verifier::external_body]
pub fn graph_try_add_edge(g: &mut DependencyGraph, a: usize, b: usize, w: Edge) -> (added: bool)
    requires
        a < graph_node_count(*old(g)),
        b < graph_node_count(*old(g)),
        graph_edges(*old(g)).len() < index_limit(),
    ensures
        added == !reachable(graph_edges(*old(g)), b as int, a as int),
        graph_node_count(*final(g)) == graph_node_count(*old(g)),
        added ==> graph_edges(*final(g)) == graph_edges(*old(g)).push((a, b, w)),
        !added ==> graph_edges(*final(g)) == graph_edges(*old(g)),
{
    g.graph.try_add_edge(NodeIndex::new(a), NodeIndex::new(b), w).is_ok()
}

/// `Graph::edge_references` (through `Acyclic`): all edges in index order.
#[verifier::external_body]
pub fn graph_edge_list(g: &DependencyGraph) -> (edges: Vec<EdgeTriple>)
    ensures
        edges@ == graph_edges(*g),
{
    g.graph.edge_references().map(|e| (e.source().index(), e.target().index(), *e.weight())).collect()
}

/// `Graph::find_edge` (through `Acyclic`): the index of an edge `a -> b`, if
/// there is one.
#[verifier::external_body]
pub fn graph_find_edge(g: &DependencyGraph, a: usize, b: usize) -> (e: Option<usize>)
    requires
        a < graph_node_count(*g),
        b < graph_node_count(*g),
    ensures
        e matches Some(i) ==> i < graph_edges(*g).len() && graph_edges(*g)[i as int].0 == a
            && graph_edges(*g)[i as int].1 == b,
        e is None <==> !has_edge(graph_edges(*g), a as int, b as int),
{
    g.graph.find_edge(NodeIndex::new(a), NodeIndex::new(b)).map(|e| e.index())
}

/// `Acyclic::remove_edge`: removes edge `i`, which must exist; the last edge
/// takes its index. Returns the label of the removed edge.
#[verifier::external_body]
pub fn graph_remove_edge(g: &mut DependencyGraph, i: usize) -> (w: Option<Edge>)
    requires
        i < graph_edges(*old(g)).len(),
    ensures
        graph_node_count(*final(g)) == graph_node_count(*old(g)),
        w == Some(graph_edges(*old(g))[i as int].2),
        graph_edges(*final(g)) == graph_edges(*old(g)).update(
            i as int,
            graph_edges(*old(g)).last(),
        ).drop_last(),
{
    g.graph.remove_edge(EdgeIndex::new(i))
}

/// `Graph::neighbors_directed` (through `Acyclic`): the successors of `n`
/// (`outgoing`) or its predecessors (otherwise), in some order.
#[verifier::external_body]
pub fn graph_neighbors(g: &DependencyGraph, n: usize, outgoing: bool) -> (ns: Vec<usize>)
    requires
        n < graph_node_count(*g),
    ensures
        outgoing ==> forall|m: usize| ns@.contains(m) <==> has_edge(graph_edges(*g), n as int, m as int),
        !outgoing ==> forall|m: usize| ns@.contains(m) <==> has_edge(graph_edges(*g), m as int, n as int),
{
    let dir = if outgoing { petgraph::Direction::Outgoing } else { petgraph::Direction::Incoming };
    g.graph.neighbors_directed(NodeIndex::new(n), dir).map(|m| m.index()).collect()
}

/// There is an edge `a -> b`.
pub open spec fn has_edge(edges: Seq<EdgeTriple>, a: int, b: int) -> bool {
    exists|i: int| 0 <= i < edges.len() && edges[i].0 == a && edges[i].1 == b
}

/// Step `i` of `p` follows an edge.
pub open spec fn path_step(edges: Seq<EdgeTriple>, p: Seq<int>, i: int) -> bool {
    has_edge(edges, p[i], p[i + 1])
}

/// `p` is a non-empty walk along edges.
pub open spec fn is_path(edges: Seq<EdgeTriple>, p: Seq<int>) -> bool {
    &&& p.len() >= 1
    &&& forall|i: int| 0 <= i < p.len() - 1 ==> #[trigger] path_step(edges, p, i)
}

/// `b` can be reached from `a` (every node reaches itself).
pub open spec fn reachable(edges: Seq<EdgeTriple>, a: int, b: int) -> bool {
    exists|p: Seq<int>| #[trigger] is_path(edges, p) && p[0] == a && p.last() == b
}

/// Some walk of at least one edge returns to where it started.
pub open spec fn cyclic(edges: Seq<EdgeTriple>) -> bool {
    exists|p: Seq<int>| #[trigger] is_path(edges, p) && p.len() >= 2 && p[0] == p.last()
}

/// Every edge of `small` is an edge of `large` (as a pair of endpoints).
pub open spec fn edges_within(small: Seq<EdgeTriple>, large: Seq<EdgeTriple>) -> bool {
    forall|a: int, b: int| #[trigger] has_edge(small, a, b) ==> has_edge(large, a, b)
}

/// The one-node walk.
pub proof fn lemma_trivial_path(edges: Seq<EdgeTriple>, a: int)
    ensures
        is_path(edges, seq![a]),
        reachable(edges, a, a),
{
    let p = seq![a];
    assert(p.last() == a);
    assert(is_path(edges, p));
}

/// A walk extended by one edge.
pub proof fn lemma_path_push(edges: Seq<EdgeTriple>, p: Seq<int>, b: int)
    requires
        is_path(edges, p),
        has_edge(edges, p.last(), b),
    ensures
        is_path(edges, p.push(b)),
        p.push(b)[0] == p[0],
        p.push(b).last() == b,
{
    let q = p.push(b);
    assert forall|i: int| 0 <= i < q.len() - 1 implies #[trigger] path_step(edges, q, i) by {
        if i < p.len() - 1 {
            assert(path_step(edges, p, i));
        } else {
            assert(q[i] == p.last());
        }
    }
}

/// Two walks joined where the first ends and the second starts.
pub proof fn lemma_path_concat(edges: Seq<EdgeTriple>, p: Seq<int>, q: Seq<int>)
    requires
        is_path(edges, p),
        is_path(edges, q),
        p.last() == q[0],
    ensures
        is_path(edges, p + q.drop_first()),
        (p + q.drop_first())[0] == p[0],
        (p + q.drop_first()).last() == q.last(),
    decreases q.len(),
{
    if q.len() == 1 {
        assert(p + q.drop_first() =~= p);
    } else {
        let q0 = q.drop_last();
        assert(is_path(edges, q0)) by {
            assert forall|i: int| 0 <= i < q0.len() - 1 implies #[trigger] path_step(edges, q0, i) by {
                assert(path_step(edges, q, i));
            }
        }
        lemma_path_concat(edges, p, q0);
        let r = p + q0.drop_first();
        assert(path_step(edges, q, q.len() - 2));
        lemma_path_push(edges, r, q.last());
        assert(r.push(q.last()) =~= p + q.drop_first());
    }
}

/// Reachability is transitive.
pub proof fn lemma_reachable_trans(edges: Seq<EdgeTriple>, a: int, b: int, c: int)
    requires
        reachable(edges, a, b),
        reachable(edges, b, c),
    ensures
        reachable(edges, a, c),
{
    let p = choose|p: Seq<int>| #[trigger] is_path(edges, p) && p[0] == a && p.last() == b;
    let q = choose|q: Seq<int>| #[trigger] is_path(edges, q) && q[0] == b && q.last() == c;
    lemma_path_concat(edges, p, q);
}

/// A walk of a graph is a walk of any graph with at least its edges.
pub proof fn lemma_path_within(small: Seq<EdgeTriple>, large: Seq<EdgeTriple>, p: Seq<int>)
    requires
        edges_within(small, large),
        is_path(small, p),
    ensures
        is_path(large, p),
{
    assert forall|i: int| 0 <= i < p.len() - 1 implies #[trigger] path_step(large, p, i) by {
        assert(path_step(small, p, i));
    }
}

/// A graph with no more edges than an acyclic graph is acyclic.
pub proof fn lemma_acyclic_within(small: Seq<EdgeTriple>, large: Seq<EdgeTriple>)
    requires
        edges_within(small, large),
        !cyclic(large),
    ensures
        !cyclic(small),
{
    if cyclic(small) {
        let p = choose|p: Seq<int>| #[trigger] is_path(small, p) && p.len() >= 2 && p[0] == p.last();
        lemma_path_within(small, large, p);
    }
}

/// A walk of a graph with one more edge `a -> b` is either a walk of the
/// graph without it, or it passes through that edge: it reaches `a` and
/// continues from `b`.
proof fn lemma_walk_with_new_edge(edges: Seq<EdgeTriple>, e: EdgeTriple, p: Seq<int>)
    requires
        is_path(edges.push(e), p),
    ensures
        is_path(edges, p) || (reachable(edges, p[0], e.0 as int) && reachable(
            edges,
            e.1 as int,
            p.last(),
        )),
    decreases p.len(),
{
    let big = edges.push(e);
    if p.len() == 1 {
        assert forall|i: int| 0 <= i < p.len() - 1 implies #[trigger] path_step(edges, p, i) by {}
    } else {
        let q = p.drop_last();
        assert(is_path(big, q)) by {
            assert forall|i: int| 0 <= i < q.len() - 1 implies #[trigger] path_step(big, q, i) by {
                assert(path_step(big, p, i));
            }
        }
        lemma_walk_with_new_edge(edges, e, q);
        assert(path_step(big, p, p.len() - 2));
        let x = q.last();
        let y = p.last();
        assert(p =~= q.push(y));
        let k = choose|k: int| 0 <= k < big.len() && big[k].0 == x && big[k].1 == y;
        let old_step = k < edges.len();
        if old_step {
            assert(has_edge(edges, x, y)) by {
                assert(edges[k] == big[k]);
            }
        }
        if is_path(edges, q) {
            if old_step {
                lemma_path_push(edges, q, y);
            } else {
                assert(big[k] == e);
                assert(reachable(edges, p[0], e.0 as int)) by {
                    assert(q[0] == p[0]);
                }
                lemma_trivial_path(edges, y);
            }
        } else {
            assert(q[0] == p[0]);
            if old_step {
                let r = choose|r: Seq<int>| #[trigger]
                    is_path(edges, r) && r[0] == e.1 as int && r.last() == x;
                lemma_path_push(edges, r, y);
            } else {
                assert(big[k] == e);
                lemma_trivial_path(edges, y);
            }
        }
    }
}

/// Adding `a -> b` to an acyclic graph in which `a` cannot be reached from
/// `b` keeps it acyclic.
pub proof fn lemma_push_keeps_acyclic(edges: Seq<EdgeTriple>, e: EdgeTriple)
    requires
        !cyclic(edges),
        !reachable(edges, e.1 as int, e.0 as int),
    ensures
        !cyclic(edges.push(e)),
{
    let big = edges.push(e);
    if cyclic(big) {
        let p = choose|p: Seq<int>| #[trigger] is_path(big, p) && p.len() >= 2 && p[0] == p.last();
        lemma_walk_with_new_edge(edges, e, p);
        if !is_path(edges, p) {
            lemma_reachable_trans(edges, e.1 as int, p.last(), e.0 as int);
        }
    }
}

/// Adding `a -> b` where `a` is reachable from `b` closes a cycle.
pub proof fn lemma_push_closes_cycle(edges: Seq<EdgeTriple>, e: EdgeTriple)
    requires
        reachable(edges, e.1 as int, e.0 as int),
    ensures
        cyclic(edges.push(e)),
{
    let big = edges.push(e);
    assert(edges_within(edges, big)) by {
        assert forall|a: int, b: int| #[trigger] has_edge(edges, a, b) implies has_edge(big, a, b) by {
            let i = choose|i: int| 0 <= i < edges.len() && edges[i].0 == a && edges[i].1 == b;
            assert(big[i] == edges[i]);
        }
    }
    let p = choose|p: Seq<int>| #[trigger] is_path(edges, p) && p[0] == e.1 as int && p.last() == e.0 as int;
    lemma_path_within(edges, big, p);
    assert(big[edges.len() as int] == e);
    lemma_path_push(big, p, e.1 as int);
}

/// A walk without repeated nodes through nodes below `n` has at most `n` nodes.
pub proof fn lemma_simple_walk_bounded(p: Seq<int>, n: int)
    requires
        p.no_duplicates(),
        0 <= n,
        forall|k: int| 0 <= k < p.len() ==> 0 <= #[trigger] p[k] < n,
    ensures
        p.len() <= n,
{
    p.unique_seq_to_set();
    vstd::set_lib::lemma_int_range(0, n);
    assert(p.to_set().subset_of(vstd::set_lib::set_int_range(0, n)));
    vstd::set_lib::lemma_len_subset(p.to_set(), vstd::set_lib::set_int_range(0, n));
}

/// The walk from position `k` on of a walk.
pub proof fn lemma_path_suffix(edges: Seq<EdgeTriple>, p: Seq<int>, k: int)
    requires
        is_path(edges, p),
        0 <= k < p.len(),
    ensures
        is_path(edges, p.subrange(k, p.len() as int)),
{
    let q = p.subrange(k, p.len() as int);
    assert forall|i: int| 0 <= i < q.len() - 1 implies #[trigger] path_step(edges, q, i) by {
        assert(path_step(edges, p, k + i));
    }
}

/// A walk that steps back onto one of its own nodes closes a cycle.
pub proof fn lemma_revisit_closes_cycle(edges: Seq<EdgeTriple>, p: Seq<int>, s: int)
    requires
        is_path(edges, p),
        has_edge(edges, p.last(), s),
        p.contains(s),
    ensures
        cyclic(edges),
{
    let k = choose|k: int| 0 <= k < p.len() && p[k] == s;
    lemma_path_suffix(edges, p, k);
    let q = p.subrange(k, p.len() as int);
    assert(q.last() == p.last());
    lemma_path_push(edges, q, s);
    assert(q.push(s)[0] == s);
}

/// A graph without edges has no cycle.
pub proof fn lemma_no_edges_acyclic(edges: Seq<EdgeTriple>)
    requires
        edges.len() == 0,
    ensures
        !cyclic(edges),
{
    if cyclic(edges) {
        let p = choose|p: Seq<int>| #[trigger] is_path(edges, p) && p.len() >= 2 && p[0] == p.last();
        assert(path_step(edges, p, 0));
    }
}

/// Prefixes of an edge sequence have no more edges than the whole.
pub proof fn lemma_prefix_within(edges: Seq<EdgeTriple>, n: int)
    requires
        0 <= n <= edges.len(),
    ensures
        edges_within(edges.take(n), edges),
{
    assert forall|a: int, b: int| #[trigger] has_edge(edges.take(n), a, b) implies has_edge(edges, a, b) by {
        let i = choose|i: int| 0 <= i < n && edges.take(n)[i].0 == a && edges.take(n)[i].1 == b;
        assert(edges.take(n)[i] == edges[i]);
    }
}

} // verus!
