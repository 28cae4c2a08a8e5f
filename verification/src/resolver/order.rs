//! What resolution finds depends on which nodes there are, not on the order
//! in which the modules list them: the links, cycles, remaining imports and
//! exports, and what each node reduces to are all determined node by node.
use crate::graph::{has_edge, index_limit, is_path, path_step, reachable, cyclic, EdgeTriple};
use crate::resolver::dependency_reduction::{
    functional_links, has_predecessor, has_successor, is_remaining_export, is_remaining_import, is_source,
    lemma_reduction_source_unique, reduction_of, ReducedDependencies,
};
use crate::resolver::{
    definition_matches, export_matches, is_link, is_mismatch_pair, last_definition, last_export,
    lemma_last_definition, lemma_last_export, lemma_links, lemma_resolved_edges, link_target, links,
    mismatch, node_type, resolved_edges, edge_label, mismatches_upto, lemma_mismatches_upto, without_mismatches, ExportView, ImportView, NodeView,
};
use vstd::prelude::*;

verus! {

/// Node `u` is linked to node `w`: an import to the export it names, an
/// export to the import or local it names.
pub open spec fn links_to(u: NodeView, w: NodeView) -> bool {
    match u {
        NodeView::Import(i) => export_matches(w, i.exporting_module, i.exporting_identifier),
        NodeView::Export(e) => definition_matches(w, e.module, e.index),
        NodeView::Local(_) => false,
    }
}

/// Node `u` keeps its link to `w` after resolution: always, or, when
/// mismatches are ignored, unless an import is linked to an export of
/// another type.
pub open spec fn resolves_to(u: NodeView, w: NodeView, ignore_mismatches: bool) -> bool {
    links_to(u, w) && !(ignore_mismatches && u is Import && node_type(u) != node_type(w))
}

/// No node occurs twice, and every node is linked to at most one node.
pub open spec fn linking_unambiguous(nodes: Seq<NodeView>) -> bool {
    &&& nodes.no_duplicates()
    &&& forall|i: int, j1: int, j2: int|
        #![trigger links_to(nodes[i], nodes[j1]), links_to(nodes[i], nodes[j2])]
        0 <= i < nodes.len() && 0 <= j1 < nodes.len() && 0 <= j2 < nodes.len() && links_to(nodes[i], nodes[j1])
            && links_to(nodes[i], nodes[j2]) ==> j1 == j2
}

/// The last export of a name is found exactly when one exists.
proof fn lemma_last_export_exists(nodes: Seq<NodeView>, module: Seq<char>, identifier: Seq<char>, n: nat)
    requires
        n <= nodes.len(),
    ensures
        last_export(nodes, module, identifier, n) is Some <==> exists|j: int|
            0 <= j < n && export_matches(#[trigger] nodes[j], module, identifier),
    decreases n,
{
    if n > 0 {
        lemma_last_export_exists(nodes, module, identifier, (n - 1) as nat);
        if exists|j: int| 0 <= j < n && export_matches(#[trigger] nodes[j], module, identifier) {
            let j = choose|j: int| 0 <= j < n && export_matches(#[trigger] nodes[j], module, identifier);
            if j < n - 1 {
                assert(exists|j: int| 0 <= j < n - 1 && export_matches(#[trigger] nodes[j], module, identifier));
            }
        }
    }
}

/// The last definition of an index is found exactly when one exists.
proof fn lemma_last_definition_found(nodes: Seq<NodeView>, module: Seq<char>, index: u64, n: nat)
    requires
        n <= nodes.len(),
    ensures
        last_definition(nodes, module, index, n) is Some <==> exists|j: int|
            0 <= j < n && definition_matches(#[trigger] nodes[j], module, index),
    decreases n,
{
    if n > 0 {
        lemma_last_definition_found(nodes, module, index, (n - 1) as nat);
        if exists|j: int| 0 <= j < n && definition_matches(#[trigger] nodes[j], module, index) {
            let j = choose|j: int| 0 <= j < n && definition_matches(#[trigger] nodes[j], module, index);
            if j < n - 1 {
                assert(exists|j: int| 0 <= j < n - 1 && definition_matches(#[trigger] nodes[j], module, index));
            }
        }
    }
}

/// A node's link target is the node it is linked to.
proof fn lemma_link_target_by_value(nodes: Seq<NodeView>, a: int)
    requires
        linking_unambiguous(nodes),
        0 <= a < nodes.len(),
    ensures
        forall|b: int| 0 <= b < nodes.len() ==> (link_target(nodes, a) == Some(b) <==> links_to(nodes[a], #[trigger] nodes[b])),
        link_target(nodes, a) is None <==> forall|b: int| 0 <= b < nodes.len() ==> !links_to(nodes[a], #[trigger] nodes[b]),
{
    match nodes[a] {
        NodeView::Import(imp) => {
            lemma_last_export(nodes, imp.exporting_module, imp.exporting_identifier, nodes.len());
            lemma_last_export_exists(nodes, imp.exporting_module, imp.exporting_identifier, nodes.len());
        },
        NodeView::Export(e) => {
            lemma_last_definition(nodes, e.module, e.index, nodes.len());
            lemma_last_definition_found(nodes, e.module, e.index, nodes.len());
        },
        NodeView::Local(_) => {},
    }
    assert forall|b: int| 0 <= b < nodes.len() implies (link_target(nodes, a) == Some(b) <==> links_to(nodes[a], #[trigger] nodes[b])) by {
        if links_to(nodes[a], nodes[b]) {
            let j = link_target(nodes, a)->0;
            assert(links_to(nodes[a], nodes[j]));
        }
    }
}

/// The edges of a resolution, by value.
pub proof fn lemma_edges_by_value(nodes: Seq<NodeView>, ignore_mismatches: bool)
    requires
        nodes.len() <= index_limit(),
        linking_unambiguous(nodes),
    ensures
        forall|a: int, b: int|
            #[trigger] has_edge(resolved_edges(nodes, ignore_mismatches), a, b) <==> 0 <= a < nodes.len() && 0 <= b
                < nodes.len() && resolves_to(nodes[a], nodes[b], ignore_mismatches),
{
    let l = links(nodes);
    lemma_links(nodes);
    lemma_resolved_edges(nodes);
    assert forall|a: int, b: int| #[trigger] has_edge(l, a, b) <==> 0 <= a < nodes.len() && 0 <= b < nodes.len()
        && links_to(nodes[a], nodes[b]) by {
        if has_edge(l, a, b) {
            let x = choose|x: int| 0 <= x < l.len() && l[x].0 == a && l[x].1 == b;
            assert(is_link(nodes, l[x]));
            lemma_link_target_by_value(nodes, a);
        }
        if 0 <= a < nodes.len() && 0 <= b < nodes.len() && links_to(nodes[a], nodes[b]) {
            lemma_link_target_by_value(nodes, a);
            assert(link_target(nodes, a) == Some(b));
        }
    }
    assert forall|a: int, b: int|
        #[trigger] has_edge(resolved_edges(nodes, ignore_mismatches), a, b) <==> 0 <= a < nodes.len() && 0 <= b
            < nodes.len() && resolves_to(nodes[a], nodes[b], ignore_mismatches) by {
        if ignore_mismatches && has_edge(l, a, b) {
            let x = choose|x: int| 0 <= x < l.len() && l[x].0 == a && l[x].1 == b;
            assert(is_link(nodes, l[x]));
            if is_mismatch_pair(nodes, l, a, b) {
                let y = choose|y: int| 0 <= y < l.len() && l[y].0 == a && l[y].1 == b && mismatch(nodes, l[y]);
                assert(is_link(nodes, l[y]));
            }
            if nodes[a] is Import && node_type(nodes[a]) != node_type(nodes[b]) {
                assert(mismatch(nodes, l[x]));
            }
        }
    }
}


/// Linking draws an edge from each import to the export it names and from
/// each export to the import or local it names, and no other edge; each
/// edge is labelled by the kind of its source, and no pair of nodes is
/// linked twice.
pub proof fn lemma_links_exactly(nodes: Seq<NodeView>)
    requires
        nodes.len() <= index_limit(),
        linking_unambiguous(nodes),
    ensures
        forall|a: int, b: int|
            #[trigger] has_edge(links(nodes), a, b) <==> 0 <= a < nodes.len() && 0 <= b < nodes.len()
                && links_to(nodes[a], nodes[b]),
        forall|m: int|
            0 <= m < links(nodes).len() ==> (#[trigger] links(nodes)[m]).2 == edge_label(
                nodes[links(nodes)[m].0 as int],
            ),
        forall|m1: int, m2: int|
            0 <= m1 < m2 < links(nodes).len() ==> (#[trigger] links(nodes)[m1]).0 < (#[trigger] links(
                nodes,
            )[m2]).0,
{
    lemma_edges_by_value(nodes, false);
    lemma_links(nodes);
    assert(resolved_edges(nodes, false) == links(nodes));
    assert forall|a: int, b: int|
        #[trigger] has_edge(links(nodes), a, b) <==> 0 <= a < nodes.len() && 0 <= b < nodes.len()
            && links_to(nodes[a], nodes[b]) by {
        assert(has_edge(resolved_edges(nodes, false), a, b) == has_edge(links(nodes), a, b));
    }
}

/// The mismatches reported after linking are exactly the pairs (import,
/// export) where the import is linked to an export of another type, each
/// listed once.
pub proof fn lemma_mismatches_exactly(nodes: Seq<NodeView>)
    requires
        nodes.len() <= index_limit(),
        linking_unambiguous(nodes),
    ensures
        forall|a: usize, b: usize|
            #[trigger] mismatches_upto(nodes, links(nodes), links(nodes).len()).contains((a, b)) <==> a
                < nodes.len() && b < nodes.len() && links_to(nodes[a as int], nodes[b as int])
                && nodes[a as int] is Import && node_type(nodes[a as int]) != node_type(nodes[b as int]),
        mismatches_upto(nodes, links(nodes), links(nodes).len()).no_duplicates(),
{
    let l = links(nodes);
    lemma_links_exactly(nodes);
    lemma_mismatches_upto(nodes, l, l.len());
    lemma_mismatches_distinct(nodes, l, l.len());
    assert forall|a: usize, b: usize|
        #[trigger] mismatches_upto(nodes, l, l.len()).contains((a, b)) <==> a < nodes.len() && b < nodes.len()
            && links_to(nodes[a as int], nodes[b as int]) && nodes[a as int] is Import && node_type(nodes[a as int])
            != node_type(nodes[b as int]) by {
        if mismatches_upto(nodes, l, l.len()).contains((a, b)) {
            let ai: int = a as int;
            let bi: int = b as int;
            assert(mismatches_upto(nodes, l, l.len()).contains((ai as usize, bi as usize)));
            assert(0 <= ai && 0 <= bi && ai <= usize::MAX && bi <= usize::MAX);
            assert(exists|i: int| 0 <= i < l.len() && l[i].0 == ai && l[i].1 == bi && mismatch(nodes, l[i]));
            let i = choose|i: int| 0 <= i < l.len() && l[i].0 == a as int && l[i].1 == b as int && mismatch(nodes, l[i]);
            assert(has_edge(l, a as int, b as int));
            assert(l[i].2 == edge_label(nodes[a as int]));
        }
        if a < nodes.len() && b < nodes.len() && links_to(nodes[a as int], nodes[b as int]) && nodes[a as int] is Import
            && node_type(nodes[a as int]) != node_type(nodes[b as int]) {
            assert(has_edge(l, a as int, b as int));
            let i = choose|i: int| 0 <= i < l.len() && l[i].0 == a as int && l[i].1 == b as int;
            assert(l[i].2 == edge_label(nodes[a as int]));
            assert(mismatch(nodes, l[i]));
            assert((l[i].0, l[i].1) == (a, b));
        }
    }
}

/// Mismatches found along edges with strictly increasing sources are
/// listed once each.
proof fn lemma_mismatches_distinct(nodes: Seq<NodeView>, edges: Seq<EdgeTriple>, k: nat)
    requires
        k <= edges.len(),
        forall|m1: int, m2: int| 0 <= m1 < m2 < edges.len() ==> (#[trigger] edges[m1]).0 < (#[trigger] edges[m2]).0,
    ensures
        mismatches_upto(nodes, edges, k).no_duplicates(),
    decreases k,
{
    if k > 0 {
        lemma_mismatches_distinct(nodes, edges, (k - 1) as nat);
        lemma_mismatches_upto(nodes, edges, (k - 1) as nat);
        let prev = mismatches_upto(nodes, edges, (k - 1) as nat);
        if mismatch(nodes, edges[k - 1]) {
            assert forall|m: int| 0 <= m < prev.len() implies prev[m] != (edges[k - 1].0, edges[k - 1].1) by {
                let i = choose|i: int| 0 <= i < k - 1 && edges[i].0 == #[trigger] prev[m].0 && edges[i].1 == prev[m].1
                    && mismatch(nodes, edges[i]);
                assert(edges[i].0 < edges[k - 1].0);
            }
        }
    }
}

/// Step `t` of `q` follows a resolved link.
pub open spec fn value_step(q: Seq<NodeView>, t: int, ignore_mismatches: bool) -> bool {
    resolves_to(q[t], q[t + 1], ignore_mismatches)
}

/// `q` is a non-empty walk along resolved links through nodes of `s`.
pub open spec fn value_walk(s: Set<NodeView>, q: Seq<NodeView>, ignore_mismatches: bool) -> bool {
    &&& q.len() >= 1
    &&& forall|t: int| 0 <= t < q.len() ==> s.contains(#[trigger] q[t])
    &&& forall|t: int| 0 <= t < q.len() - 1 ==> #[trigger] value_step(q, t, ignore_mismatches)
}

/// Node `w` can be reached from node `u` along resolved links through `s`.
pub open spec fn value_reachable(s: Set<NodeView>, u: NodeView, w: NodeView, ignore_mismatches: bool) -> bool {
    exists|q: Seq<NodeView>| #[trigger] value_walk(s, q, ignore_mismatches) && q[0] == u && q.last() == w
}

/// Some walk of at least one resolved link through `s` returns to where it started.
pub open spec fn value_cyclic(s: Set<NodeView>, ignore_mismatches: bool) -> bool {
    exists|q: Seq<NodeView>| #[trigger] value_walk(s, q, ignore_mismatches) && q.len() >= 2 && q[0] == q.last()
}

/// Node `u` defines its item among the nodes `s`: a local, or an import
/// that keeps no link.
pub open spec fn value_source(s: Set<NodeView>, u: NodeView, ignore_mismatches: bool) -> bool {
    u is Local || (u is Import && !exists|w: NodeView| s.contains(w) && #[trigger] resolves_to(u, w, ignore_mismatches))
}

/// The position of a node in the sequence.
spec fn position(nodes: Seq<NodeView>, v: NodeView) -> int {
    choose|i: int| 0 <= i < nodes.len() && nodes[i] == v
}

proof fn lemma_position(nodes: Seq<NodeView>, v: NodeView)
    requires
        nodes.no_duplicates(),
        nodes.contains(v),
    ensures
        0 <= position(nodes, v) < nodes.len(),
        nodes[position(nodes, v)] == v,
        forall|i: int| 0 <= i < nodes.len() && #[trigger] nodes[i] == v ==> i == position(nodes, v),
{
}

/// Walks of the graph are walks of the nodes, and back.
proof fn lemma_walks_by_value(nodes: Seq<NodeView>, ignore_mismatches: bool)
    requires
        nodes.len() <= index_limit(),
        linking_unambiguous(nodes),
    ensures
        forall|p: Seq<int>|
            #[trigger] is_path(resolved_edges(nodes, ignore_mismatches), p) && 0 <= p[0] < nodes.len()
                ==> value_walk(nodes.to_set(), Seq::new(p.len(), |t: int| nodes[p[t]]), ignore_mismatches)
                && forall|t: int| 0 <= t < p.len() ==> 0 <= #[trigger] p[t] < nodes.len(),
        forall|q: Seq<NodeView>|
            #[trigger] value_walk(nodes.to_set(), q, ignore_mismatches) ==> is_path(
                resolved_edges(nodes, ignore_mismatches),
                Seq::new(q.len(), |t: int| position(nodes, q[t])),
            ) && forall|t: int| 0 <= t < q.len() ==> nodes[#[trigger] position(nodes, q[t])] == q[t],
{
    let edges = resolved_edges(nodes, ignore_mismatches);
    lemma_edges_by_value(nodes, ignore_mismatches);
    assert forall|p: Seq<int>|
        #[trigger] is_path(edges, p) && 0 <= p[0] < nodes.len() implies value_walk(
        nodes.to_set(),
        Seq::new(p.len(), |t: int| nodes[p[t]]),
        ignore_mismatches,
    ) && forall|t: int| 0 <= t < p.len() ==> 0 <= #[trigger] p[t] < nodes.len() by {
        let q = Seq::new(p.len(), |t: int| nodes[p[t]]);
        assert forall|t: int| 0 <= t < p.len() implies 0 <= #[trigger] p[t] < nodes.len() by {
            if t > 0 {
                assert(path_step(edges, p, t - 1));
            }
        }
        assert forall|t: int| 0 <= t < q.len() implies nodes.to_set().contains(#[trigger] q[t]) by {
            assert(0 <= p[t] < nodes.len());
            assert(nodes[p[t]] == q[t]);
        }
        assert forall|t: int| 0 <= t < q.len() - 1 implies #[trigger] value_step(q, t, ignore_mismatches) by {
            assert(path_step(edges, p, t));
        }
    }
    assert forall|q: Seq<NodeView>|
        #[trigger] value_walk(nodes.to_set(), q, ignore_mismatches) implies is_path(
        edges,
        Seq::new(q.len(), |t: int| position(nodes, q[t])),
    ) && forall|t: int| 0 <= t < q.len() ==> nodes[#[trigger] position(nodes, q[t])] == q[t] by {
        let p = Seq::new(q.len(), |t: int| position(nodes, q[t]));
        assert forall|t: int| 0 <= t < q.len() implies nodes[#[trigger] position(nodes, q[t])] == q[t] && 0 <= position(nodes, q[t]) < nodes.len() by {
            assert(nodes.to_set().contains(q[t]));
            lemma_position(nodes, q[t]);
        }
        assert forall|t: int| 0 <= t < p.len() - 1 implies #[trigger] path_step(edges, p, t) by {
            assert(value_step(q, t, ignore_mismatches));
            assert(nodes[position(nodes, q[t])] == q[t]);
            assert(nodes[position(nodes, q[t + 1])] == q[t + 1]);
            assert(has_edge(edges, p[t], p[t + 1]));
        }
    }
}

/// Reachability and cycles of a resolution, by value.
pub proof fn lemma_reachable_by_value(nodes: Seq<NodeView>, ignore_mismatches: bool)
    requires
        nodes.len() <= index_limit(),
        linking_unambiguous(nodes),
    ensures
        forall|a: int, b: int|
            0 <= a < nodes.len() && 0 <= b < nodes.len() ==> (#[trigger] reachable(resolved_edges(nodes, ignore_mismatches), a, b)
                <==> value_reachable(nodes.to_set(), nodes[a], nodes[b], ignore_mismatches)),
        cyclic(resolved_edges(nodes, ignore_mismatches)) <==> value_cyclic(nodes.to_set(), ignore_mismatches),
{
    let edges = resolved_edges(nodes, ignore_mismatches);
    let s = nodes.to_set();
    lemma_walks_by_value(nodes, ignore_mismatches);
    lemma_edges_by_value(nodes, ignore_mismatches);
    assert forall|a: int, b: int|
        0 <= a < nodes.len() && 0 <= b < nodes.len() implies (#[trigger] reachable(edges, a, b)
            <==> value_reachable(s, nodes[a], nodes[b], ignore_mismatches)) by {
        if reachable(edges, a, b) {
            let p = choose|p: Seq<int>| #[trigger] is_path(edges, p) && p[0] == a && p.last() == b;
            let q = Seq::new(p.len(), |t: int| nodes[p[t]]);
            assert(value_walk(s, q, ignore_mismatches));
            assert(q[0] == nodes[a] && q.last() == nodes[b]);
        }
        if value_reachable(s, nodes[a], nodes[b], ignore_mismatches) {
            let q = choose|q: Seq<NodeView>| #[trigger] value_walk(s, q, ignore_mismatches) && q[0] == nodes[a] && q.last() == nodes[b];
            let p = Seq::new(q.len(), |t: int| position(nodes, q[t]));
            assert(is_path(edges, p));
            lemma_position(nodes, nodes[a]);
            lemma_position(nodes, nodes[b]);
            assert(nodes[position(nodes, q[0])] == q[0]);
            assert(nodes[position(nodes, q[q.len() - 1])] == q[q.len() - 1]);
            assert(p[0] == a);
            assert(p.last() == b);
        }
    }
    if cyclic(edges) {
        let p = choose|p: Seq<int>| #[trigger] is_path(edges, p) && p.len() >= 2 && p[0] == p.last();
        assert(path_step(edges, p, 0));
        let q = Seq::new(p.len(), |t: int| nodes[p[t]]);
        assert(value_walk(s, q, ignore_mismatches));
        assert(q[0] == q.last());
    }
    if value_cyclic(s, ignore_mismatches) {
        let q = choose|q: Seq<NodeView>| #[trigger] value_walk(s, q, ignore_mismatches) && q.len() >= 2 && q[0] == q.last();
        let p = Seq::new(q.len(), |t: int| position(nodes, q[t]));
        assert(is_path(edges, p));
        assert(p[0] == p.last());
    }
}

/// The links left after dropping mismatches are links of their sources, and
/// leave distinct nodes.
proof fn lemma_without_mismatches_functional(nodes: Seq<NodeView>, n: nat)
    requires
        nodes.len() <= index_limit(),
        n <= links(nodes).len(),
    ensures
        forall|k: int|
            0 <= k < without_mismatches(nodes, links(nodes), n).len() ==> exists|x: int|
                0 <= x < n && #[trigger] without_mismatches(nodes, links(nodes), n)[k] == links(nodes)[x],
        functional_links(nodes, without_mismatches(nodes, links(nodes), n)),
    decreases n,
{
    let l = links(nodes);
    lemma_links(nodes);
    if n > 0 {
        lemma_without_mismatches_functional(nodes, (n - 1) as nat);
        let prev = without_mismatches(nodes, l, (n - 1) as nat);
        let cur = without_mismatches(nodes, l, n);
        assert forall|k: int| 0 <= k < cur.len() implies exists|x: int| 0 <= x < n && #[trigger] cur[k] == l[x] by {
            if k < prev.len() {
                assert(cur[k] == prev[k]);
                let x = choose|x: int| 0 <= x < n - 1 && prev[k] == l[x];
            } else {
                assert(cur[k] == l[n - 1]);
            }
        }
        assert forall|k1: int, k2: int|
            0 <= k1 < cur.len() && 0 <= k2 < cur.len() && k1 != k2 implies #[trigger] cur[k1].0 != #[trigger] cur[k2].0 by {
            if k1 < prev.len() && k2 < prev.len() {
                assert(cur[k1] == prev[k1] && cur[k2] == prev[k2]);
            } else if k1 < prev.len() {
                assert(cur[k1] == prev[k1]);
                let x = choose|x: int| 0 <= x < n - 1 && prev[k1] == l[x];
                assert(l[x].0 < l[n - 1].0);
            } else {
                assert(cur[k2] == prev[k2]);
                let x = choose|x: int| 0 <= x < n - 1 && prev[k2] == l[x];
                assert(l[x].0 < l[n - 1].0);
            }
        }
        assert forall|k: int| 0 <= k < cur.len() implies is_link(nodes, #[trigger] cur[k]) by {
            let x = choose|x: int| 0 <= x < n && cur[k] == l[x];
        }
    }
}

/// The edges of a resolution are links of their sources, and leave
/// distinct nodes.
pub proof fn lemma_resolved_links_functional(nodes: Seq<NodeView>, ignore_mismatches: bool)
    requires
        nodes.len() <= index_limit(),
    ensures
        functional_links(nodes, resolved_edges(nodes, ignore_mismatches)),
{
    let l = links(nodes);
    lemma_links(nodes);
    if ignore_mismatches {
        lemma_without_mismatches_functional(nodes, l.len());
    } else {
        assert forall|k1: int, k2: int|
            0 <= k1 < l.len() && 0 <= k2 < l.len() && k1 != k2 implies #[trigger] l[k1].0 != #[trigger] l[k2].0 by {
            if k1 < k2 {
                assert(l[k1].0 < l[k2].0);
            } else {
                assert(l[k2].0 < l[k1].0);
            }
        }
    }
}

/// Which nodes have a link, are linked to, or define their item, by value.
proof fn lemma_neighbours_by_value(nodes: Seq<NodeView>, ignore_mismatches: bool)
    requires
        nodes.len() <= index_limit(),
        linking_unambiguous(nodes),
    ensures
        forall|i: int|
            0 <= i < nodes.len() ==> (#[trigger] has_successor(resolved_edges(nodes, ignore_mismatches), i) <==> exists|w: NodeView|
                nodes.to_set().contains(w) && #[trigger] resolves_to(nodes[i], w, ignore_mismatches)),
        forall|i: int|
            0 <= i < nodes.len() ==> (#[trigger] has_predecessor(resolved_edges(nodes, ignore_mismatches), i) <==> exists|w: NodeView|
                nodes.to_set().contains(w) && #[trigger] resolves_to(w, nodes[i], ignore_mismatches)),
        forall|i: int|
            0 <= i < nodes.len() ==> (#[trigger] is_source(nodes, resolved_edges(nodes, ignore_mismatches), i) <==> value_source(
                nodes.to_set(),
                nodes[i],
                ignore_mismatches,
            )),
{
    let edges = resolved_edges(nodes, ignore_mismatches);
    let s = nodes.to_set();
    lemma_edges_by_value(nodes, ignore_mismatches);
    assert forall|i: int| 0 <= i < nodes.len() implies (#[trigger] has_successor(edges, i) <==> exists|w: NodeView|
        s.contains(w) && #[trigger] resolves_to(nodes[i], w, ignore_mismatches)) by {
        if has_successor(edges, i) {
            let j = choose|j: int| has_edge(edges, i, j);
            assert(s.contains(nodes[j]));
        }
        if exists|w: NodeView| s.contains(w) && #[trigger] resolves_to(nodes[i], w, ignore_mismatches) {
            let w = choose|w: NodeView| s.contains(w) && #[trigger] resolves_to(nodes[i], w, ignore_mismatches);
            let j = choose|j: int| 0 <= j < nodes.len() && nodes[j] == w;
            assert(has_edge(edges, i, j));
        }
    }
    assert forall|i: int| 0 <= i < nodes.len() implies (#[trigger] has_predecessor(edges, i) <==> exists|w: NodeView|
        s.contains(w) && #[trigger] resolves_to(w, nodes[i], ignore_mismatches)) by {
        if has_predecessor(edges, i) {
            let j = choose|j: int| has_edge(edges, j, i);
            assert(s.contains(nodes[j]));
        }
        if exists|w: NodeView| s.contains(w) && #[trigger] resolves_to(w, nodes[i], ignore_mismatches) {
            let w = choose|w: NodeView| s.contains(w) && #[trigger] resolves_to(w, nodes[i], ignore_mismatches);
            let j = choose|j: int| 0 <= j < nodes.len() && nodes[j] == w;
            assert(has_edge(edges, j, i));
        }
    }
}

/// Law: what resolution finds depends on which nodes there are, not on the
/// order in which they come. Two sequences of the same nodes, where no
/// node occurs twice and every node is linked to at most one node, have a
/// cycle alike, the same remaining imports and exports, and every node
/// reduces to the same definition in both.
pub proof fn lemma_resolution_ignores_order(
    n1: Seq<NodeView>,
    n2: Seq<NodeView>,
    ignore_mismatches: bool,
    keep: Option<Seq<(Seq<char>, Seq<char>)>>,
    rd1: ReducedDependencies,
    rd2: ReducedDependencies,
)
    requires
        n1.to_set() == n2.to_set(),
        n1.len() <= index_limit(),
        n2.len() <= index_limit(),
        linking_unambiguous(n1),
        linking_unambiguous(n2),
    ensures
        cyclic(resolved_edges(n1, ignore_mismatches)) == cyclic(resolved_edges(n2, ignore_mismatches)),
        forall|v: ImportView|
            #[trigger] is_remaining_import(n1, resolved_edges(n1, ignore_mismatches), v) == is_remaining_import(
                n2,
                resolved_edges(n2, ignore_mismatches),
                v,
            ),
        forall|v: ExportView|
            #[trigger] is_remaining_export(n1, resolved_edges(n1, ignore_mismatches), keep, v) == is_remaining_export(
                n2,
                resolved_edges(n2, ignore_mismatches),
                keep,
                v,
            ),
        reduction_of(n1, resolved_edges(n1, ignore_mismatches), keep, rd1) && reduction_of(
            n2,
            resolved_edges(n2, ignore_mismatches),
            keep,
            rd2,
        ) ==> forall|i1: int, i2: int|
            0 <= i1 < n1.len() && 0 <= i2 < n2.len() && n1[i1] == n2[i2] ==> (#[trigger] rd1.reduction_map@[i1]).1@
                == (#[trigger] rd2.reduction_map@[i2]).1@,
{
    let s = n1.to_set();
    let e1 = resolved_edges(n1, ignore_mismatches);
    let e2 = resolved_edges(n2, ignore_mismatches);
    lemma_reachable_by_value(n1, ignore_mismatches);
    lemma_reachable_by_value(n2, ignore_mismatches);
    lemma_neighbours_by_value(n1, ignore_mismatches);
    lemma_neighbours_by_value(n2, ignore_mismatches);
    // Remaining imports and exports, by value.
    assert forall|v: ImportView| #[trigger] is_remaining_import(n1, e1, v) == is_remaining_import(n2, e2, v) by {
        if is_remaining_import(n1, e1, v) {
            let i = choose|i: int| 0 <= i < n1.len() && #[trigger] n1[i] == NodeView::Import(v) && !has_successor(e1, i);
            assert(s.contains(n1[i]));
            let j = choose|j: int| 0 <= j < n2.len() && n2[j] == n1[i];
            assert(!has_successor(e2, j));
        }
        if is_remaining_import(n2, e2, v) {
            let i = choose|i: int| 0 <= i < n2.len() && #[trigger] n2[i] == NodeView::Import(v) && !has_successor(e2, i);
            assert(n2.to_set().contains(n2[i]));
            let j = choose|j: int| 0 <= j < n1.len() && n1[j] == n2[i];
            assert(!has_successor(e1, j));
        }
    }
    assert forall|v: ExportView| #[trigger] is_remaining_export(n1, e1, keep, v) == is_remaining_export(n2, e2, keep, v) by {
        if is_remaining_export(n1, e1, keep, v) {
            let i = choose|i: int| 0 <= i < n1.len() && #[trigger] n1[i] == NodeView::Export(v) && (!has_predecessor(e1, i)
                || (keep matches Some(k) && k.contains((v.module, v.identifier))));
            assert(s.contains(n1[i]));
            let j = choose|j: int| 0 <= j < n2.len() && n2[j] == n1[i];
            assert(has_predecessor(e1, i) == has_predecessor(e2, j));
        }
        if is_remaining_export(n2, e2, keep, v) {
            let i = choose|i: int| 0 <= i < n2.len() && #[trigger] n2[i] == NodeView::Export(v) && (!has_predecessor(e2, i)
                || (keep matches Some(k) && k.contains((v.module, v.identifier))));
            assert(n2.to_set().contains(n2[i]));
            let j = choose|j: int| 0 <= j < n1.len() && n1[j] == n2[i];
            assert(has_predecessor(e2, i) == has_predecessor(e1, j));
        }
    }
    // What each node reduces to.
    if reduction_of(n1, e1, keep, rd1) && reduction_of(n2, e2, keep, rd2) {
        lemma_resolved_links_functional(n2, ignore_mismatches);
        assert forall|i1: int, i2: int|
            0 <= i1 < n1.len() && 0 <= i2 < n2.len() && n1[i1] == n2[i2] implies (#[trigger] rd1.reduction_map@[i1]).1@
                == (#[trigger] rd2.reduction_map@[i2]).1@ by {
            let s1 = choose|x: int|
                0 <= x < n1.len() && rd1.reduction_map@[i1].1@ == n1[x] && is_source(n1, e1, x) && reachable(e1, i1, x);
            let s2 = choose|x: int|
                0 <= x < n2.len() && rd2.reduction_map@[i2].1@ == n2[x] && is_source(n2, e2, x) && reachable(e2, i2, x);
            assert(s.contains(n1[s1]));
            let t = choose|x: int| 0 <= x < n2.len() && n2[x] == n1[s1];
            assert(value_source(s, n1[s1], ignore_mismatches));
            assert(is_source(n2, e2, t));
            assert(value_reachable(s, n1[i1], n1[s1], ignore_mismatches));
            assert(reachable(e2, i2, t));
            lemma_reduction_source_unique(n2, e2, i2, s2, t);
        }
    }
}

} // verus!
