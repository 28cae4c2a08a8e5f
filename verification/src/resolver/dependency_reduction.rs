//! Reduction of a linked graph: which imports and exports remain in the
//! merged module, and which definition every node stands for.
use crate::graph::{
    cyclic, edges_within, graph_neighbors, has_edge, is_path, lemma_path_push, lemma_path_within,
    path_step, lemma_revisit_closes_cycle,
    lemma_simple_walk_bounded, lemma_trivial_path, reachable, EdgeTriple,
};
use crate::kinds::{IdentifierItem, IdentifierModule};
use crate::merge_options::{contains_identifier, identifier_views, insert_identifier, ExportIdentifier};
use crate::resolver::{
    is_link, lemma_link_target, link_target, Export, ExportView, Import, ImportView, Linked, Node,
    NodeView,
};
use vstd::prelude::*;

verus! {

/// Node `i` has an outgoing edge.
pub open spec fn has_successor(edges: Seq<EdgeTriple>, i: int) -> bool {
    exists|j: int| has_edge(edges, i, j)
}

/// Node `i` has an incoming edge.
pub open spec fn has_predecessor(edges: Seq<EdgeTriple>, i: int) -> bool {
    exists|j: int| has_edge(edges, j, i)
}

/// Node `i` defines its item: a local, or an import that is not satisfied by
/// any export.
pub open spec fn is_source(nodes: Seq<NodeView>, edges: Seq<EdgeTriple>, i: int) -> bool {
    nodes[i] is Local || (nodes[i] is Import && !has_successor(edges, i))
}

/// Every export names an item (import or local) of its module.
pub open spec fn exports_backed(nodes: Seq<NodeView>) -> bool {
    forall|i: int| 0 <= i < nodes.len() && #[trigger] nodes[i] is Export ==> link_target(nodes, i) is Some
}

/// `v` is an import that no export satisfies.
pub open spec fn is_remaining_import(nodes: Seq<NodeView>, edges: Seq<EdgeTriple>, v: ImportView) -> bool {
    exists|i: int|
        0 <= i < nodes.len() && #[trigger] nodes[i] == NodeView::Import(v) && !has_successor(edges, i)
}

/// `v` is an export that no import uses, or one that is kept.
pub open spec fn is_remaining_export(
    nodes: Seq<NodeView>,
    edges: Seq<EdgeTriple>,
    keep: Option<Seq<(Seq<char>, Seq<char>)>>,
    v: ExportView,
) -> bool {
    exists|i: int|
        0 <= i < nodes.len() && #[trigger] nodes[i] == NodeView::Export(v) && (!has_predecessor(
            edges,
            i,
        ) || (keep matches Some(k) && k.contains((v.module, v.identifier))))
}

/// The views of a sequence of imports.
pub open spec fn import_views(s: Seq<Import>) -> Seq<ImportView> {
    s.map_values(|x: Import| x@)
}

/// The views of a sequence of exports.
pub open spec fn export_views(s: Seq<Export>) -> Seq<ExportView> {
    s.map_values(|x: Export| x@)
}

/// `v` is a remaining export whose name another remaining export shares.
pub open spec fn is_clashing(remaining: Seq<ExportView>, v: (Seq<char>, Seq<char>)) -> bool {
    exists|i: int, j: int|
        0 <= i < remaining.len() && 0 <= j < remaining.len() && i != j && (#[trigger] remaining[i]).module
            == v.0 && remaining[i].identifier == v.1 && (#[trigger] remaining[j]).identifier == v.1
}

/// The views of the exports to keep, if any.
pub open spec fn keep_views<Kind>(keep: Option<&Vec<ExportIdentifier<IdentifierItem<Kind>>>>) -> Option<Seq<(Seq<char>, Seq<char>)>> {
    match keep {
        Some(k) => Some(identifier_views(k@)),
        None => None,
    }
}

/// `rd` is the reduction of the graph with these nodes and edges, where
/// `keep` names the exports to keep.
pub open spec fn reduction_of(
    nodes: Seq<NodeView>,
    edges: Seq<EdgeTriple>,
    keep: Option<Seq<(Seq<char>, Seq<char>)>>,
    rd: ReducedDependencies,
) -> bool {
    &&& forall|v: ImportView|
        import_views(rd.remaining_imports@).contains(v) <==> is_remaining_import(nodes, edges, v)
    &&& import_views(rd.remaining_imports@).no_duplicates()
    &&& forall|v: ExportView|
        export_views(rd.remaining_exports@).contains(v) <==> is_remaining_export(nodes, edges, keep, v)
    &&& export_views(rd.remaining_exports@).no_duplicates()
    &&& rd.reduction_map@.len() == nodes.len()
    &&& forall|i: int|
        0 <= i < nodes.len() ==> (#[trigger] rd.reduction_map@[i]).0@ == nodes[i] && exists|s: int|
            0 <= s < nodes.len() && rd.reduction_map@[i].1@ == nodes[s] && is_source(nodes, edges, s)
                && reachable(edges, i, s)
    &&& forall|v: (Seq<char>, Seq<char>)|
        identifier_views(rd.clashing_exports@).contains(v) <==> is_clashing(
            export_views(rd.remaining_exports@),
            v,
        )
    &&& identifier_views(rd.clashing_exports@).no_duplicates()
}

/// Two edge sequences with the same pairs of endpoints describe the same reduction.
pub proof fn lemma_reduction_of_same_edges(
    nodes: Seq<NodeView>,
    e1: Seq<EdgeTriple>,
    e2: Seq<EdgeTriple>,
    keep: Option<Seq<(Seq<char>, Seq<char>)>>,
    rd: ReducedDependencies,
)
    requires
        forall|a: int, b: int| #[trigger] has_edge(e1, a, b) == has_edge(e2, a, b),
        reduction_of(nodes, e1, keep, rd),
    ensures
        reduction_of(nodes, e2, keep, rd),
{
    assert(edges_within(e1, e2));
    assert(edges_within(e2, e1));
    assert forall|i: int| has_successor(e1, i) == has_successor(e2, i) by {
        if has_successor(e1, i) {
            let j = choose|j: int| has_edge(e1, i, j);
            assert(has_edge(e2, i, j));
        }
        if has_successor(e2, i) {
            let j = choose|j: int| has_edge(e2, i, j);
            assert(has_edge(e1, i, j));
        }
    }
    assert forall|i: int| has_predecessor(e1, i) == has_predecessor(e2, i) by {
        if has_predecessor(e1, i) {
            let j = choose|j: int| has_edge(e1, j, i);
            assert(has_edge(e2, j, i));
        }
        if has_predecessor(e2, i) {
            let j = choose|j: int| has_edge(e2, j, i);
            assert(has_edge(e1, j, i));
        }
    }
    assert forall|a: int, b: int| reachable(e1, a, b) implies reachable(e2, a, b) by {
        let p = choose|p: Seq<int>| #[trigger] is_path(e1, p) && p[0] == a && p.last() == b;
        lemma_path_within(e1, e2, p);
    }
    assert forall|v: ImportView| is_remaining_import(nodes, e1, v) == is_remaining_import(nodes, e2, v) by {
        if is_remaining_import(nodes, e1, v) {
            let i = choose|i: int| 0 <= i < nodes.len() && #[trigger] nodes[i] == NodeView::Import(v) && !has_successor(e1, i);
        }
        if is_remaining_import(nodes, e2, v) {
            let i = choose|i: int| 0 <= i < nodes.len() && #[trigger] nodes[i] == NodeView::Import(v) && !has_successor(e2, i);
        }
    }
    assert forall|v: ExportView| is_remaining_export(nodes, e1, keep, v) == is_remaining_export(nodes, e2, keep, v) by {
        if is_remaining_export(nodes, e1, keep, v) {
            let i = choose|i: int| 0 <= i < nodes.len() && #[trigger] nodes[i] == NodeView::Export(v) && (!has_predecessor(e1, i) || (keep matches Some(k) && k.contains((v.module, v.identifier))));
        }
        if is_remaining_export(nodes, e2, keep, v) {
            let i = choose|i: int| 0 <= i < nodes.len() && #[trigger] nodes[i] == NodeView::Export(v) && (!has_predecessor(e2, i) || (keep matches Some(k) && k.contains((v.module, v.identifier))));
        }
    }
}

/// The edges leave distinct nodes, and each is the link of its source.
pub open spec fn functional_links(nodes: Seq<NodeView>, edges: Seq<EdgeTriple>) -> bool {
    &&& forall|k1: int, k2: int|
        0 <= k1 < edges.len() && 0 <= k2 < edges.len() && k1 != k2 ==> #[trigger] edges[k1].0
            != #[trigger] edges[k2].0
    &&& forall|k: int| 0 <= k < edges.len() ==> is_link(nodes, #[trigger] edges[k])
}

/// A defining node has no outgoing edge.
proof fn lemma_source_is_final(nodes: Seq<NodeView>, edges: Seq<EdgeTriple>, s: int, t: int)
    requires
        functional_links(nodes, edges),
        is_source(nodes, edges, s),
    ensures
        !has_edge(edges, s, t),
{
    if has_edge(edges, s, t) {
        let k = choose|k: int| 0 <= k < edges.len() && edges[k].0 == s && edges[k].1 == t;
        assert(is_link(nodes, edges[k]));
        if nodes[s] is Import {
            assert(has_successor(edges, s));
        }
    }
}

/// Law: the definition that a node reduces to is unique. Following the
/// links from a node can reach at most one node that defines its item.
pub proof fn lemma_reduction_source_unique(
    nodes: Seq<NodeView>,
    edges: Seq<EdgeTriple>,
    i: int,
    s1: int,
    s2: int,
)
    requires
        functional_links(nodes, edges),
        is_source(nodes, edges, s1),
        is_source(nodes, edges, s2),
        reachable(edges, i, s1),
        reachable(edges, i, s2),
    ensures
        s1 == s2,
{
    let p1 = choose|p: Seq<int>| #[trigger] is_path(edges, p) && p[0] == i && p.last() == s1;
    let p2 = choose|p: Seq<int>| #[trigger] is_path(edges, p) && p[0] == i && p.last() == s2;
    lemma_walks_end_alike(nodes, edges, p1, p2);
}

proof fn lemma_walks_end_alike(nodes: Seq<NodeView>, edges: Seq<EdgeTriple>, p1: Seq<int>, p2: Seq<int>)
    requires
        functional_links(nodes, edges),
        is_path(edges, p1),
        is_path(edges, p2),
        p1[0] == p2[0],
        is_source(nodes, edges, p1.last()),
        is_source(nodes, edges, p2.last()),
    ensures
        p1.last() == p2.last(),
    decreases p1.len(),
{
    if p1.len() == 1 {
        if p2.len() > 1 {
            assert(path_step(edges, p2, 0));
            lemma_source_is_final(nodes, edges, p1.last(), p2[1]);
        }
    } else if p2.len() == 1 {
        assert(path_step(edges, p1, 0));
        lemma_source_is_final(nodes, edges, p2.last(), p1[1]);
    } else {
        assert(path_step(edges, p1, 0));
        assert(path_step(edges, p2, 0));
        let k1 = choose|k: int| 0 <= k < edges.len() && edges[k].0 == p1[0] && edges[k].1 == p1[1];
        let k2 = choose|k: int| 0 <= k < edges.len() && edges[k].0 == p2[0] && edges[k].1 == p2[1];
        assert(k1 == k2);
        let q1 = p1.drop_first();
        let q2 = p2.drop_first();
        assert forall|x: int| 0 <= x < q1.len() - 1 implies #[trigger] path_step(edges, q1, x) by {
            assert(path_step(edges, p1, x + 1));
        }
        assert forall|x: int| 0 <= x < q2.len() - 1 implies #[trigger] path_step(edges, q2, x) by {
            assert(path_step(edges, p2, x + 1));
        }
        lemma_walks_end_alike(nodes, edges, q1, q2);
    }
}

/// Law: in a reduction, an import that no export satisfies, and a local
/// definition, each reduce to themselves.
pub proof fn lemma_sources_reduce_to_themselves(
    nodes: Seq<NodeView>,
    edges: Seq<EdgeTriple>,
    keep: Option<Seq<(Seq<char>, Seq<char>)>>,
    rd: ReducedDependencies,
    i: int,
)
    requires
        functional_links(nodes, edges),
        reduction_of(nodes, edges, keep, rd),
        0 <= i < nodes.len(),
        is_source(nodes, edges, i),
    ensures
        rd.reduction_map@[i].1@ == nodes[i],
{
    assert(rd.reduction_map@[i].0@ == nodes[i]);
    let s = choose|s: int|
        0 <= s < nodes.len() && rd.reduction_map@[i].1@ == nodes[s] && is_source(nodes, edges, s)
            && reachable(edges, i, s);
    lemma_trivial_path(edges, i);
    lemma_reduction_source_unique(nodes, edges, i, s, i);
}

/// The outcome of the reduction of a linked graph.
#[derive(Debug)]
pub struct ReducedDependencies {
    /// Each node paired with the node it reduces to: a local or a remaining import.
    pub reduction_map: Vec<(Node, Node)>,
    /// The imports that should be present after resolution.
    pub remaining_imports: Vec<Import>,
    /// The exports that should be present after resolution.
    pub remaining_exports: Vec<Export>,
    /// The remaining exports whose name another remaining export shares.
    pub clashing_exports: Vec<ExportIdentifier<IdentifierItem<()>>>,
}

impl ReducedDependencies {
    /// The node that `node` reduces to (for equal nodes, the pair listed last).
    pub fn get(&self, node: &Node) -> (r: Option<&Node>)
        ensures
            r is None <==> forall|i: int|
                0 <= i < self.reduction_map@.len() ==> (#[trigger] self.reduction_map@[i]).0@ != node@,
            r matches Some(n) ==> exists|i: int|
                0 <= i < self.reduction_map@.len() && (#[trigger] self.reduction_map@[i]).0@ == node@
                    && self.reduction_map@[i].1@ == n@ && forall|j: int|
                    i < j < self.reduction_map@.len() ==> (#[trigger] self.reduction_map@[j]).0@ != node@,
    {
        let mut j = self.reduction_map.len();
        while j > 0
            invariant
                j <= self.reduction_map@.len(),
                forall|k: int| j <= k < self.reduction_map@.len() ==> (#[trigger] self.reduction_map@[k]).0@ != node@,
            decreases j,
        {
            if self.reduction_map[j - 1].0.equals(node) {
                return Some(&self.reduction_map[j - 1].1);
            }
            j = j - 1;
        }
        None
    }
}

/// Adds `x` unless an equal import is already present.
fn push_import_unique(list: &mut Vec<Import>, x: Import)
    ensures
        import_views(final(list)@).to_set() == import_views(old(list)@).to_set().insert(x@),
        import_views(old(list)@).no_duplicates() ==> import_views(final(list)@).no_duplicates(),
{
    let ghost before = import_views(list@);
    let mut i: usize = 0;
    while i < list.len()
        invariant
            i <= list@.len(),
            list@ == old(list)@,
            before == import_views(list@),
            forall|j: int| 0 <= j < i ==> before[j] != x@,
        decreases list@.len() - i,
    {
        if list[i].equals(&x) {
            assert(before[i as int] == x@);
            assert(before.to_set() =~= before.to_set().insert(x@));
            return;
        }
        i = i + 1;
    }
    let ghost item = x@;
    list.push(x);
    assert(import_views(list@) =~= before.push(item));
    proof {
        before.lemma_push_to_set_commute(item);
    }
}

/// Adds `x` unless an equal export is already present.
fn push_export_unique(list: &mut Vec<Export>, x: Export)
    ensures
        export_views(final(list)@).to_set() == export_views(old(list)@).to_set().insert(x@),
        export_views(old(list)@).no_duplicates() ==> export_views(final(list)@).no_duplicates(),
{
    let ghost before = export_views(list@);
    let mut i: usize = 0;
    while i < list.len()
        invariant
            i <= list@.len(),
            list@ == old(list)@,
            before == export_views(list@),
            forall|j: int| 0 <= j < i ==> before[j] != x@,
        decreases list@.len() - i,
    {
        if list[i].equals(&x) {
            assert(before[i as int] == x@);
            assert(before.to_set() =~= before.to_set().insert(x@));
            return;
        }
        i = i + 1;
    }
    let ghost item = x@;
    list.push(x);
    assert(export_views(list@) =~= before.push(item));
    proof {
        before.lemma_push_to_set_commute(item);
    }
}

impl Linked {
    /// Follows the (unique) outgoing edges from `start` until it reaches a
    /// node that defines its item.
    fn find_reduction_source(&self, start: usize, sources: &Vec<bool>) -> (r: usize)
        requires
            self.wf(),
            exports_backed(self@),
            start < self@.len(),
            sources@.len() == self@.len(),
            forall|i: int| 0 <= i < self@.len() ==> #[trigger] sources@[i] == is_source(self@, self.edges(), i),
        ensures
            r < self@.len(),
            is_source(self@, self.edges(), r as int),
            reachable(self.edges(), start as int, r as int),
    {
        let n = self.len();
        let mut current = start;
        let ghost mut walk: Seq<int> = seq![start as int];
        proof {
            lemma_trivial_path(self.edges(), start as int);
        }
        // Follow successors until we reach a source
        loop
            invariant
                self.wf(),
                exports_backed(self@),
                n == self@.len(),
                sources@.len() == self@.len(),
                forall|i: int| 0 <= i < self@.len() ==> #[trigger] sources@[i] == is_source(self@, self.edges(), i),
                current < n,
                is_path(self.edges(), walk),
                walk[0] == start as int,
                walk.last() == current as int,
                walk.no_duplicates(),
                forall|k: int| 0 <= k < walk.len() ==> 0 <= #[trigger] walk[k] < n,
            decreases n - walk.len(),
        {
            proof {
                lemma_simple_walk_bounded(walk, n as int);
            }
            if sources[current] {
                return current;
            }
            proof {
                // not a source: an import with a successor, or an export,
                // which keeps the link to the item it exports
                lemma_link_target(self@, current as int);
                if self@[current as int] is Export {
                    assert(has_edge(self.edges(), current as int, link_target(self@, current as int)->0));
                }
                assert(has_successor(self.edges(), current as int));
            }
            let successors = graph_neighbors(self.graph(), current, true);
            proof {
                let j = choose|j: int| has_edge(self.edges(), current as int, j);
                let e = choose|e: int|
                    0 <= e < self.edges().len() && self.edges()[e].0 == current as int && self.edges()[e].1 == j;
                assert(successors@.contains(self.edges()[e].1));
            }
            let next = successors[0];
            proof {
                assert(successors@.contains(next));
                let e = choose|e: int|
                    0 <= e < self.edges().len() && self.edges()[e].0 == current as int && self.edges()[e].1 == next as int;
                assert(is_link(self@, self.edges()[e]));
                if walk.contains(next as int) {
                    lemma_revisit_closes_cycle(self.edges(), walk, next as int);
                }
                lemma_path_push(self.edges(), walk, next as int);
                assert forall|k: int| 0 <= k < walk.push(next as int).len() implies 0 <= #[trigger] walk.push(
                    next as int,
                )[k] < n by {
                    if k < walk.len() {
                        assert(walk.push(next as int)[k] == walk[k]);
                    }
                }
                walk = walk.push(next as int);
                lemma_simple_walk_bounded(walk, n as int);
            }
            current = next;
        }
    }

    /// Finds the imports and exports that remain after resolution and the
    /// definition that every node stands for. Exports named in `keep_exports`
    /// remain even when an import uses them.
    pub fn reduce_dependencies<Kind>(
        &self,
        keep_exports: Option<&Vec<ExportIdentifier<IdentifierItem<Kind>>>>,
    ) -> (r: ReducedDependencies)
        requires
            self.wf(),
            exports_backed(self@),
        ensures
            reduction_of(self@, self.edges(), keep_views(keep_exports), r),
    {
        let n = self.len();
        let ghost nodes = self@;
        let ghost edges = self.edges();
        let ghost keep = match keep_exports {
            Some(k) => Some(identifier_views(k@)),
            None => None,
        };
        let mut remaining_imports: Vec<Import> = Vec::new();
        let mut remaining_exports: Vec<Export> = Vec::new();
        let mut sources: Vec<bool> = Vec::new();

        // Step 1: Identify sources, remaining_imports and remaining_exports
        let mut i: usize = 0;
        while i < n
            invariant
                self.wf(),
                n == nodes.len(),
                nodes == self@,
                edges == self.edges(),
                keep == match keep_exports {
                    Some(k) => Some(identifier_views(k@)),
                    None => None,
                },
                i <= n,
                sources@.len() == i,
                forall|k: int| 0 <= k < i ==> #[trigger] sources@[k] == is_source(nodes, edges, k),
                import_views(remaining_imports@).no_duplicates(),
                export_views(remaining_exports@).no_duplicates(),
                forall|v: ImportView|
                    import_views(remaining_imports@).contains(v) <==> exists|k: int|
                        0 <= k < i && #[trigger] nodes[k] == NodeView::Import(v) && !has_successor(edges, k),
                forall|v: ExportView|
                    export_views(remaining_exports@).contains(v) <==> exists|k: int|
                        0 <= k < i && #[trigger] nodes[k] == NodeView::Export(v) && (!has_predecessor(
                            edges,
                            k,
                        ) || (keep matches Some(kp) && kp.contains((v.module, v.identifier)))),
            decreases n - i,
        {
            let ghost before_imports = import_views(remaining_imports@);
            let ghost before_exports = export_views(remaining_exports@);
            let ghost mut imp_new: Set<ImportView> = Set::empty();
            let ghost mut exp_new: Set<ExportView> = Set::empty();
            match self.node(i) {
                Node::Import(import) => {
                    let successors = graph_neighbors(self.graph(), i, true);
                    let has_successors = successors.len() > 0;
                    proof {
                        if has_successor(edges, i as int) {
                            let j = choose|j: int| has_edge(edges, i as int, j);
                            let e = choose|e: int| 0 <= e < edges.len() && edges[e].0 == i && edges[e].1 == j;
                            assert(successors@.contains(edges[e].1));
                        }
                        if has_successors {
                            assert(successors@.contains(successors@[0]));
                        }
                    }
                    if !has_successors {
                        push_import_unique(&mut remaining_imports, import.duplicate());
                        proof {
                            imp_new = Set::empty().insert(import@);
                        }
                    }
                    sources.push(!has_successors);
                },
                Node::Export(export) => {
                    let predecessors = graph_neighbors(self.graph(), i, false);
                    let has_predecessors = predecessors.len() > 0;
                    proof {
                        if has_predecessor(edges, i as int) {
                            let j = choose|j: int| has_edge(edges, j, i as int);
                            let e = choose|e: int| 0 <= e < edges.len() && edges[e].0 == j && edges[e].1 == i;
                            assert(predecessors@.contains(edges[e].0));
                        }
                        if has_predecessors {
                            assert(predecessors@.contains(predecessors@[0]));
                        }
                    }
                    if !has_predecessors {
                        push_export_unique(&mut remaining_exports, export.duplicate());
                        proof {
                            exp_new = Set::empty().insert(export@);
                        }
                    }
                    if let Some(keep) = keep_exports {
                        if contains_identifier(keep, &export.module, &export.identifier) {
                            push_export_unique(&mut remaining_exports, export.duplicate());
                            proof {
                                exp_new = Set::empty().insert(export@);
                            }
                        }
                    }
                    sources.push(false);
                },
                // Locals are self-defined
                Node::Local(_) => {
                    sources.push(true);
                },
            }
            proof {
                assert(import_views(remaining_imports@).to_set() =~= before_imports.to_set().union(imp_new));
                assert(export_views(remaining_exports@).to_set() =~= before_exports.to_set().union(exp_new));
                assert forall|v: ImportView|
                    import_views(remaining_imports@).contains(v) <==> exists|k: int|
                        0 <= k < i + 1 && #[trigger] nodes[k] == NodeView::Import(v) && !has_successor(edges, k) by {
                    assert(import_views(remaining_imports@).contains(v) == import_views(remaining_imports@).to_set().contains(v));
                    assert(before_imports.contains(v) == before_imports.to_set().contains(v));
                    if exists|k: int| 0 <= k < i + 1 && #[trigger] nodes[k] == NodeView::Import(v) && !has_successor(edges, k) {
                        let k = choose|k: int| 0 <= k < i + 1 && #[trigger] nodes[k] == NodeView::Import(v) && !has_successor(edges, k);
                        if k == i {
                            assert(imp_new.contains(v));
                        }
                    }
                }
                assert forall|v: ExportView|
                    export_views(remaining_exports@).contains(v) <==> exists|k: int|
                        0 <= k < i + 1 && #[trigger] nodes[k] == NodeView::Export(v) && (!has_predecessor(
                            edges,
                            k,
                        ) || (keep matches Some(kp) && kp.contains((v.module, v.identifier)))) by {
                    assert(export_views(remaining_exports@).contains(v) == export_views(remaining_exports@).to_set().contains(v));
                    assert(before_exports.contains(v) == before_exports.to_set().contains(v));
                    if exists|k: int| 0 <= k < i + 1 && #[trigger] nodes[k] == NodeView::Export(v) && (!has_predecessor(
                            edges,
                            k,
                        ) || (keep matches Some(kp) && kp.contains((v.module, v.identifier)))) {
                        let k = choose|k: int| 0 <= k < i + 1 && #[trigger] nodes[k] == NodeView::Export(v) && (!has_predecessor(
                            edges,
                            k,
                        ) || (keep matches Some(kp) && kp.contains((v.module, v.identifier))));
                        if k == i {
                            assert(exp_new.contains(v));
                        }
                    }
                }
            }
            i = i + 1;
        }

        // Step 2: For each node, find what it reduces to via forward traversal
        let mut reduction_map: Vec<(Node, Node)> = Vec::new();
        let mut i: usize = 0;
        while i < n
            invariant
                self.wf(),
                exports_backed(self@),
                n == nodes.len(),
                nodes == self@,
                edges == self.edges(),
                i <= n,
                sources@.len() == n,
                forall|k: int| 0 <= k < n ==> #[trigger] sources@[k] == is_source(nodes, edges, k),
                reduction_map@.len() == i,
                forall|k: int|
                    0 <= k < i ==> (#[trigger] reduction_map@[k]).0@ == nodes[k] && exists|s: int|
                        0 <= s < n && reduction_map@[k].1@ == nodes[s] && is_source(nodes, edges, s)
                            && reachable(edges, k, s),
            decreases n - i,
        {
            let source = self.find_reduction_source(i, &sources);
            reduction_map.push((self.node(i).duplicate(), self.node(source).duplicate()));
            proof {
                assert(reduction_map@[i as int].1@ == nodes[source as int]);
            }
            i = i + 1;
        }

        // Step 3: Check for clashing exports
        let clashing_exports = clashes(&remaining_exports);

        ReducedDependencies { reduction_map, remaining_imports, remaining_exports, clashing_exports }
    }
}

/// The identifiers of the exports whose name another export of the list shares.
fn clashes(remaining: &Vec<Export>) -> (r: Vec<ExportIdentifier<IdentifierItem<()>>>)
    ensures
        forall|v: (Seq<char>, Seq<char>)|
            identifier_views(r@).contains(v) <==> is_clashing(export_views(remaining@), v),
        identifier_views(r@).no_duplicates(),
{
    let ghost views = export_views(remaining@);
    let mut result: Vec<ExportIdentifier<IdentifierItem<()>>> = Vec::new();
    let mut i: usize = 0;
    while i < remaining.len()
        invariant
            views == export_views(remaining@),
            i <= remaining@.len(),
            identifier_views(result@).no_duplicates(),
            forall|v: (Seq<char>, Seq<char>)|
                identifier_views(result@).contains(v) <==> exists|a: int, b: int|
                    0 <= a < i && 0 <= b < views.len() && a != b && (#[trigger] views[a]).module == v.0
                        && views[a].identifier == v.1 && (#[trigger] views[b]).identifier == v.1,
        decreases remaining@.len() - i,
    {
        let mut shared = false;
        let mut j: usize = 0;
        while j < remaining.len()
            invariant
                views == export_views(remaining@),
                i < remaining@.len(),
                j <= remaining@.len(),
                shared == exists|b: int|
                    0 <= b < j && b != i && (#[trigger] views[b]).identifier == views[i as int].identifier,
            decreases remaining@.len() - j,
        {
            if j != i && remaining[j].identifier == remaining[i].identifier {
                shared = true;
                assert(views[j as int].identifier == views[i as int].identifier);
            }
            proof {
                if shared {
                    let b = choose|b: int|
                        0 <= b < j + 1 && b != i && (#[trigger] views[b]).identifier == views[i as int].identifier;
                }
                if exists|b: int| 0 <= b < j + 1 && b != i && (#[trigger] views[b]).identifier == views[i as int].identifier {
                    let b = choose|b: int|
                        0 <= b < j + 1 && b != i && (#[trigger] views[b]).identifier == views[i as int].identifier;
                    if b == j {
                        assert(views[j as int] == remaining@[j as int]@);
                        assert(views[i as int] == remaining@[i as int]@);
                    }
                }
            }
            j = j + 1;
        }
        let ghost before = identifier_views(result@);
        let ghost item = (views[i as int].module, views[i as int].identifier);
        if shared {
            assert(views[i as int] == remaining@[i as int]@);
            insert_identifier(&mut result, remaining[i].module.duplicate(), remaining[i].identifier.clone());
        }
        proof {
            assert forall|v: (Seq<char>, Seq<char>)|
                identifier_views(result@).contains(v) <==> exists|a: int, b: int|
                    0 <= a < i + 1 && 0 <= b < views.len() && a != b && (#[trigger] views[a]).module == v.0
                        && views[a].identifier == v.1 && (#[trigger] views[b]).identifier == v.1 by {
                if identifier_views(result@).contains(v) {
                    assert(identifier_views(result@).to_set().contains(v));
                    if !before.contains(v) {
                        assert(shared);
                        assert(before.to_set().insert(item).contains(v));
                        assert(v == item);
                        let b = choose|b: int|
                            0 <= b < remaining@.len() && b != i && (#[trigger] views[b]).identifier == views[i as int].identifier;
                        assert(views[i as int].module == v.0 && views[i as int].identifier == v.1);
                    }
                }
                if exists|a: int, b: int|
                    0 <= a < i + 1 && 0 <= b < views.len() && a != b && (#[trigger] views[a]).module == v.0
                        && views[a].identifier == v.1 && (#[trigger] views[b]).identifier == v.1 {
                    let (a, b) = choose|a: int, b: int|
                        0 <= a < i + 1 && 0 <= b < views.len() && a != b && (#[trigger] views[a]).module == v.0
                            && views[a].identifier == v.1 && (#[trigger] views[b]).identifier == v.1;
                    if a < i {
                        assert(before.contains(v));
                        assert(before.to_set().contains(v));
                        if shared {
                            assert(identifier_views(result@).to_set().contains(v));
                        }
                    } else {
                        assert(shared);
                        assert(v == item);
                        assert(identifier_views(result@).to_set().contains(v));
                    }
                }
            }
        }
        i = i + 1;
    }
    result
}

} // verus!
