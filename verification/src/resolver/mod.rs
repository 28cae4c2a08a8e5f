//! Import/export resolution of one kind of item.
//!
//! Every import, local definition and export of every module becomes a node
//! of a dependency graph. Linking draws an edge from each import to the export
//! that satisfies it, and from each export to the import or local it exports.
//! A link that would close a cycle means that no module actually defines the
//! item: resolution fails.
use crate::graph::{
    cyclic, edges_within, graph_add_node, graph_edge_list, graph_edges, graph_find_edge, graph_new,
    graph_node_count, graph_remove_edge, graph_try_add_edge, has_edge, index_limit, is_path,
    lemma_acyclic_within, lemma_no_edges_acyclic, lemma_path_within, lemma_prefix_within, lemma_push_closes_cycle,
    lemma_push_keeps_acyclic, DependencyGraph, Edge, EdgeTriple,
};
use crate::kinds::IdentifierModule;
use vstd::prelude::*;


pub mod dependency_reduction;
pub mod order;
pub mod nodes;

pub use nodes::{
    node_type, Export, ExportView, Import, ImportData, ImportView, ItemType, ItemTypeView, Local,
    LocalView, Node, NodeView,
};

verus! {

/// The linking of the given items would close a cycle: an import that,
/// through exports and re-imports, only ever stands for itself.
#[derive(Debug, Clone, Copy, PartialEq, Eq, Structural)]
pub struct Cycles;

/// Imports that were linked to an export of another type: the pairs
/// (import, export) of every such link.
#[derive(Debug)]
pub struct TypeMismatch(pub Vec<(Node, Node)>);

/// `n` is the export of `module` named `identifier`.
pub open spec fn export_matches(n: NodeView, module: Seq<char>, identifier: Seq<char>) -> bool {
    n matches NodeView::Export(e) && e.module == module && e.identifier == identifier
}

/// `n` is the import or local of `module` at `index`.
pub open spec fn definition_matches(n: NodeView, module: Seq<char>, index: u64) -> bool {
    match n {
        NodeView::Import(i) => i.importing_module == module && i.imported_index == index,
        NodeView::Local(l) => l.module == module && l.index == index,
        NodeView::Export(_) => false,
    }
}

/// The last node among the first `n` that exports `identifier` from `module`
/// (a later export under the same name replaces an earlier one).
pub open spec fn last_export(nodes: Seq<NodeView>, module: Seq<char>, identifier: Seq<char>, n: nat) -> Option<int>
    decreases n,
{
    if n == 0 {
        None
    } else if export_matches(nodes[n - 1], module, identifier) {
        Some(n - 1)
    } else {
        last_export(nodes, module, identifier, (n - 1) as nat)
    }
}

/// The last node among the first `n` that is the import or local at `index`
/// of `module` (a later one at the same index replaces an earlier one).
pub open spec fn last_definition(nodes: Seq<NodeView>, module: Seq<char>, index: u64, n: nat) -> Option<int>
    decreases n,
{
    if n == 0 {
        None
    } else if definition_matches(nodes[n - 1], module, index) {
        Some(n - 1)
    } else {
        last_definition(nodes, module, index, (n - 1) as nat)
    }
}

/// The node that node `i` is linked to: an import to the export it names, an
/// export to the item it exports; a local to nothing.
pub open spec fn link_target(nodes: Seq<NodeView>, i: int) -> Option<int> {
    match nodes[i] {
        NodeView::Import(imp) => last_export(
            nodes,
            imp.exporting_module,
            imp.exporting_identifier,
            nodes.len(),
        ),
        NodeView::Export(e) => last_definition(nodes, e.module, e.index, nodes.len()),
        NodeView::Local(_) => None,
    }
}

/// The label of the edges leaving a node.
pub open spec fn edge_label(n: NodeView) -> Edge {
    if n is Import {
        Edge::Imports
    } else {
        Edge::Exports
    }
}

/// The links of the first `k` nodes, in node order.
pub open spec fn links_upto(nodes: Seq<NodeView>, k: nat) -> Seq<EdgeTriple>
    decreases k,
{
    if k == 0 {
        Seq::empty()
    } else {
        let prev = links_upto(nodes, (k - 1) as nat);
        match link_target(nodes, k - 1) {
            Some(j) => prev.push(((k - 1) as usize, j as usize, edge_label(nodes[k - 1]))),
            None => prev,
        }
    }
}

/// All links of the nodes, in node order.
pub open spec fn links(nodes: Seq<NodeView>) -> Seq<EdgeTriple> {
    links_upto(nodes, nodes.len())
}

/// `e` is the link of its source node.
pub open spec fn is_link(nodes: Seq<NodeView>, e: EdgeTriple) -> bool {
    &&& e.0 < nodes.len()
    &&& e.1 < nodes.len()
    &&& link_target(nodes, e.0 as int) == Some(e.1 as int)
    &&& e.2 == edge_label(nodes[e.0 as int])
}

/// The view of a sequence of nodes.
pub open spec fn views(nodes: Seq<Node>) -> Seq<NodeView> {
    nodes.map_values(|n: Node| n@)
}

/// The last export of a name, if any, is a node that exports it.
pub proof fn lemma_last_export(nodes: Seq<NodeView>, module: Seq<char>, identifier: Seq<char>, n: nat)
    requires
        n <= nodes.len(),
    ensures
        last_export(nodes, module, identifier, n) matches Some(j) ==> 0 <= j < n && export_matches(
            nodes[j],
            module,
            identifier,
        ),
    decreases n,
{
    if n > 0 {
        lemma_last_export(nodes, module, identifier, (n - 1) as nat);
    }
}

/// The last definition of an index, if any, is a node that defines it.
pub proof fn lemma_last_definition(nodes: Seq<NodeView>, module: Seq<char>, index: u64, n: nat)
    requires
        n <= nodes.len(),
    ensures
        last_definition(nodes, module, index, n) matches Some(j) ==> 0 <= j < n
            && definition_matches(nodes[j], module, index),
    decreases n,
{
    if n > 0 {
        lemma_last_definition(nodes, module, index, (n - 1) as nat);
    }
}

/// A link leads from an import to an export, or from an export to an import
/// or a local.
pub proof fn lemma_link_target(nodes: Seq<NodeView>, i: int)
    requires
        0 <= i < nodes.len(),
    ensures
        link_target(nodes, i) matches Some(j) ==> 0 <= j < nodes.len() && (nodes[i] is Import
            ==> nodes[j] is Export) && (nodes[i] is Export ==> !(nodes[j] is Export)),
        nodes[i] is Local ==> link_target(nodes, i) is None,
{
    match nodes[i] {
        NodeView::Import(imp) => lemma_last_export(
            nodes,
            imp.exporting_module,
            imp.exporting_identifier,
            nodes.len(),
        ),
        NodeView::Export(e) => lemma_last_definition(nodes, e.module, e.index, nodes.len()),
        NodeView::Local(_) => {},
    }
}

/// The links are links of their sources, listed by increasing source, and
/// every node with a target has its link.
pub proof fn lemma_links_upto(nodes: Seq<NodeView>, k: nat)
    requires
        k <= nodes.len() <= index_limit(),
    ensures
        links_upto(nodes, k).len() <= k,
        forall|m: int|
            0 <= m < links_upto(nodes, k).len() ==> is_link(nodes, #[trigger] links_upto(nodes, k)[m])
                && links_upto(nodes, k)[m].0 < k,
        forall|m1: int, m2: int|
            0 <= m1 < m2 < links_upto(nodes, k).len() ==> #[trigger] links_upto(nodes, k)[m1].0
                < #[trigger] links_upto(nodes, k)[m2].0,
        forall|i: int|
            0 <= i < k && #[trigger] link_target(nodes, i) is Some ==> has_edge(
                links_upto(nodes, k),
                i,
                link_target(nodes, i)->0,
            ),
    decreases k,
{
    if k > 0 {
        lemma_links_upto(nodes, (k - 1) as nat);
        lemma_link_target(nodes, k - 1);
        let prev = links_upto(nodes, (k - 1) as nat);
        let cur = links_upto(nodes, k);
        assert forall|i: int|
            0 <= i < k && #[trigger] link_target(nodes, i) is Some implies has_edge(
            cur,
            i,
            link_target(nodes, i)->0,
        ) by {
            if i < k - 1 {
                let m = choose|m: int|
                    0 <= m < prev.len() && prev[m].0 == i && prev[m].1 == link_target(nodes, i)->0;
                assert(cur[m] == prev[m]);
            } else {
                assert(cur[prev.len() as int].0 == i);
            }
        }
    }
}

/// The links of all nodes have the properties of [`lemma_links_upto`].
pub proof fn lemma_links(nodes: Seq<NodeView>)
    requires
        nodes.len() <= index_limit(),
    ensures
        links(nodes).len() <= nodes.len(),
        forall|m: int| 0 <= m < links(nodes).len() ==> is_link(nodes, #[trigger] links(nodes)[m]),
        forall|m1: int, m2: int|
            0 <= m1 < m2 < links(nodes).len() ==> #[trigger] links(nodes)[m1].0
                < #[trigger] links(nodes)[m2].0,
        forall|i: int|
            0 <= i < nodes.len() && #[trigger] link_target(nodes, i) is Some ==> has_edge(
                links(nodes),
                i,
                link_target(nodes, i)->0,
            ),
{
    lemma_links_upto(nodes, nodes.len());
}

/// The graph of one kind of item, before linking: nodes only.
pub struct Resolver {
    graph: DependencyGraph,
    nodes: Vec<Node>,
}

impl View for Resolver {
    type V = Seq<NodeView>;

    closed spec fn view(&self) -> Seq<NodeView> {
        views(self.nodes@)
    }
}

impl Resolver {
    /// The graph holds exactly the nodes, and no edge yet.
    pub closed spec fn wf(&self) -> bool {
        &&& graph_node_count(self.graph) == self.nodes@.len()
        &&& graph_edges(self.graph) == Seq::<EdgeTriple>::empty()
        &&& self.nodes@.len() <= index_limit()
    }

    /// An empty resolver.
    pub fn new() -> (r: Self)
        ensures
            r.wf(),
            r@ == Seq::<NodeView>::empty(),
    {
        let r = Resolver { graph: graph_new(), nodes: Vec::new() };
        assert(r@ =~= Seq::<NodeView>::empty());
        r
    }

    /// The number of nodes.
    pub fn len(&self) -> (r: usize)
        ensures
            r == self@.len(),
    {
        self.nodes.len()
    }

    /// A well-formed resolver holds no more nodes than a graph can index.
    pub proof fn lemma_wf_len(&self)
        requires
            self.wf(),
        ensures
            self@.len() <= index_limit(),
    {
    }

    fn add_node(&mut self, node: Node)
        requires
            old(self).wf(),
            old(self)@.len() < index_limit(),
        ensures
            final(self).wf(),
            final(self)@ == old(self)@.push(node@),
    {
        let _ = graph_add_node(&mut self.graph);
        self.nodes.push(node);
        assert(self@ =~= old(self)@.push(node@));
    }

    /// Adds an import.
    pub fn add_import(&mut self, import: Import)
        requires
            old(self).wf(),
            old(self)@.len() < index_limit(),
        ensures
            final(self).wf(),
            final(self)@ == old(self)@.push(NodeView::Import(import@)),
    {
        self.add_node(Node::Import(import));
    }

    /// Adds a locally defined item.
    pub fn add_local(&mut self, local: Local)
        requires
            old(self).wf(),
            old(self)@.len() < index_limit(),
        ensures
            final(self).wf(),
            final(self)@ == old(self)@.push(NodeView::Local(local@)),
    {
        self.add_node(Node::Local(local));
    }

    /// Adds an export.
    pub fn add_export(&mut self, export: Export)
        requires
            old(self).wf(),
            old(self)@.len() < index_limit(),
        ensures
            final(self).wf(),
            final(self)@ == old(self)@.push(NodeView::Export(export@)),
    {
        self.add_node(Node::Export(export));
    }

    /// The last export of `module` named `identifier`.
    fn find_export(&self, module: &IdentifierModule, identifier: &String) -> (r: Option<usize>)
        ensures
            r matches Some(j) ==> last_export(self@, module@, identifier@, self@.len()) == Some(
                j as int,
            ),
            r is None ==> last_export(self@, module@, identifier@, self@.len()) is None,
    {
        let mut j = self.nodes.len();
        while j > 0
            invariant
                j <= self.nodes@.len(),
                last_export(self@, module@, identifier@, self@.len()) == last_export(
                    self@,
                    module@,
                    identifier@,
                    j as nat,
                ),
            decreases j,
        {
            let hit = match &self.nodes[j - 1] {
                Node::Export(e) => e.module.same(module) && e.identifier == *identifier,
                _ => false,
            };
            if hit {
                return Some(j - 1);
            }
            j = j - 1;
        }
        None
    }

    /// The last import or local of `module` at `index`.
    fn find_definition(&self, module: &IdentifierModule, index: u64) -> (r: Option<usize>)
        ensures
            r matches Some(j) ==> last_definition(self@, module@, index, self@.len()) == Some(
                j as int,
            ),
            r is None ==> last_definition(self@, module@, index, self@.len()) is None,
    {
        let mut j = self.nodes.len();
        while j > 0
            invariant
                j <= self.nodes@.len(),
                last_definition(self@, module@, index, self@.len()) == last_definition(
                    self@,
                    module@,
                    index,
                    j as nat,
                ),
            decreases j,
        {
            let hit = match &self.nodes[j - 1] {
                Node::Import(i) => i.importing_module.same(module) && i.imported_index == index,
                Node::Local(l) => l.module.same(module) && l.index == index,
                Node::Export(_) => false,
            };
            if hit {
                return Some(j - 1);
            }
            j = j - 1;
        }
        None
    }

    /// The links of all nodes, in node order.
    fn identify_links(&self) -> (r: Vec<EdgeTriple>)
        ensures
            r@ == links(self@),
    {
        let mut result: Vec<EdgeTriple> = Vec::new();
        let mut i: usize = 0;
        while i < self.nodes.len()
            invariant
                i <= self.nodes@.len(),
                result@ == links_upto(self@, i as nat),
            decreases self.nodes@.len() - i,
        {
            let target = match &self.nodes[i] {
                // An import link is made to wherever the corresponding export is
                Node::Import(import) => self.find_export(
                    &import.exporting_module,
                    &import.exporting_identifier,
                ),
                // A local is not linked to anything else, it is self-defined
                Node::Local(_) => None,
                // An export link is made to wherever the corresponding definition is
                Node::Export(export) => self.find_definition(&export.module, export.index),
            };
            let label = match &self.nodes[i] {
                Node::Import(_) => Edge::Imports,
                _ => Edge::Exports,
            };
            if let Some(j) = target {
                result.push((i, j, label));
            }
            i = i + 1;
        }
        result
    }

    /// Links every import to the export it names and every export to the
    /// item it exports. Fails exactly when these links form a cycle.
    pub fn link_nodes(self) -> (r: Result<Linked, Cycles>)
        requires
            self.wf(),
        ensures
            r is Ok <==> !cyclic(links(self@)),
            r matches Ok(linked) ==> linked.wf() && linked@ == self@ && linked.edges() == links(
                self@,
            ),
    {
        let ghost nodes = self@;
        let found = self.identify_links();
        proof {
            lemma_links(nodes);
            lemma_no_edges_acyclic(found@.take(0));
        }
        let Resolver { graph, nodes: node_vec } = self;
        let mut graph = graph;
        assert(views(node_vec@) == nodes);
        let mut k: usize = 0;
        while k < found.len()
            invariant
                nodes == self@,
                found@ == links(nodes),
                k <= found@.len(),
                found@.len() <= nodes.len() <= index_limit(),
                graph_node_count(graph) == nodes.len(),
                graph_edges(graph) == found@.take(k as int),
                !cyclic(found@.take(k as int)),
                forall|m: int| 0 <= m < found@.len() ==> is_link(nodes, #[trigger] found@[m]),
            decreases found@.len() - k,
        {
            let (from, to, edge) = found[k];
            assert(is_link(nodes, found@[k as int]));
            let added = graph_try_add_edge(&mut graph, from, to, edge);
            if !added {
                proof {
                    lemma_push_closes_cycle(found@.take(k as int), found@[k as int]);
                    assert(found@.take(k as int).push(found@[k as int]) =~= found@.take(k + 1));
                    lemma_prefix_within(found@, k + 1);
                    let p = choose|p: Seq<int>|
                        #[trigger] is_path(found@.take(k + 1), p) && p.len() >= 2 && p[0] == p.last();
                    lemma_path_within(found@.take(k + 1), found@, p);
                    assert(is_path(found@, p) && p.len() >= 2 && p[0] == p.last());
                    assert(cyclic(links(nodes)));
                }
                return Err(Cycles);
            }
            proof {
                lemma_push_keeps_acyclic(found@.take(k as int), found@[k as int]);
                assert(found@.take(k as int).push(found@[k as int]) =~= found@.take(k + 1));
            }
            k = k + 1;
        }
        assert(found@.take(found@.len() as int) =~= found@);
        let linked = Linked { graph, nodes: node_vec };
        proof {
            assert forall|i: int, j: int|
                0 <= i < linked.edges().len() && 0 <= j < linked.edges().len() && i != j implies
                #[trigger] linked.edges()[i].0 != #[trigger] linked.edges()[j].0 by {
                if i < j {
                } else {
                }
            }
        }
        Ok(linked)
    }
}

/// `e` is a link from an import to an export of a different type.
pub open spec fn mismatch(nodes: Seq<NodeView>, e: EdgeTriple) -> bool {
    e.2 == Edge::Imports && node_type(nodes[e.0 as int]) != node_type(nodes[e.1 as int])
}

/// The mismatching edges among the first `k`, as pairs of endpoints.
pub open spec fn mismatches_upto(nodes: Seq<NodeView>, edges: Seq<EdgeTriple>, k: nat) -> Seq<(usize, usize)>
    decreases k,
{
    if k == 0 {
        Seq::empty()
    } else {
        let prev = mismatches_upto(nodes, edges, (k - 1) as nat);
        if mismatch(nodes, edges[k - 1]) {
            prev.push((edges[k - 1].0, edges[k - 1].1))
        } else {
            prev
        }
    }
}

/// The (import, export) pairs that are linked with different types, in link order.
pub open spec fn mismatch_pair_views(nodes: Seq<NodeView>) -> Seq<(NodeView, NodeView)> {
    mismatches_upto(nodes, links(nodes), links(nodes).len()).map_values(
        |p: (usize, usize)| (nodes[p.0 as int], nodes[p.1 as int]),
    )
}

/// The views of a sequence of node pairs.
pub open spec fn node_pair_views(pairs: Seq<(Node, Node)>) -> Seq<(NodeView, NodeView)> {
    pairs.map_values(|p: (Node, Node)| (p.0@, p.1@))
}

/// `(a, b)` are the endpoints of a mismatching edge.
pub open spec fn is_mismatch_pair(nodes: Seq<NodeView>, edges: Seq<EdgeTriple>, a: int, b: int) -> bool {
    exists|i: int| 0 <= i < edges.len() && edges[i].0 == a && edges[i].1 == b && mismatch(nodes, edges[i])
}

proof fn lemma_mismatches_upto(nodes: Seq<NodeView>, edges: Seq<EdgeTriple>, k: nat)
    requires
        k <= edges.len(),
    ensures
        forall|a: int, b: int|
            #[trigger] mismatches_upto(nodes, edges, k).contains((a as usize, b as usize)) && 0 <= a
                && 0 <= b && a <= usize::MAX && b <= usize::MAX ==> exists|i: int|
                0 <= i < k && edges[i].0 == a && edges[i].1 == b && mismatch(nodes, edges[i]),
        forall|i: int|
            0 <= i < k && #[trigger] mismatch(nodes, edges[i]) ==> mismatches_upto(
                nodes,
                edges,
                k,
            ).contains((edges[i].0, edges[i].1)),
        forall|m: int|
            0 <= m < mismatches_upto(nodes, edges, k).len() ==> exists|i: int|
                0 <= i < k && edges[i].0 == #[trigger] mismatches_upto(nodes, edges, k)[m].0
                    && edges[i].1 == mismatches_upto(nodes, edges, k)[m].1 && mismatch(
                    nodes,
                    edges[i],
                ),
        (mismatches_upto(nodes, edges, k).len() == 0) == (forall|i: int|
            0 <= i < k ==> !mismatch(nodes, #[trigger] edges[i])),
    decreases k,
{
    if k > 0 {
        lemma_mismatches_upto(nodes, edges, (k - 1) as nat);
        let prev = mismatches_upto(nodes, edges, (k - 1) as nat);
        let cur = mismatches_upto(nodes, edges, k);
        assert forall|m: int| 0 <= m < cur.len() implies exists|i: int|
            0 <= i < k && edges[i].0 == #[trigger] cur[m].0 && edges[i].1 == cur[m].1 && mismatch(
                nodes,
                edges[i],
            ) by {
            if m < prev.len() {
                assert(cur[m] == prev[m]);
            } else {
                assert(edges[k - 1].0 == cur[m].0);
            }
        }
        assert forall|a: int, b: int|
            #[trigger] cur.contains((a as usize, b as usize)) && 0 <= a && 0 <= b && a <= usize::MAX
                && b <= usize::MAX implies exists|i: int|
            0 <= i < k && edges[i].0 == a && edges[i].1 == b && mismatch(nodes, edges[i]) by {
            let m = choose|m: int| 0 <= m < cur.len() && cur[m] == (a as usize, b as usize);
            assert(cur[m].0 == a && cur[m].1 == b);
        }
        assert forall|i: int| 0 <= i < k && #[trigger] mismatch(nodes, edges[i]) implies cur.contains(
            (edges[i].0, edges[i].1),
        ) by {
            if i < k - 1 {
                let m = choose|m: int| 0 <= m < prev.len() && prev[m] == (edges[i].0, edges[i].1);
                assert(cur[m] == prev[m]);
            } else {
                assert(cur[prev.len() as int] == (edges[i].0, edges[i].1));
            }
        }
        if cur.len() == 0 {
            assert forall|i: int| 0 <= i < k implies !mismatch(nodes, #[trigger] edges[i]) by {
                if mismatch(nodes, edges[i]) {
                    assert(cur.contains((edges[i].0, edges[i].1)));
                }
            }
        }
        if forall|i: int| 0 <= i < k ==> !mismatch(nodes, #[trigger] edges[i]) {
            assert(!mismatch(nodes, edges[k - 1]));
        }
    }
}

/// The first `n` edges without those that link an import to an export of a
/// different type.
pub open spec fn without_mismatches(nodes: Seq<NodeView>, edges: Seq<EdgeTriple>, n: nat) -> Seq<EdgeTriple>
    decreases n,
{
    if n == 0 {
        Seq::empty()
    } else {
        let prev = without_mismatches(nodes, edges, (n - 1) as nat);
        if mismatch(nodes, edges[n - 1]) {
            prev
        } else {
            prev.push(edges[n - 1])
        }
    }
}

/// The edges of the graph once linked and type-checked: all links, or, when
/// mismatches are ignored, the links between items of equal type.
pub open spec fn resolved_edges(nodes: Seq<NodeView>, ignore_mismatches: bool) -> Seq<EdgeTriple> {
    if ignore_mismatches {
        without_mismatches(nodes, links(nodes), links(nodes).len())
    } else {
        links(nodes)
    }
}

/// Some import is linked to an export of a different type.
pub open spec fn has_mismatch(nodes: Seq<NodeView>) -> bool {
    exists|i: int| 0 <= i < links(nodes).len() && mismatch(nodes, #[trigger] links(nodes)[i])
}

/// The edges left of the first `n` are those that do not mismatch.
pub proof fn lemma_without_mismatches(nodes: Seq<NodeView>, edges: Seq<EdgeTriple>, n: nat)
    requires
        n <= edges.len(),
    ensures
        forall|a: int, b: int|
            #[trigger] has_edge(without_mismatches(nodes, edges, n), a, b) <==> exists|i: int|
                0 <= i < n && edges[i].0 == a && edges[i].1 == b && !mismatch(nodes, edges[i]),
    decreases n,
{
    if n > 0 {
        lemma_without_mismatches(nodes, edges, (n - 1) as nat);
        let prev = without_mismatches(nodes, edges, (n - 1) as nat);
        let cur = without_mismatches(nodes, edges, n);
        assert forall|a: int, b: int|
            #[trigger] has_edge(cur, a, b) <==> exists|i: int|
                0 <= i < n && edges[i].0 == a && edges[i].1 == b && !mismatch(nodes, edges[i]) by {
            if has_edge(cur, a, b) {
                let x = choose|x: int| 0 <= x < cur.len() && cur[x].0 == a && cur[x].1 == b;
                if x < prev.len() {
                    assert(cur[x] == prev[x]);
                    assert(has_edge(prev, a, b));
                } else {
                    assert(cur[x] == edges[n - 1]);
                }
            }
            if exists|i: int| 0 <= i < n && edges[i].0 == a && edges[i].1 == b && !mismatch(nodes, edges[i]) {
                let i = choose|i: int| 0 <= i < n && edges[i].0 == a && edges[i].1 == b && !mismatch(nodes, edges[i]);
                if i < n - 1 {
                    assert(has_edge(prev, a, b));
                    let x = choose|x: int| 0 <= x < prev.len() && prev[x].0 == a && prev[x].1 == b;
                    if !mismatch(nodes, edges[n - 1]) {
                        assert(cur[x] == prev[x]);
                    }
                } else {
                    assert(cur[prev.len() as int] == edges[n - 1]);
                }
            }
        }
    }
}

/// The pairs of endpoints of the links without mismatches are those of the
/// links that are not mismatch pairs.
pub proof fn lemma_resolved_edges(nodes: Seq<NodeView>)
    requires
        nodes.len() <= index_limit(),
    ensures
        forall|a: int, b: int|
            #[trigger] has_edge(resolved_edges(nodes, true), a, b) <==> has_edge(links(nodes), a, b)
                && !is_mismatch_pair(nodes, links(nodes), a, b),
{
    let l = links(nodes);
    lemma_links(nodes);
    lemma_without_mismatches(nodes, l, l.len());
    assert forall|a: int, b: int|
        #[trigger] has_edge(resolved_edges(nodes, true), a, b) <==> has_edge(l, a, b)
            && !is_mismatch_pair(nodes, l, a, b) by {
        if has_edge(resolved_edges(nodes, true), a, b) {
            let i = choose|i: int| 0 <= i < l.len() && l[i].0 == a && l[i].1 == b && !mismatch(nodes, l[i]);
            if is_mismatch_pair(nodes, l, a, b) {
                let j = choose|j: int| 0 <= j < l.len() && l[j].0 == a && l[j].1 == b && mismatch(nodes, l[j]);
                assert(is_link(nodes, l[i]));
                assert(is_link(nodes, l[j]));
            }
        }
        if has_edge(l, a, b) && !is_mismatch_pair(nodes, l, a, b) {
            let i = choose|i: int| 0 <= i < l.len() && l[i].0 == a && l[i].1 == b;
        }
    }
}

/// Removing one edge of a graph whose edges have distinct sources removes
/// exactly the pair of endpoints of that edge.
proof fn lemma_remove_unique_source(edges: Seq<EdgeTriple>, i: int)
    requires
        0 <= i < edges.len(),
        forall|j: int, k: int|
            0 <= j < edges.len() && 0 <= k < edges.len() && j != k ==> #[trigger] edges[j].0
                != #[trigger] edges[k].0,
    ensures
        ({
            let rest = edges.update(i, edges.last()).drop_last();
            &&& forall|a: int, b: int|
                #[trigger] has_edge(rest, a, b) <==> has_edge(edges, a, b) && !(a == edges[i].0
                    && b == edges[i].1)
            &&& forall|j: int|
                0 <= j < rest.len() ==> exists|k: int|
                    0 <= k < edges.len() && k != i && #[trigger] rest[j] == edges[k]
            &&& forall|j: int, k: int|
                0 <= j < rest.len() && 0 <= k < rest.len() && j != k ==> #[trigger] rest[j].0
                    != #[trigger] rest[k].0
            &&& edges_within(rest, edges)
        }),
{
    let rest = edges.update(i, edges.last()).drop_last();
    let last = edges.len() - 1;
    assert forall|j: int| 0 <= j < rest.len() implies exists|k: int|
        0 <= k < edges.len() && k != i && #[trigger] rest[j] == edges[k] by {
        if j == i {
            assert(rest[j] == edges[last]);
        } else {
            assert(rest[j] == edges[j]);
        }
    }
    assert forall|a: int, b: int| #[trigger] has_edge(rest, a, b) <==> has_edge(edges, a, b) && !(a
        == edges[i].0 && b == edges[i].1) by {
        if has_edge(rest, a, b) {
            let j = choose|j: int| 0 <= j < rest.len() && rest[j].0 == a && rest[j].1 == b;
            let k = choose|k: int| 0 <= k < edges.len() && k != i && #[trigger] rest[j] == edges[k];
            assert(edges[k].0 != edges[i].0);
        }
        if has_edge(edges, a, b) && !(a == edges[i].0 && b == edges[i].1) {
            let k = choose|k: int| 0 <= k < edges.len() && edges[k].0 == a && edges[k].1 == b;
            assert(k != i);
            if k == last {
                assert(rest[i] == edges[k]);
            } else {
                assert(rest[k] == edges[k]);
            }
        }
    }
    assert forall|j: int, k: int|
        0 <= j < rest.len() && 0 <= k < rest.len() && j != k implies #[trigger] rest[j].0
        != #[trigger] rest[k].0 by {
        let jj = if j == i { last } else { j };
        let kk = if k == i { last } else { k };
        assert(rest[j] == edges[jj]);
        assert(rest[k] == edges[kk]);
    }
}

/// Law: once the links between items of different types are removed, no
/// link between items of different types is left.
pub proof fn lemma_break_leaves_no_mismatch(nodes: Seq<NodeView>, before: Seq<EdgeTriple>, after: Seq<EdgeTriple>)
    requires
        forall|i: int| 0 <= i < before.len() ==> is_link(nodes, #[trigger] before[i]),
        forall|i: int| 0 <= i < after.len() ==> is_link(nodes, #[trigger] after[i]),
        forall|a: int, b: int|
            #[trigger] has_edge(after, a, b) <==> has_edge(before, a, b) && !is_mismatch_pair(nodes, before, a, b),
    ensures
        forall|i: int| 0 <= i < after.len() ==> !mismatch(nodes, #[trigger] after[i]),
{
    assert forall|i: int| 0 <= i < after.len() implies !mismatch(nodes, #[trigger] after[i]) by {
        let e = after[i];
        assert(is_link(nodes, e));
        assert(has_edge(after, e.0 as int, e.1 as int));
        let k = choose|k: int| 0 <= k < before.len() && before[k].0 == e.0 as int && before[k].1 == e.1 as int;
        assert(is_link(nodes, before[k]));
        if mismatch(nodes, e) {
            assert(mismatch(nodes, before[k]));
        }
    }
}

/// The graph of one kind of item, after linking.
pub struct Linked {
    graph: DependencyGraph,
    nodes: Vec<Node>,
}

impl View for Linked {
    type V = Seq<NodeView>;

    closed spec fn view(&self) -> Seq<NodeView> {
        views(self.nodes@)
    }
}

impl Linked {
    /// The edges of the graph, in edge-index order.
    pub closed spec fn edges(&self) -> Seq<EdgeTriple> {
        graph_edges(self.graph)
    }

    /// Every edge is the link of its source, no node has two outgoing edges,
    /// the graph is acyclic, and every export keeps the link to the item it exports.
    pub open spec fn wf(&self) -> bool {
        &&& self.node_count() == self@.len() <= index_limit()
        &&& forall|i: int| 0 <= i < self.edges().len() ==> is_link(self@, #[trigger] self.edges()[i])
        &&& forall|i: int, j: int|
            0 <= i < self.edges().len() && 0 <= j < self.edges().len() && i != j
                ==> #[trigger] self.edges()[i].0 != #[trigger] self.edges()[j].0
        &&& !cyclic(self.edges())
        &&& forall|i: int|
            0 <= i < self@.len() && #[trigger] self@[i] is Export && link_target(self@, i) is Some
                ==> has_edge(self.edges(), i, link_target(self@, i)->0)
    }

    /// The number of nodes of the graph.
    pub closed spec fn node_count(&self) -> nat {
        graph_node_count(self.graph)
    }

    /// Node `i`.
    pub fn node(&self, i: usize) -> (r: &Node)
        requires
            i < self@.len(),
        ensures
            r@ == self@[i as int],
    {
        &self.nodes[i]
    }

    /// The underlying graph.
    pub fn graph(&self) -> (r: &DependencyGraph)
        ensures
            graph_edges(*r) == self.edges(),
            graph_node_count(*r) == self.node_count(),
    {
        &self.graph
    }

    /// The number of nodes.
    pub fn len(&self) -> (r: usize)
        ensures
            r == self@.len(),
    {
        self.nodes.len()
    }

    /// The links between an import and an export of a different type, as
    /// pairs of node indices, in edge order.
    fn type_mismatches(&self) -> (r: Vec<(usize, usize)>)
        requires
            self.wf(),
        ensures
            r@ == mismatches_upto(self@, self.edges(), self.edges().len()),
    {
        let edges = graph_edge_list(&self.graph);
        let mut result: Vec<(usize, usize)> = Vec::new();
        let mut k: usize = 0;
        while k < edges.len()
            invariant
                self.wf(),
                edges@ == self.edges(),
                k <= edges@.len(),
                result@ == mismatches_upto(self@, self.edges(), k as nat),
            decreases edges@.len() - k,
        {
            let (from, to, edge) = edges[k];
            assert(is_link(self@, self.edges()[k as int]));
            let equal_type = self.nodes[from].ty_().equals(self.nodes[to].ty_());
            match edge {
                Edge::Imports => {
                    if !equal_type {
                        result.push((from, to));
                    }
                },
                // When a local is exported, the types of the export and the
                // target agree by construction.
                Edge::Exports => {},
            }
            k = k + 1;
        }
        result
    }

    /// Removes every link from an import to an export of a different type;
    /// such imports then stay unresolved.
    pub fn type_check_mismatch_break(&mut self)
        requires
            old(self).wf(),
        ensures
            final(self).wf(),
            final(self)@ == old(self)@,
            forall|a: int, b: int|
                #[trigger] has_edge(final(self).edges(), a, b) <==> has_edge(old(self).edges(), a, b)
                    && !is_mismatch_pair(old(self)@, old(self).edges(), a, b),
    {
        let mismatches = self.type_mismatches();
        let ghost nodes = old(self)@;
        let ghost initial = old(self).edges();
        proof {
            lemma_mismatches_upto(nodes, initial, initial.len());
        }
        let mut k: usize = 0;
        while k < mismatches.len()
            invariant
                self.wf(),
                self@ == nodes,
                mismatches@ == mismatches_upto(nodes, initial, initial.len()),
                forall|i: int| 0 <= i < initial.len() ==> is_link(nodes, #[trigger] initial[i]),
                k <= mismatches@.len(),
                forall|m: int|
                    0 <= m < mismatches@.len() ==> exists|i: int|
                        0 <= i < initial.len() && initial[i].0 == #[trigger] mismatches@[m].0
                            && initial[i].1 == mismatches@[m].1 && mismatch(nodes, initial[i]),
                forall|a: int, b: int|
                    #[trigger] has_edge(self.edges(), a, b) <==> has_edge(initial, a, b) && !(
                    exists|m: int|
                        0 <= m < k && mismatches@[m].0 == a && mismatches@[m].1 == b),
            decreases mismatches@.len() - k,
        {
            let (from, to) = mismatches[k];
            let ghost before = self.edges();
            let found = graph_find_edge(&self.graph, from, to);
            if let Some(e) = found {
                proof {
                    lemma_remove_unique_source(before, e as int);
                }
                let _ = graph_remove_edge(&mut self.graph, e);
                proof {
                    let now = self.edges();
                    let i = choose|i: int|
                        0 <= i < initial.len() && initial[i].0 == mismatches@[k as int].0
                            && initial[i].1 == mismatches@[k as int].1 && mismatch(nodes, initial[i]);
                    // the removed edge is a mismatch, hence an import link: exports keep theirs
                    assert forall|j: int|
                        0 <= j < now.len() implies is_link(nodes, #[trigger] now[j]) by {
                        let kk = choose|kk: int| 0 <= kk < before.len() && kk != e && #[trigger] now[j] == before[kk];
                        assert(is_link(nodes, before[kk]));
                    }
                    assert forall|x: int|
                        0 <= x < nodes.len() && #[trigger] nodes[x] is Export && link_target(nodes, x) is Some
                            implies has_edge(now, x, link_target(nodes, x)->0) by {
                        assert(has_edge(before, x, link_target(nodes, x)->0));
                        if x == before[e as int].0 && link_target(nodes, x)->0 == before[e as int].1 {
                            let y = choose|y: int| 0 <= y < initial.len() && initial[y].0 == from && initial[y].1 == to && mismatch(nodes, initial[y]);
                            assert(is_link(nodes, initial[y]));
                        }
                    }
                    lemma_acyclic_within(now, before);
                    assert forall|a: int, b: int|
                        #[trigger] has_edge(now, a, b) <==> has_edge(initial, a, b) && !(
                        exists|m: int|
                            0 <= m < k + 1 && mismatches@[m].0 == a && mismatches@[m].1 == b) by {
                        if exists|m: int| 0 <= m < k + 1 && mismatches@[m].0 == a && mismatches@[m].1 == b {
                            let m = choose|m: int| 0 <= m < k + 1 && mismatches@[m].0 == a && mismatches@[m].1 == b;
                            if m < k {
                            } else {
                            }
                        }
                    }
                    let _ = i;
                }
            } else {
                proof {
                    assert forall|a: int, b: int|
                        #[trigger] has_edge(self.edges(), a, b) <==> has_edge(initial, a, b) && !(
                        exists|m: int|
                            0 <= m < k + 1 && mismatches@[m].0 == a && mismatches@[m].1 == b) by {
                        if exists|m: int| 0 <= m < k + 1 && mismatches@[m].0 == a && mismatches@[m].1 == b {
                            let m = choose|m: int| 0 <= m < k + 1 && mismatches@[m].0 == a && mismatches@[m].1 == b;
                            if m < k {
                            } else {
                            }
                        }
                    }
                }
            }
            k = k + 1;
        }
        proof {
            assert forall|a: int, b: int|
                #[trigger] has_edge(self.edges(), a, b) <==> has_edge(initial, a, b)
                    && !is_mismatch_pair(nodes, initial, a, b) by {
                if has_edge(initial, a, b) {
                    if is_mismatch_pair(nodes, initial, a, b) {
                        let i = choose|i: int|
                            0 <= i < initial.len() && initial[i].0 == a && initial[i].1 == b
                                && mismatch(nodes, initial[i]);
                        assert(mismatches@.contains((initial[i].0, initial[i].1)));
                        let m = choose|m: int| 0 <= m < mismatches@.len() && mismatches@[m] == (initial[i].0, initial[i].1);
                        assert(mismatches@[m].0 == a && mismatches@[m].1 == b);
                    } else {
                        if exists|m: int| 0 <= m < mismatches@.len() && mismatches@[m].0 == a && mismatches@[m].1 == b {
                            let m = choose|m: int| 0 <= m < mismatches@.len() && mismatches@[m].0 == a && mismatches@[m].1 == b;
                            let i = choose|i: int|
                                0 <= i < initial.len() && initial[i].0 == #[trigger] mismatches@[m].0
                                    && initial[i].1 == mismatches@[m].1 && mismatch(nodes, initial[i]);
                        }
                    }
                }
            }
        }
    }

    /// Succeeds exactly when no import is linked to an export of a different
    /// type; otherwise reports every such (import, export) pair in edge order.
    pub fn type_check_mismatch_signal(&self) -> (r: Result<(), TypeMismatch>)
        requires
            self.wf(),
        ensures
            r is Ok <==> forall|i: int|
                0 <= i < self.edges().len() ==> !mismatch(self@, #[trigger] self.edges()[i]),
            r matches Err(TypeMismatch(pairs)) ==> pairs@.len() == mismatches_upto(
                self@,
                self.edges(),
                self.edges().len(),
            ).len() && forall|m: int|
                0 <= m < pairs@.len() ==> (#[trigger] pairs@[m]).0@ == self@[mismatches_upto(
                    self@,
                    self.edges(),
                    self.edges().len(),
                )[m].0 as int] && pairs@[m].1@ == self@[mismatches_upto(
                    self@,
                    self.edges(),
                    self.edges().len(),
                )[m].1 as int],
    {
        let mismatches = self.type_mismatches();
        proof {
            lemma_mismatches_upto(self@, self.edges(), self.edges().len());
        }
        if mismatches.len() == 0 {
            return Ok(());
        }
        let mut pairs: Vec<(Node, Node)> = Vec::new();
        let mut k: usize = 0;
        while k < mismatches.len()
            invariant
                self.wf(),
                mismatches@ == mismatches_upto(self@, self.edges(), self.edges().len()),
                k <= mismatches@.len(),
                pairs@.len() == k,
                forall|m: int|
                    0 <= m < mismatches@.len() ==> exists|i: int|
                        0 <= i < self.edges().len() && self.edges()[i].0 == #[trigger] mismatches@[m].0
                            && self.edges()[i].1 == mismatches@[m].1 && mismatch(self@, self.edges()[i]),
                forall|m: int|
                    0 <= m < k ==> (#[trigger] pairs@[m]).0@ == self@[mismatches@[m].0 as int]
                        && pairs@[m].1@ == self@[mismatches@[m].1 as int],
            decreases mismatches@.len() - k,
        {
            let (from, to) = mismatches[k];
            proof {
                let i = choose|i: int|
                    0 <= i < self.edges().len() && self.edges()[i].0 == #[trigger] mismatches@[k as int].0
                        && self.edges()[i].1 == mismatches@[k as int].1 && mismatch(self@, self.edges()[i]);
                assert(is_link(self@, self.edges()[i]));
            }
            pairs.push((self.nodes[from].duplicate(), self.nodes[to].duplicate()));
            k = k + 1;
        }
        Err(TypeMismatch(pairs))
    }
}

} // verus!
