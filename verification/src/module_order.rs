//! Resolution does not depend on the order in which the modules are given.
use crate::graph::{cyclic, has_edge, index_limit};
use crate::kinds::ExportKind;
use crate::merge_builder::{
    all_considered, considered_nodes, export_node, export_nodes, import_node, import_nodes, kind_len,
    lemma_considered_definitions_unique, lemma_import_nodes_witness, lemma_local_nodes_witness, local_node,
    local_nodes,
};
use crate::merger::{definitions_keyed_uniquely, node_key};
use crate::named_module::{NamedParsedModule, ParsedModule};
use crate::resolver::dependency_reduction::{
    is_remaining_export, is_remaining_import, reduction_of, ReducedDependencies,
};
use crate::resolver::order::{
    lemma_links_exactly, lemma_mismatches_exactly, lemma_resolution_ignores_order, linking_unambiguous, links_to,
};
use crate::resolver::{edge_label, links, mismatches_upto, node_type, resolved_edges, ExportView, ImportView, NodeView};
use vstd::prelude::*;

verus! {

/// The module and the name of an export node.
pub open spec fn export_key(n: NodeView) -> (Seq<char>, Seq<char>) {
    match n {
        NodeView::Export(e) => (e.module, e.identifier),
        _ => (Seq::empty(), Seq::empty()),
    }
}

/// No two export nodes share a module and a name.
pub open spec fn exports_keyed_uniquely(nodes: Seq<NodeView>) -> bool {
    forall|i: int, j: int|
        0 <= i < nodes.len() && 0 <= j < nodes.len() && i != j && #[trigger] nodes[i] is Export
            && #[trigger] nodes[j] is Export ==> export_key(nodes[i]) != export_key(nodes[j])
}

/// Where the nodes of the exports come from: strictly increasing export positions.
proof fn lemma_export_nodes_witness(name: Seq<char>, m: ParsedModule, kind: ExportKind, n: nat) -> (w: Seq<int>)
    requires
        n <= m.exports@.len(),
    ensures
        w.len() == export_nodes(name, m, kind, n).len(),
        forall|x: int|
            0 <= x < w.len() ==> 0 <= #[trigger] w[x] < n && export_node(name, m, w[x], kind) == Some(
                export_nodes(name, m, kind, n)[x],
            ),
        forall|x: int, y: int| 0 <= x < y < w.len() ==> #[trigger] w[x] < #[trigger] w[y],
    decreases n,
{
    if n == 0 {
        Seq::empty()
    } else {
        let prev = lemma_export_nodes_witness(name, m, kind, (n - 1) as nat);
        let prev_nodes = export_nodes(name, m, kind, (n - 1) as nat);
        let cur = export_nodes(name, m, kind, n);
        match export_node(name, m, n - 1, kind) {
            Some(v) => {
                let w = prev.push(n - 1);
                assert(cur == prev_nodes.push(v));
                assert forall|x: int| 0 <= x < w.len() implies 0 <= #[trigger] w[x] < n && export_node(name, m, w[x], kind)
                    == Some(cur[x]) by {
                    if x < prev.len() {
                        assert(cur[x] == prev_nodes[x]);
                    }
                }
                w
            },
            None => {
                assert(cur == prev_nodes);
                prev
            },
        }
    }
}

/// The exports that a module with distinctly named exports adds to a
/// resolver have distinct names, and carry the module's name.
proof fn lemma_module_exports_unique(name: Seq<char>, m: ParsedModule, kind: ExportKind)
    requires
        m.exports_named_uniquely(),
    ensures
        exports_keyed_uniquely(considered_nodes(name, m, kind)),
        forall|x: int|
            0 <= x < considered_nodes(name, m, kind).len() && (#[trigger] considered_nodes(name, m, kind)[x]) is Export
                ==> export_key(considered_nodes(name, m, kind)[x]).0 == name,
{
    let imps = import_nodes(name, m, kind, m.imports@.len());
    let locs = local_nodes(name, m, kind, kind_len(m, kind));
    let exps = export_nodes(name, m, kind, m.exports@.len());
    let nodes = considered_nodes(name, m, kind);
    let we = lemma_export_nodes_witness(name, m, kind, m.exports@.len());
    let wi = lemma_import_nodes_witness(name, m, kind, m.imports@.len());
    let wl = lemma_local_nodes_witness(name, m, kind, kind_len(m, kind));
    assert(nodes =~= imps + locs + exps);
    let a = imps.len() as int;
    let b = locs.len() as int;
    assert forall|x: int| 0 <= x < a + b implies !(#[trigger] nodes[x] is Export) by {
        if x < a {
            assert(nodes[x] == imps[x]);
            assert(import_node(name, m, wi[x], kind) == Some(imps[x]));
        } else {
            assert(nodes[x] == locs[x - a]);
            assert(local_node(name, m, wl[x - a], kind) == Some(locs[x - a]));
        }
    }
    assert forall|x: int| a + b <= x < nodes.len() implies (#[trigger] nodes[x]) is Export && export_key(nodes[x]) == (
        name,
        m.exports@[we[x - a - b]].name@,
    ) by {
        assert(nodes[x] == exps[x - a - b]);
    }
    assert forall|x: int, y: int|
        0 <= x < nodes.len() && 0 <= y < nodes.len() && x != y && #[trigger] nodes[x] is Export
            && #[trigger] nodes[y] is Export implies export_key(nodes[x]) != export_key(nodes[y]) by {
        assert(x >= a + b && y >= a + b);
        if x < y {
            assert(we[x - a - b] < we[y - a - b]);
        } else {
            assert(we[y - a - b] < we[x - a - b]);
        }
    }
}

/// Modules with distinct names, each with distinctly named exports, add
/// export nodes with distinct (module, name) pairs, each carrying the name
/// of its module.
proof fn lemma_considered_exports_unique(modules: Seq<&NamedParsedModule>, kind: ExportKind, n: nat)
    requires
        n <= modules.len(),
        forall|i: int| 0 <= i < n ==> (#[trigger] modules[i]).module.exports_named_uniquely(),
        forall|i: int, j: int| 0 <= i < n && 0 <= j < n && i != j ==> (#[trigger] modules[i]).name@ != (#[trigger] modules[j]).name@,
    ensures
        exports_keyed_uniquely(all_considered(modules, kind, n)),
        forall|x: int|
            0 <= x < all_considered(modules, kind, n).len() && (#[trigger] all_considered(modules, kind, n)[x]) is Export
                ==> exists|i: int| 0 <= i < n && export_key(all_considered(modules, kind, n)[x]).0 == (#[trigger] modules[i]).name@,
    decreases n,
{
    if n > 0 {
        lemma_considered_exports_unique(modules, kind, (n - 1) as nat);
        let prev = all_considered(modules, kind, (n - 1) as nat);
        let last = modules[n - 1];
        let new = considered_nodes(last.name@, last.module, kind);
        lemma_module_exports_unique(last.name@, last.module, kind);
        let nodes = all_considered(modules, kind, n);
        assert(nodes == prev + new);
        assert forall|x: int|
            0 <= x < nodes.len() && (#[trigger] nodes[x]) is Export implies exists|i: int|
                0 <= i < n && export_key(nodes[x]).0 == (#[trigger] modules[i]).name@ by {
            if x < prev.len() {
                assert(nodes[x] == prev[x]);
                let i = choose|i: int| 0 <= i < n - 1 && export_key(prev[x]).0 == (#[trigger] modules[i]).name@;
            } else {
                assert(nodes[x] == new[x - prev.len()]);
                assert(export_key(nodes[x]).0 == modules[n - 1].name@);
            }
        }
        assert forall|x: int, y: int|
            0 <= x < nodes.len() && 0 <= y < nodes.len() && x != y && #[trigger] nodes[x] is Export
                && #[trigger] nodes[y] is Export implies export_key(nodes[x]) != export_key(nodes[y]) by {
            if x < prev.len() && y < prev.len() {
                assert(nodes[x] == prev[x] && nodes[y] == prev[y]);
            } else if x >= prev.len() && y >= prev.len() {
                assert(nodes[x] == new[x - prev.len()] && nodes[y] == new[y - prev.len()]);
            } else {
                let (p, q) = if x < prev.len() { (x, y) } else { (y, x) };
                assert(nodes[p] == prev[p]);
                assert(nodes[q] == new[q - prev.len()]);
                let i = choose|i: int| 0 <= i < n - 1 && export_key(prev[p]).0 == (#[trigger] modules[i]).name@;
                assert(modules[i].name@ != modules[n - 1].name@);
            }
        }
    }
}

/// The nodes that the first `n` modules add are those of one of them.
proof fn lemma_considered_contains(modules: Seq<&NamedParsedModule>, kind: ExportKind, n: nat)
    requires
        n <= modules.len(),
    ensures
        forall|v: NodeView|
            #[trigger] all_considered(modules, kind, n).contains(v) <==> exists|i: int|
                0 <= i < n && considered_nodes((#[trigger] modules[i]).name@, modules[i].module, kind).contains(v),
    decreases n,
{
    if n > 0 {
        lemma_considered_contains(modules, kind, (n - 1) as nat);
        let prev = all_considered(modules, kind, (n - 1) as nat);
        let new = considered_nodes(modules[n - 1].name@, modules[n - 1].module, kind);
        let nodes = all_considered(modules, kind, n);
        assert(nodes == prev + new);
        assert forall|v: NodeView| #[trigger] nodes.contains(v) <==> exists|i: int|
            0 <= i < n && considered_nodes((#[trigger] modules[i]).name@, modules[i].module, kind).contains(v) by {
            if nodes.contains(v) {
                let x = choose|x: int| 0 <= x < nodes.len() && nodes[x] == v;
                if x < prev.len() {
                    assert(prev[x] == v);
                    assert(prev.contains(v));
                } else {
                    assert(new[x - prev.len()] == v);
                    assert(new.contains(v));
                }
            }
            if exists|i: int| 0 <= i < n && considered_nodes((#[trigger] modules[i]).name@, modules[i].module, kind).contains(v) {
                let i = choose|i: int| 0 <= i < n && considered_nodes((#[trigger] modules[i]).name@, modules[i].module, kind).contains(v);
                if i < n - 1 {
                    assert(prev.contains(v));
                    let x = choose|x: int| 0 <= x < prev.len() && prev[x] == v;
                    assert(nodes[x] == v);
                } else {
                    let x = choose|x: int| 0 <= x < new.len() && new[x] == v;
                    assert(nodes[prev.len() + x] == v);
                }
            }
        }
    }
}

/// The modules can be merged unambiguously: each is well formed, its
/// imports each bring in one imported item, its exports have distinct
/// names, and no two modules share a name.
pub open spec fn modules_distinct(modules: Seq<&NamedParsedModule>) -> bool {
    &&& forall|i: int| 0 <= i < modules.len() ==> (#[trigger] modules[i]).module.wf() && modules[i].module.imports_exclusive()
        && modules[i].module.exports_named_uniquely()
    &&& forall|i: int, j: int|
        0 <= i < modules.len() && 0 <= j < modules.len() && i != j ==> (#[trigger] modules[i]).name@ != (#[trigger] modules[j]).name@
}

/// The nodes that distinct modules add to a resolver never occur twice,
/// and each is linked to at most one node.
pub proof fn lemma_considered_unambiguous(modules: Seq<&NamedParsedModule>, kind: ExportKind)
    requires
        modules_distinct(modules),
    ensures
        linking_unambiguous(all_considered(modules, kind, modules.len() as nat)),
{
    let n = modules.len() as nat;
    let nodes = all_considered(modules, kind, n);
    lemma_considered_definitions_unique(modules, kind, n);
    lemma_considered_exports_unique(modules, kind, n);
    lemma_unique_keys_unambiguous(nodes);
}

/// Nodes whose exports have distinct (module, name) pairs and whose imports
/// and locals have distinct (module, index) pairs never occur twice, and
/// each is linked to at most one node.
pub proof fn lemma_unique_keys_unambiguous(nodes: Seq<NodeView>)
    requires
        exports_keyed_uniquely(nodes),
        definitions_keyed_uniquely(nodes),
    ensures
        linking_unambiguous(nodes),
{
    assert forall|i: int, j: int| 0 <= i < nodes.len() && 0 <= j < nodes.len() && i != j implies nodes[i] != nodes[j] by {
        if nodes[i] is Export && nodes[j] is Export {
            assert(export_key(nodes[i]) != export_key(nodes[j]));
        } else if !(nodes[i] is Export) && !(nodes[j] is Export) {
            assert(node_key(nodes[i]) != node_key(nodes[j]));
        }
    }
    assert forall|i: int, j1: int, j2: int|
        #![trigger links_to(nodes[i], nodes[j1]), links_to(nodes[i], nodes[j2])]
        0 <= i < nodes.len() && 0 <= j1 < nodes.len() && 0 <= j2 < nodes.len() && links_to(nodes[i], nodes[j1])
            && links_to(nodes[i], nodes[j2]) implies j1 == j2 by {
        match nodes[i] {
            NodeView::Import(imp) => {
                if j1 != j2 {
                    assert(nodes[j1] is Export && nodes[j2] is Export);
                    assert(export_key(nodes[j1]) == export_key(nodes[j2]));
                }
            },
            NodeView::Export(e) => {
                if j1 != j2 {
                    assert(!(nodes[j1] is Export) && !(nodes[j2] is Export));
                    assert(node_key(nodes[j1]) == node_key(nodes[j2]));
                }
            },
            NodeView::Local(_) => {},
        }
    }
}

/// Law: when exports have distinct (module, name) pairs and imports and
/// locals have distinct (module, index) pairs, linking draws an edge from
/// each import to the export it names and from each export to the import or
/// local it names, and no other edge; each edge is labelled by the kind of
/// its source, and no pair of nodes is linked twice.
pub proof fn lemma_links_of_unique_keys(nodes: Seq<NodeView>)
    requires
        nodes.len() <= index_limit(),
        exports_keyed_uniquely(nodes),
        definitions_keyed_uniquely(nodes),
    ensures
        forall|a: int, b: int|
            #[trigger] has_edge(links(nodes), a, b) <==> 0 <= a < nodes.len() && 0 <= b < nodes.len()
                && links_to(nodes[a], nodes[b]),
        forall|m: int|
            0 <= m < links(nodes).len() ==> (#[trigger] links(nodes)[m]).2 == edge_label(
                nodes[links(nodes)[m].0 as int],
            ),
        forall|m1: int, m2: int|
            0 <= m1 < m2 < links(nodes).len() ==> (#[trigger] links(nodes)[m1]).0 < (#[trigger] links(
                nodes,
            )[m2]).0,
{
    lemma_unique_keys_unambiguous(nodes);
    lemma_links_exactly(nodes);
}

/// Law: when exports have distinct (module, name) pairs and imports and
/// locals have distinct (module, index) pairs, the reported type mismatches
/// are exactly the pairs (import, export) where the import is linked to an
/// export of another type, each listed once.
pub proof fn lemma_mismatches_of_unique_keys(nodes: Seq<NodeView>)
    requires
        nodes.len() <= index_limit(),
        exports_keyed_uniquely(nodes),
        definitions_keyed_uniquely(nodes),
    ensures
        forall|a: usize, b: usize|
            #[trigger] mismatches_upto(nodes, links(nodes), links(nodes).len()).contains((a, b)) <==> a
                < nodes.len() && b < nodes.len() && links_to(nodes[a as int], nodes[b as int])
                && nodes[a as int] is Import && node_type(nodes[a as int]) != node_type(nodes[b as int]),
        mismatches_upto(nodes, links(nodes), links(nodes).len()).no_duplicates(),
{
    lemma_unique_keys_unambiguous(nodes);
    lemma_mismatches_exactly(nodes);
}

/// Law: resolving the same modules given in another order finds the same
/// things: an import cycle alike, the same remaining imports and exports,
/// and every node reduces to the same definition. This holds for modules
/// that are well formed, whose imports each bring in one imported item,
/// whose exports have distinct names, and whose names are distinct.
pub proof fn lemma_resolution_ignores_module_order(
    modules1: Seq<&NamedParsedModule>,
    modules2: Seq<&NamedParsedModule>,
    kind: ExportKind,
    ignore_mismatches: bool,
    keep: Option<Seq<(Seq<char>, Seq<char>)>>,
    rd1: ReducedDependencies,
    rd2: ReducedDependencies,
)
    requires
        modules_distinct(modules1),
        modules_distinct(modules2),
        forall|i: int| 0 <= i < modules1.len() ==> exists|j: int| 0 <= j < modules2.len() && modules2[j] == #[trigger] modules1[i],
        forall|j: int| 0 <= j < modules2.len() ==> exists|i: int| 0 <= i < modules1.len() && modules1[i] == #[trigger] modules2[j],
        all_considered(modules1, kind, modules1.len() as nat).len() <= index_limit(),
        all_considered(modules2, kind, modules2.len() as nat).len() <= index_limit(),
    ensures
        ({
            let n1 = all_considered(modules1, kind, modules1.len() as nat);
            let n2 = all_considered(modules2, kind, modules2.len() as nat);
            &&& cyclic(resolved_edges(n1, ignore_mismatches)) == cyclic(resolved_edges(n2, ignore_mismatches))
            &&& forall|v: ImportView|
                #[trigger] is_remaining_import(n1, resolved_edges(n1, ignore_mismatches), v) == is_remaining_import(
                    n2,
                    resolved_edges(n2, ignore_mismatches),
                    v,
                )
            &&& forall|v: ExportView|
                #[trigger] is_remaining_export(n1, resolved_edges(n1, ignore_mismatches), keep, v) == is_remaining_export(
                    n2,
                    resolved_edges(n2, ignore_mismatches),
                    keep,
                    v,
                )
            &&& reduction_of(n1, resolved_edges(n1, ignore_mismatches), keep, rd1) && reduction_of(
                n2,
                resolved_edges(n2, ignore_mismatches),
                keep,
                rd2,
            ) ==> forall|i1: int, i2: int|
                0 <= i1 < n1.len() && 0 <= i2 < n2.len() && n1[i1] == n2[i2] ==> (#[trigger] rd1.reduction_map@[i1]).1@
                    == (#[trigger] rd2.reduction_map@[i2]).1@
        }),
{
    let n1 = all_considered(modules1, kind, modules1.len() as nat);
    let n2 = all_considered(modules2, kind, modules2.len() as nat);
    lemma_considered_unambiguous(modules1, kind);
    lemma_considered_unambiguous(modules2, kind);
    lemma_considered_contains(modules1, kind, modules1.len() as nat);
    lemma_considered_contains(modules2, kind, modules2.len() as nat);
    assert forall|v: NodeView| n1.to_set().contains(v) <==> n2.to_set().contains(v) by {
        if n1.contains(v) {
            let i = choose|i: int| 0 <= i < modules1.len() && considered_nodes((#[trigger] modules1[i]).name@, modules1[i].module, kind).contains(v);
            let j = choose|j: int| 0 <= j < modules2.len() && modules2[j] == #[trigger] modules1[i];
            assert(considered_nodes(modules2[j].name@, modules2[j].module, kind).contains(v));
            assert(n2.contains(v));
        }
        if n2.contains(v) {
            let j = choose|j: int| 0 <= j < modules2.len() && considered_nodes((#[trigger] modules2[j]).name@, modules2[j].module, kind).contains(v);
            let i = choose|i: int| 0 <= i < modules1.len() && modules1[i] == #[trigger] modules2[j];
            assert(considered_nodes(modules1[i].name@, modules1[i].module, kind).contains(v));
            assert(n1.contains(v));
        }
    }
    assert(n1.to_set() =~= n2.to_set());
    lemma_resolution_ignores_order(n1, n2, ignore_mismatches, keep, rd1, rd2);
}

} // verus!
