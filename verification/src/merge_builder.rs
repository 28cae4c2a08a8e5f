//! First pass of a merge: every module's imports, definitions and exports
//! are gathered per kind of item, then resolved.
use crate::error::{ClashesMap, ConcreteExport, ConcreteExportView, Error};
use crate::graph::{cyclic, index_limit};
use crate::kinds::{ExportKind, IdentifierItem, IdentifierModule};
use crate::merge_options::{
    identifier_views, default_renamer, spec_default_rename, ClashingExports, ExportIdentifier, LinkTypeMismatch,
    MergeOptions, RenameStrategy, Renamer,
};
use crate::named_module::{
    ExportedItem, ImportedItem, NamedParsedModule, ParsedFunctionKind, ParsedModule,
};
use crate::resolver::dependency_reduction::{
    export_views, exports_backed, keep_views, lemma_reduction_of_same_edges, reduction_of,
    ReducedDependencies,
};
use crate::resolver::nodes::copy_locals;
use crate::resolver::{
    definition_matches, last_definition, Export, Import, ImportData, ImportView, ItemType,
    ItemTypeView, Local, LocalView, Node, NodeView, ExportView, Resolver as GraphResolver,
    has_mismatch, mismatch_pair_views, node_pair_views, lemma_links, lemma_resolved_edges, links, mismatch, resolved_edges, TypeMismatch,
};
use crate::merger::{definitions_keyed_uniquely, node_key};
use vstd::prelude::*;

verus! {

/// The node that import `j` of module `m`, named `name`, adds to the
/// resolver of `kind`, if it is of that kind.
pub open spec fn import_node(name: Seq<char>, m: ParsedModule, j: int, kind: ExportKind) -> Option<NodeView> {
    let imp = m.imports@[j];
    let (item_kind, k, ty, data) = match imp.item {
        ImportedItem::Function(k) => (
            ExportKind::Function,
            k,
            ItemTypeView::Function(m.functions@[k as int].ty@),
            ImportData::Plain,
        ),
        ImportedItem::Table(k) => (
            ExportKind::Table,
            k,
            ItemTypeView::Table(m.tables@[k as int].element_ty),
            ImportData::Plain,
        ),
        ImportedItem::Memory(k) => (ExportKind::Memory, k, ItemTypeView::Memory, ImportData::Plain),
        ImportedItem::Global(k) => (
            ExportKind::Global,
            k,
            ItemTypeView::Global(m.globals@[k as int].ty),
            ImportData::Global {
                mutable: m.globals@[k as int].mutable,
                shared: m.globals@[k as int].shared,
            },
        ),
    };
    if item_kind == kind {
        Some(
            NodeView::Import(
                ImportView {
                    exporting_module: imp.module@,
                    importing_module: name,
                    exporting_identifier: imp.name@,
                    imported_index: k,
                    ty,
                    data,
                },
            ),
        )
    } else {
        None
    }
}

/// The nodes that the first `n` imports add to the resolver of `kind`.
pub open spec fn import_nodes(name: Seq<char>, m: ParsedModule, kind: ExportKind, n: nat) -> Seq<NodeView>
    decreases n,
{
    if n == 0 {
        Seq::empty()
    } else {
        let prev = import_nodes(name, m, kind, (n - 1) as nat);
        match import_node(name, m, n - 1, kind) {
            Some(v) => prev.push(v),
            None => prev,
        }
    }
}

/// The number of items of `kind` in module `m`.
pub open spec fn kind_len(m: ParsedModule, kind: ExportKind) -> nat {
    match kind {
        ExportKind::Function => m.functions@.len(),
        ExportKind::Table => m.tables@.len(),
        ExportKind::Memory => m.memories@.len(),
        ExportKind::Global => m.globals@.len(),
    }
}

/// The node that item `k` of `kind` adds as a local definition, if it is
/// defined in the module.
pub open spec fn local_node(name: Seq<char>, m: ParsedModule, k: int, kind: ExportKind) -> Option<NodeView> {
    match kind {
        ExportKind::Function => match m.functions@[k].kind {
            ParsedFunctionKind::Local(args) => Some(
                NodeView::Local(
                    LocalView {
                        module: name,
                        index: k as u64,
                        ty: ItemTypeView::Function(m.functions@[k].ty@),
                        data: args@,
                    },
                ),
            ),
            _ => None,
        },
        ExportKind::Table => if m.tables@[k].imported {
            None
        } else {
            Some(
                NodeView::Local(
                    LocalView {
                        module: name,
                        index: k as u64,
                        ty: ItemTypeView::Table(m.tables@[k].element_ty),
                        data: Seq::empty(),
                    },
                ),
            )
        },
        ExportKind::Memory => if m.memories@[k].imported {
            None
        } else {
            Some(
                NodeView::Local(
                    LocalView {
                        module: name,
                        index: k as u64,
                        ty: ItemTypeView::Memory,
                        data: Seq::empty(),
                    },
                ),
            )
        },
        ExportKind::Global => if m.globals@[k].imported {
            None
        } else {
            Some(
                NodeView::Local(
                    LocalView {
                        module: name,
                        index: k as u64,
                        ty: ItemTypeView::Global(m.globals@[k].ty),
                        data: Seq::empty(),
                    },
                ),
            )
        },
    }
}

/// The local definitions among the first `n` items of `kind`.
pub open spec fn local_nodes(name: Seq<char>, m: ParsedModule, kind: ExportKind, n: nat) -> Seq<NodeView>
    decreases n,
{
    if n == 0 {
        Seq::empty()
    } else {
        let prev = local_nodes(name, m, kind, (n - 1) as nat);
        match local_node(name, m, n - 1, kind) {
            Some(v) => prev.push(v),
            None => prev,
        }
    }
}

/// The node that export `j` adds to the resolver of `kind`, if it is of that kind.
pub open spec fn export_node(name: Seq<char>, m: ParsedModule, j: int, kind: ExportKind) -> Option<NodeView> {
    let exp = m.exports@[j];
    let (item_kind, k, ty) = match exp.item {
        ExportedItem::Function(k) => (
            ExportKind::Function,
            k,
            ItemTypeView::Function(m.functions@[k as int].ty@),
        ),
        ExportedItem::Table(k) => (
            ExportKind::Table,
            k,
            ItemTypeView::Table(m.tables@[k as int].element_ty),
        ),
        ExportedItem::Memory(k) => (ExportKind::Memory, k, ItemTypeView::Memory),
        ExportedItem::Global(k) => (
            ExportKind::Global,
            k,
            ItemTypeView::Global(m.globals@[k as int].ty),
        ),
    };
    if item_kind == kind {
        Some(NodeView::Export(ExportView { module: name, identifier: exp.name@, index: k, ty }))
    } else {
        None
    }
}

/// The nodes that the first `n` exports add to the resolver of `kind`.
pub open spec fn export_nodes(name: Seq<char>, m: ParsedModule, kind: ExportKind, n: nat) -> Seq<NodeView>
    decreases n,
{
    if n == 0 {
        Seq::empty()
    } else {
        let prev = export_nodes(name, m, kind, (n - 1) as nat);
        match export_node(name, m, n - 1, kind) {
            Some(v) => prev.push(v),
            None => prev,
        }
    }
}

/// All nodes that module `m`, named `name`, adds to the resolver of `kind`:
/// its imports, then its definitions, then its exports.
pub open spec fn considered_nodes(name: Seq<char>, m: ParsedModule, kind: ExportKind) -> Seq<NodeView> {
    import_nodes(name, m, kind, m.imports@.len()) + local_nodes(name, m, kind, kind_len(m, kind))
        + export_nodes(name, m, kind, m.exports@.len())
}

/// Some function of the module was left uninitialized by the parser.
pub open spec fn has_uninitialized_function(m: ParsedModule) -> bool {
    exists|k: int| 0 <= k < m.functions@.len() && (#[trigger] m.functions@[k]).kind is Uninitialized
}

/// The message of the failure on a module whose parse left a function uninitialized.
pub open spec fn uninitialized_message(module: Seq<char>) -> Seq<char> {
    "walrus::FunctionKind::Uninitialized during parsing of "@ + module
}

/// `k` is the first function of the module left uninitialized by the parser.
pub open spec fn is_first_uninitialized(m: ParsedModule, k: int) -> bool {
    &&& 0 <= k < m.functions@.len()
    &&& (m.functions@[k]).kind is Uninitialized
    &&& forall|x: int| 0 <= x < k ==> !((#[trigger] m.functions@[x]).kind is Uninitialized)
}

/// The first function of the module left uninitialized by the parser.
pub open spec fn first_uninitialized(m: ParsedModule) -> int {
    choose|k: int| is_first_uninitialized(m, k)
}

/// What considering a module adds to the resolver of `kind` before it fails
/// on an uninitialized function: all imports, and the local functions before it.
pub open spec fn nodes_before_failure(name: Seq<char>, m: ParsedModule, kind: ExportKind) -> Seq<NodeView> {
    import_nodes(name, m, kind, m.imports@.len()) + if kind == ExportKind::Function {
        local_nodes(name, m, kind, first_uninitialized(m) as nat)
    } else {
        Seq::empty()
    }
}

/// The first uninitialized function is unique.
proof fn lemma_first_uninitialized(m: ParsedModule, k: int)
    requires
        is_first_uninitialized(m, k),
    ensures
        first_uninitialized(m) == k,
{
    let c = first_uninitialized(m);
    assert(is_first_uninitialized(m, c));
    if c < k {
        assert(!((m.functions@[c]).kind is Uninitialized));
    } else if k < c {
        assert(!((m.functions@[k]).kind is Uninitialized));
    }
}

/// The imports, locals and exports listed by the spec sequences are exactly
/// those produced at some index.
proof fn lemma_import_nodes(name: Seq<char>, m: ParsedModule, kind: ExportKind, n: nat)
    requires
        n <= m.imports@.len(),
    ensures
        import_nodes(name, m, kind, n).len() <= n,
        forall|x: int|
            0 <= x < import_nodes(name, m, kind, n).len() ==> exists|j: int|
                0 <= j < n && import_node(name, m, j, kind) == Some(
                    #[trigger] import_nodes(name, m, kind, n)[x],
                ),
        forall|j: int|
            0 <= j < n && #[trigger] import_node(name, m, j, kind) is Some ==> import_nodes(
                name,
                m,
                kind,
                n,
            ).contains(import_node(name, m, j, kind)->0),
    decreases n,
{
    if n > 0 {
        lemma_import_nodes(name, m, kind, (n - 1) as nat);
        let prev = import_nodes(name, m, kind, (n - 1) as nat);
        let cur = import_nodes(name, m, kind, n);
        assert forall|x: int| 0 <= x < cur.len() implies exists|j: int|
            0 <= j < n && import_node(name, m, j, kind) == Some(#[trigger] cur[x]) by {
            if x < prev.len() {
                assert(cur[x] == prev[x]);
            }
        }
        assert forall|j: int|
            0 <= j < n && #[trigger] import_node(name, m, j, kind) is Some implies cur.contains(
            import_node(name, m, j, kind)->0,
        ) by {
            if j < n - 1 {
                let x = choose|x: int| 0 <= x < prev.len() && prev[x] == import_node(name, m, j, kind)->0;
                assert(cur[x] == prev[x]);
            } else {
                assert(cur[prev.len() as int] == import_node(name, m, j, kind)->0);
            }
        }
    }
}

proof fn lemma_local_nodes(name: Seq<char>, m: ParsedModule, kind: ExportKind, n: nat)
    requires
        n <= kind_len(m, kind),
    ensures
        local_nodes(name, m, kind, n).len() <= n,
        forall|j: int|
            0 <= j < n && #[trigger] local_node(name, m, j, kind) is Some ==> local_nodes(
                name,
                m,
                kind,
                n,
            ).contains(local_node(name, m, j, kind)->0),
        forall|x: int|
            0 <= x < local_nodes(name, m, kind, n).len() ==> (#[trigger] local_nodes(name, m, kind, n)[x]) is Local,
    decreases n,
{
    if n > 0 {
        lemma_local_nodes(name, m, kind, (n - 1) as nat);
        let prev = local_nodes(name, m, kind, (n - 1) as nat);
        let cur = local_nodes(name, m, kind, n);
        assert forall|j: int|
            0 <= j < n && #[trigger] local_node(name, m, j, kind) is Some implies cur.contains(
            local_node(name, m, j, kind)->0,
        ) by {
            if j < n - 1 {
                let x = choose|x: int| 0 <= x < prev.len() && prev[x] == local_node(name, m, j, kind)->0;
                assert(cur[x] == prev[x]);
            } else {
                assert(cur[prev.len() as int] == local_node(name, m, j, kind)->0);
            }
        }
        assert forall|x: int| 0 <= x < cur.len() implies (#[trigger] cur[x]) is Local by {
            if x < prev.len() {
                assert(cur[x] == prev[x]);
            }
        }
    }
}

/// Law: considering a module adds, for each of its imports of a global, an
/// import node of that global: imported from the module and under the name
/// the import gives, at the global's index, with the global's value type,
/// mutability and sharedness as the module declares them.
pub proof fn lemma_considered_global_imports(name: Seq<char>, m: ParsedModule, j: int)
    requires
        0 <= j < m.imports@.len(),
        m.imports@[j].item is Global,
    ensures
        ({
            let k = m.imports@[j].item->Global_0;
            considered_nodes(name, m, ExportKind::Global).contains(
                NodeView::Import(
                    ImportView {
                        exporting_module: m.imports@[j].module@,
                        importing_module: name,
                        exporting_identifier: m.imports@[j].name@,
                        imported_index: k,
                        ty: ItemTypeView::Global(m.globals@[k as int].ty),
                        data: ImportData::Global {
                            mutable: m.globals@[k as int].mutable,
                            shared: m.globals@[k as int].shared,
                        },
                    },
                ),
            )
        }),
{
    let k = m.imports@[j].item->Global_0;
    let v = NodeView::Import(
        ImportView {
            exporting_module: m.imports@[j].module@,
            importing_module: name,
            exporting_identifier: m.imports@[j].name@,
            imported_index: k,
            ty: ItemTypeView::Global(m.globals@[k as int].ty),
            data: ImportData::Global { mutable: m.globals@[k as int].mutable, shared: m.globals@[k as int].shared },
        },
    );
    lemma_import_nodes(name, m, ExportKind::Global, m.imports@.len());
    assert(import_node(name, m, j, ExportKind::Global) == Some(v));
    let imports = import_nodes(name, m, ExportKind::Global, m.imports@.len());
    assert(imports.contains(v));
    let x = choose|x: int| 0 <= x < imports.len() && imports[x] == v;
    assert(considered_nodes(name, m, ExportKind::Global)[x] == v);
}

/// The nodes of the exports are those produced at some export position.
pub proof fn lemma_export_nodes(name: Seq<char>, m: ParsedModule, kind: ExportKind, n: nat)
    requires
        n <= m.exports@.len(),
    ensures
        export_nodes(name, m, kind, n).len() <= n,
        forall|x: int|
            0 <= x < export_nodes(name, m, kind, n).len() ==> exists|j: int|
                0 <= j < n && export_node(name, m, j, kind) == Some(
                    #[trigger] export_nodes(name, m, kind, n)[x],
                ),
    decreases n,
{
    if n > 0 {
        lemma_export_nodes(name, m, kind, (n - 1) as nat);
        let prev = export_nodes(name, m, kind, (n - 1) as nat);
        let cur = export_nodes(name, m, kind, n);
        assert forall|x: int| 0 <= x < cur.len() implies exists|j: int|
            0 <= j < n && export_node(name, m, j, kind) == Some(#[trigger] cur[x]) by {
            if x < prev.len() {
                assert(cur[x] == prev[x]);
            }
        }
    }
}

/// Where the nodes of the imports come from: strictly increasing import positions.
pub proof fn lemma_import_nodes_witness(name: Seq<char>, m: ParsedModule, kind: ExportKind, n: nat) -> (w: Seq<int>)
    requires
        n <= m.imports@.len(),
    ensures
        w.len() == import_nodes(name, m, kind, n).len(),
        forall|x: int|
            0 <= x < w.len() ==> 0 <= #[trigger] w[x] < n && import_node(name, m, w[x], kind) == Some(
                import_nodes(name, m, kind, n)[x],
            ),
        forall|x: int, y: int| 0 <= x < y < w.len() ==> #[trigger] w[x] < #[trigger] w[y],
    decreases n,
{
    if n == 0 {
        Seq::empty()
    } else {
        let prev = lemma_import_nodes_witness(name, m, kind, (n - 1) as nat);
        let prev_nodes = import_nodes(name, m, kind, (n - 1) as nat);
        let cur = import_nodes(name, m, kind, n);
        match import_node(name, m, n - 1, kind) {
            Some(v) => {
                let w = prev.push(n - 1);
                assert(cur == prev_nodes.push(v));
                assert forall|x: int| 0 <= x < w.len() implies 0 <= #[trigger] w[x] < n && import_node(name, m, w[x], kind)
                    == Some(cur[x]) by {
                    if x < prev.len() {
                        assert(cur[x] == prev_nodes[x]);
                    }
                }
                w
            },
            None => {
                assert(cur == prev_nodes);
                prev
            },
        }
    }
}

/// Where the nodes of the locals come from: strictly increasing item indices.
pub proof fn lemma_local_nodes_witness(name: Seq<char>, m: ParsedModule, kind: ExportKind, n: nat) -> (w: Seq<int>)
    ensures
        w.len() == local_nodes(name, m, kind, n).len(),
        forall|x: int|
            0 <= x < w.len() ==> 0 <= #[trigger] w[x] < n && local_node(name, m, w[x], kind) == Some(
                local_nodes(name, m, kind, n)[x],
            ),
        forall|x: int, y: int| 0 <= x < y < w.len() ==> #[trigger] w[x] < #[trigger] w[y],
    decreases n,
{
    if n == 0 {
        Seq::empty()
    } else {
        let prev = lemma_local_nodes_witness(name, m, kind, (n - 1) as nat);
        let prev_nodes = local_nodes(name, m, kind, (n - 1) as nat);
        let cur = local_nodes(name, m, kind, n);
        match local_node(name, m, n - 1, kind) {
            Some(v) => {
                let w = prev.push(n - 1);
                assert(cur == prev_nodes.push(v));
                assert forall|x: int| 0 <= x < w.len() implies 0 <= #[trigger] w[x] < n && local_node(name, m, w[x], kind)
                    == Some(cur[x]) by {
                    if x < prev.len() {
                        assert(cur[x] == prev_nodes[x]);
                    }
                }
                w
            },
            None => {
                assert(cur == prev_nodes);
                prev
            },
        }
    }
}

/// The index of the item an import brings in.
pub open spec fn imported_index(item: ImportedItem) -> u64 {
    match item {
        ImportedItem::Function(k) => k,
        ImportedItem::Table(k) => k,
        ImportedItem::Memory(k) => k,
        ImportedItem::Global(k) => k,
    }
}

/// The imports and locals that a module adds to a resolver have distinct
/// indices, and carry the module's name.
pub proof fn lemma_module_definitions_unique(name: Seq<char>, m: ParsedModule, kind: ExportKind)
    requires
        m.wf(),
        m.imports_exclusive(),
    ensures
        definitions_keyed_uniquely(considered_nodes(name, m, kind)),
        forall|x: int|
            0 <= x < considered_nodes(name, m, kind).len() && !(#[trigger] considered_nodes(name, m, kind)[x] is Export)
                ==> node_key(considered_nodes(name, m, kind)[x]).0 == name,
{
    let imps = import_nodes(name, m, kind, m.imports@.len());
    let locs = local_nodes(name, m, kind, kind_len(m, kind));
    let exps = export_nodes(name, m, kind, m.exports@.len());
    let nodes = considered_nodes(name, m, kind);
    let wi = lemma_import_nodes_witness(name, m, kind, m.imports@.len());
    let wl = lemma_local_nodes_witness(name, m, kind, kind_len(m, kind));
    lemma_export_nodes(name, m, kind, m.exports@.len());
    assert(nodes =~= imps + locs + exps);
    let a = imps.len() as int;
    let b = locs.len() as int;
    // The key of each definition, by position.
    assert forall|x: int| 0 <= x < a implies (#[trigger] nodes[x]) is Import && node_key(nodes[x]) == (
        name,
        imported_index(m.imports@[wi[x]].item),
    ) by {
        assert(nodes[x] == imps[x]);
    }
    assert forall|x: int| a <= x < a + b implies (#[trigger] nodes[x]) is Local && node_key(nodes[x]) == (
        name,
        wl[x - a] as u64,
    ) by {
        assert(nodes[x] == locs[x - a]);
    }
    assert forall|x: int| a + b <= x < nodes.len() implies (#[trigger] nodes[x]) is Export by {
        assert(nodes[x] == exps[x - a - b]);
        let j = choose|j: int| 0 <= j < m.exports@.len() && export_node(name, m, j, kind) == Some(exps[x - a - b]);
    }
    assert forall|x: int, y: int|
        0 <= x < nodes.len() && 0 <= y < nodes.len() && x != y && !(#[trigger] nodes[x] is Export)
            && !(#[trigger] nodes[y] is Export) implies node_key(nodes[x]) != node_key(nodes[y]) by {
        if x < a && y < a {
            let (jx, jy) = (wi[x], wi[y]);
            assert(jx != jy) by {
                if x < y {
                    assert(wi[x] < wi[y]);
                } else {
                    assert(wi[y] < wi[x]);
                }
            }
            assert(m.imports@[jx].item != m.imports@[jy].item);
            assert(import_node(name, m, jx, kind) is Some);
            assert(import_node(name, m, jy, kind) is Some);
        } else if x >= a && y >= a {
            if x < y {
                assert(wl[x - a] < wl[y - a]);
            } else {
                assert(wl[y - a] < wl[x - a]);
            }
        } else {
            let (p, q) = if x < a { (x, y) } else { (y, x) };
            let j = wi[p];
            let k = wl[q - a];
            assert(import_node(name, m, j, kind) is Some);
            assert(local_node(name, m, k, kind) is Some);
            match m.imports@[j].item {
                ImportedItem::Function(i) => {},
                ImportedItem::Table(i) => {},
                ImportedItem::Memory(i) => {},
                ImportedItem::Global(i) => {},
            }
        }
    }
}

/// Modules with distinct names add imports and locals with distinct keys
/// to a resolver, each keyed by the name of its module.
pub proof fn lemma_considered_definitions_unique(modules: Seq<&NamedParsedModule>, kind: ExportKind, n: nat)
    requires
        n <= modules.len(),
        forall|i: int| 0 <= i < n ==> (#[trigger] modules[i]).module.wf() && modules[i].module.imports_exclusive(),
        forall|i: int, j: int| 0 <= i < n && 0 <= j < n && i != j ==> (#[trigger] modules[i]).name@ != (#[trigger] modules[j]).name@,
    ensures
        definitions_keyed_uniquely(all_considered(modules, kind, n)),
        forall|x: int|
            0 <= x < all_considered(modules, kind, n).len() && !(#[trigger] all_considered(modules, kind, n)[x] is Export)
                ==> exists|i: int| 0 <= i < n && node_key(all_considered(modules, kind, n)[x]).0 == (#[trigger] modules[i]).name@,
    decreases n,
{
    if n > 0 {
        lemma_considered_definitions_unique(modules, kind, (n - 1) as nat);
        let prev = all_considered(modules, kind, (n - 1) as nat);
        let last = modules[n - 1];
        let new = considered_nodes(last.name@, last.module, kind);
        lemma_module_definitions_unique(last.name@, last.module, kind);
        let nodes = all_considered(modules, kind, n);
        assert(nodes == prev + new);
        assert forall|x: int|
            0 <= x < nodes.len() && !(#[trigger] nodes[x] is Export) implies exists|i: int|
                0 <= i < n && node_key(nodes[x]).0 == (#[trigger] modules[i]).name@ by {
            if x < prev.len() {
                assert(nodes[x] == prev[x]);
                let i = choose|i: int| 0 <= i < n - 1 && node_key(prev[x]).0 == (#[trigger] modules[i]).name@;
            } else {
                assert(nodes[x] == new[x - prev.len()]);
                assert(node_key(nodes[x]).0 == modules[n - 1].name@);
            }
        }
        assert forall|x: int, y: int|
            0 <= x < nodes.len() && 0 <= y < nodes.len() && x != y && !(#[trigger] nodes[x] is Export)
                && !(#[trigger] nodes[y] is Export) implies node_key(nodes[x]) != node_key(nodes[y]) by {
            if x < prev.len() && y < prev.len() {
                assert(nodes[x] == prev[x] && nodes[y] == prev[y]);
            } else if x >= prev.len() && y >= prev.len() {
                assert(nodes[x] == new[x - prev.len()] && nodes[y] == new[y - prev.len()]);
            } else {
                let (p, q) = if x < prev.len() { (x, y) } else { (y, x) };
                assert(nodes[p] == prev[p]);
                assert(nodes[q] == new[q - prev.len()]);
                let i = choose|i: int| 0 <= i < n - 1 && node_key(prev[p]).0 == (#[trigger] modules[i]).name@;
                assert(modules[i].name@ != modules[n - 1].name@);
            }
        }
    }
}

/// The last definition of an index is found exactly when one exists.
pub proof fn lemma_last_definition_exists(nodes: Seq<NodeView>, module: Seq<char>, index: u64, n: nat)
    requires
        n <= nodes.len(),
    ensures
        last_definition(nodes, module, index, n) is Some <==> exists|j: int|
            0 <= j < n && definition_matches(#[trigger] nodes[j], module, index),
    decreases n,
{
    if n > 0 {
        lemma_last_definition_exists(nodes, module, index, (n - 1) as nat);
    }
}

/// The resolvers of all kinds of items.
pub struct Resolver {
    function: GraphResolver,
    table: GraphResolver,
    memory: GraphResolver,
    global: GraphResolver,
}

impl Resolver {
    /// Each resolver is well formed.
    pub closed spec fn graphs_wf(&self) -> bool {
        &&& self.function.wf()
        &&& self.table.wf()
        &&& self.memory.wf()
        &&& self.global.wf()
    }

    /// Each resolver is well formed and every export in it names an item of its module.
    pub closed spec fn wf(&self) -> bool {
        &&& self.graphs_wf()
        &&& exports_backed(self.function@)
        &&& exports_backed(self.table@)
        &&& exports_backed(self.memory@)
        &&& exports_backed(self.global@)
    }

    /// The nodes of the resolver of `kind`.
    pub closed spec fn nodes_of(&self, kind: ExportKind) -> Seq<NodeView> {
        match kind {
            ExportKind::Function => self.function@,
            ExportKind::Table => self.table@,
            ExportKind::Memory => self.memory@,
            ExportKind::Global => self.global@,
        }
    }

    /// The number of nodes of all resolvers.
    pub open spec fn size(&self) -> nat {
        self.nodes_of(ExportKind::Function).len() + self.nodes_of(ExportKind::Table).len()
            + self.nodes_of(ExportKind::Memory).len() + self.nodes_of(ExportKind::Global).len()
    }

    /// The nodes of a well-formed resolver fit a graph, and their exports
    /// name items of their modules.
    pub proof fn lemma_wf_nodes(&self, kind: ExportKind)
        requires
            self.wf(),
        ensures
            self.nodes_of(kind).len() <= index_limit(),
            exports_backed(self.nodes_of(kind)),
    {
        self.function.lemma_wf_len();
        self.table.lemma_wf_len();
        self.memory.lemma_wf_len();
        self.global.lemma_wf_len();
    }

    /// Empty resolvers.
    pub fn new() -> (r: Self)
        ensures
            r.wf(),
            forall|kind: ExportKind| #[trigger] r.nodes_of(kind) == Seq::<NodeView>::empty(),
    {
        Resolver {
            function: GraphResolver::new(),
            table: GraphResolver::new(),
            memory: GraphResolver::new(),
            global: GraphResolver::new(),
        }
    }
}


impl Resolver {
    /// The node that import `j` adds, and the kind of its resolver.
    fn import_from(name: &IdentifierModule, m: &ParsedModule, j: usize) -> (r: (ExportKind, Node))
        requires
            m.wf(),
            j < m.imports@.len(),
        ensures
            import_node(name@, *m, j as int, r.0) == Some(r.1@),
            forall|kind: ExportKind| kind != r.0 ==> #[trigger] import_node(name@, *m, j as int, kind) is None,
    {
        let imp = &m.imports[j];
        let (_nf, _nt, _nm, _ng) = (m.functions.len(), m.tables.len(), m.memories.len(), m.globals.len());
        assert(m.imports@[j as int] == *imp);
        proof {
            match imp.item {
                ImportedItem::Function(k) => assert(k < m.functions@.len()),
                ImportedItem::Table(k) => assert(k < m.tables@.len()),
                ImportedItem::Memory(k) => assert(k < m.memories@.len()),
                ImportedItem::Global(k) => assert(k < m.globals@.len()),
            }
        }
        let (kind, k, ty, data) = match imp.item {
            ImportedItem::Function(k) => (
                ExportKind::Function,
                k,
                ItemType::Function(m.functions[k as usize].ty.duplicate()),
                ImportData::Plain,
            ),
            ImportedItem::Table(k) => (
                ExportKind::Table,
                k,
                ItemType::Table(m.tables[k as usize].element_ty),
                ImportData::Plain,
            ),
            ImportedItem::Memory(k) => (ExportKind::Memory, k, ItemType::Memory, ImportData::Plain),
            ImportedItem::Global(k) => (
                ExportKind::Global,
                k,
                ItemType::Global(m.globals[k as usize].ty),
                ImportData::Global {
                    mutable: m.globals[k as usize].mutable,
                    shared: m.globals[k as usize].shared,
                },
            ),
        };
        let import = Import {
            exporting_module: IdentifierModule::new(imp.module.clone()),
            importing_module: name.duplicate(),
            exporting_identifier: imp.name.clone(),
            imported_index: k,
            ty,
            data,
        };
        (kind, Node::Import(import))
    }
}

impl Resolver {
    /// The node that export `j` adds, and the kind of its resolver.
    pub(crate) fn export_from(name: &IdentifierModule, m: &ParsedModule, j: usize) -> (r: (ExportKind, Node))
        requires
            m.wf(),
            j < m.exports@.len(),
        ensures
            export_node(name@, *m, j as int, r.0) == Some(r.1@),
            forall|kind: ExportKind| kind != r.0 ==> #[trigger] export_node(name@, *m, j as int, kind) is None,
    {
        let exp = &m.exports[j];
        let (_nf, _nt, _nm, _ng) = (m.functions.len(), m.tables.len(), m.memories.len(), m.globals.len());
        assert(m.exports@[j as int] == *exp);
        proof {
            match exp.item {
                ExportedItem::Function(k) => assert(k < m.functions@.len()),
                ExportedItem::Table(k) => assert(k < m.tables@.len()),
                ExportedItem::Memory(k) => assert(k < m.memories@.len()),
                ExportedItem::Global(k) => assert(k < m.globals@.len()),
            }
        }
        let (kind, k, ty) = match exp.item {
            ExportedItem::Function(k) => (
                ExportKind::Function,
                k,
                ItemType::Function(m.functions[k as usize].ty.duplicate()),
            ),
            ExportedItem::Table(k) => (
                ExportKind::Table,
                k,
                ItemType::Table(m.tables[k as usize].element_ty),
            ),
            ExportedItem::Memory(k) => (ExportKind::Memory, k, ItemType::Memory),
            ExportedItem::Global(k) => (
                ExportKind::Global,
                k,
                ItemType::Global(m.globals[k as usize].ty),
            ),
        };
        let export = Export { module: name.duplicate(), identifier: exp.name.clone(), index: k, ty };
        (kind, Node::Export(export))
    }
}

impl Resolver {
    /// The local definition that item `k` of `kind` adds, if the module defines it.
    fn local_from(name: &IdentifierModule, m: &ParsedModule, kind: ExportKind, k: usize) -> (r: Option<Node>)
        requires
            m.wf(),
            k < kind_len(*m, kind),
        ensures
            match r {
                Some(node) => local_node(name@, *m, k as int, kind) == Some(node@),
                None => local_node(name@, *m, k as int, kind) is None,
            },
    {
        let index = k as u64;
        match kind {
            ExportKind::Function => match &m.functions[k].kind {
                ParsedFunctionKind::Local(args) => Some(
                    Node::Local(
                        Local {
                            module: name.duplicate(),
                            index,
                            ty: ItemType::Function(m.functions[k].ty.duplicate()),
                            data: copy_locals(args),
                        },
                    ),
                ),
                _ => None,
            },
            ExportKind::Table => if m.tables[k].imported {
                None
            } else {
                Some(
                    Node::Local(
                        Local {
                            module: name.duplicate(),
                            index,
                            ty: ItemType::Table(m.tables[k].element_ty),
                            data: Vec::new(),
                        },
                    ),
                )
            },
            ExportKind::Memory => if m.memories[k].imported {
                None
            } else {
                Some(
                    Node::Local(
                        Local { module: name.duplicate(), index, ty: ItemType::Memory, data: Vec::new() },
                    ),
                )
            },
            ExportKind::Global => if m.globals[k].imported {
                None
            } else {
                Some(
                    Node::Local(
                        Local {
                            module: name.duplicate(),
                            index,
                            ty: ItemType::Global(m.globals[k].ty),
                            data: Vec::new(),
                        },
                    ),
                )
            },
        }
    }
}

/// The number of items of `kind` in a parsed module.
fn kind_count(m: &ParsedModule, kind: ExportKind) -> (r: usize)
    ensures
        r == kind_len(*m, kind),
{
    match kind {
        ExportKind::Function => m.functions.len(),
        ExportKind::Table => m.tables.len(),
        ExportKind::Memory => m.memories.len(),
        ExportKind::Global => m.globals.len(),
    }
}

impl Resolver {
    /// Adds a node to the resolver of `kind`.
    fn push_node(&mut self, kind: ExportKind, node: Node)
        requires
            old(self).graphs_wf(),
            old(self).size() < index_limit(),
        ensures
            final(self).graphs_wf(),
            final(self).nodes_of(kind) == old(self).nodes_of(kind).push(node@),
            forall|other: ExportKind| other != kind ==> #[trigger] final(self).nodes_of(other) == old(self).nodes_of(other),
            final(self).size() == old(self).size() + 1,
    {
        match node {
            Node::Import(i) => match kind {
                ExportKind::Function => self.function.add_import(i),
                ExportKind::Table => self.table.add_import(i),
                ExportKind::Memory => self.memory.add_import(i),
                ExportKind::Global => self.global.add_import(i),
            },
            Node::Local(l) => match kind {
                ExportKind::Function => self.function.add_local(l),
                ExportKind::Table => self.table.add_local(l),
                ExportKind::Memory => self.memory.add_local(l),
                ExportKind::Global => self.global.add_local(l),
            },
            Node::Export(e) => match kind {
                ExportKind::Function => self.function.add_export(e),
                ExportKind::Table => self.table.add_export(e),
                ExportKind::Memory => self.memory.add_export(e),
                ExportKind::Global => self.global.add_export(e),
            },
        }
    }

    /// Adds the local definitions of `kind` among the first `count` items of
    /// a module to its resolver.
    fn add_locals(&mut self, name: &IdentifierModule, m: &ParsedModule, kind: ExportKind, count: usize)
        requires
            old(self).graphs_wf(),
            m.wf(),
            count <= kind_len(*m, kind),
            old(self).size() + kind_len(*m, kind) < index_limit(),
        ensures
            final(self).graphs_wf(),
            final(self).nodes_of(kind) == old(self).nodes_of(kind) + local_nodes(name@, *m, kind, count as nat),
            forall|other: ExportKind| other != kind ==> #[trigger] final(self).nodes_of(other) == old(self).nodes_of(other),
            final(self).size() <= old(self).size() + count,
    {
        let ghost base = *self;
        let mut x: usize = 0;
        while x < count
            invariant
                self.graphs_wf(),
                m.wf(),
                count <= kind_len(*m, kind),
                x <= count,
                base.size() + kind_len(*m, kind) < index_limit(),
                self.size() <= base.size() + x,
                self.nodes_of(kind) == base.nodes_of(kind) + local_nodes(name@, *m, kind, x as nat),
                forall|other: ExportKind| other != kind ==> #[trigger] self.nodes_of(other) == base.nodes_of(other),
            decreases count - x,
        {
            let local = Resolver::local_from(name, m, kind, x);
            if let Some(node) = local {
                self.push_node(kind, node);
            }
            assert(self.nodes_of(kind) =~= base.nodes_of(kind) + local_nodes(name@, *m, kind, (x + 1) as nat));
            x = x + 1;
        }
    }

    /// Adds the imports, local definitions and exports of a module to the
    /// resolvers of their kinds. When the parser left a function
    /// uninitialized, fails with a message that names the module, after the
    /// imports and the local functions before that one were added.
    #[verifier::rlimit(30)]
    pub fn consider(&mut self, module: &NamedParsedModule<'_>) -> (r: Result<(), Error>)
        requires
            old(self).wf(),
            module.module.wf(),
            old(self).size() + module.module.size() < index_limit(),
        ensures
            r is Err <==> has_uninitialized_function(module.module),
            r matches Err(e) ==> e matches Error::Parse(message) && message@ == uninitialized_message(module.name@),
            r is Err ==> final(self).graphs_wf() && forall|kind: ExportKind|
                #[trigger] final(self).nodes_of(kind) == old(self).nodes_of(kind) + nodes_before_failure(
                    module.name@,
                    module.module,
                    kind,
                ),
            r is Ok ==> final(self).wf() && forall|kind: ExportKind|
                #[trigger] final(self).nodes_of(kind) == old(self).nodes_of(kind) + considered_nodes(
                    module.name@,
                    module.module,
                    kind,
                ),
            final(self).size() <= old(self).size() + module.module.size(),
    {
        let m = &module.module;
        let name = IdentifierModule::new(String::from_str(module.name));
        let ghost start = *self;

        // Process all imports
        let mut j: usize = 0;
        while j < m.imports.len()
            invariant
                *m == module.module,
                self.graphs_wf(),
                m.wf(),
                j <= m.imports@.len(),
                start.size() + m.size() < index_limit(),
                self.size() == start.size() + j,
                forall|kind: ExportKind|
                    #[trigger] self.nodes_of(kind) == start.nodes_of(kind) + import_nodes(name@, *m, kind, j as nat),
            decreases m.imports@.len() - j,
        {
            let (kind, node) = Resolver::import_from(&name, m, j);
            let ghost before = *self;
            self.push_node(kind, node);
            proof {
                assert forall|kk: ExportKind|
                    #[trigger] self.nodes_of(kk) == start.nodes_of(kk) + import_nodes(name@, *m, kk, (j + 1) as nat) by {
                    if kk == kind {
                        assert(self.nodes_of(kk) =~= start.nodes_of(kk) + import_nodes(name@, *m, kk, (j + 1) as nat));
                    } else {
                        assert(before.nodes_of(kk) == self.nodes_of(kk));
                    }
                }
            }
            j = j + 1;
        }

        // A function left uninitialized by the parser cannot be resolved.
        let ghost imported = *self;
        let mut k: usize = 0;
        while k < m.functions.len()
            invariant
                *m == module.module,
                *self == imported,
                start == *old(self),
                name@ == module.name@,
                self.graphs_wf(),
                m.wf(),
                start.size() + m.size() < index_limit(),
                self.size() == start.size() + m.imports@.len(),
                forall|kind: ExportKind|
                    #[trigger] self.nodes_of(kind) == start.nodes_of(kind) + import_nodes(name@, *m, kind, m.imports@.len() as nat),
                k <= m.functions@.len(),
                forall|x: int| 0 <= x < k ==> !((#[trigger] m.functions@[x]).kind is Uninitialized),
            decreases m.functions@.len() - k,
        {
            if let ParsedFunctionKind::Uninitialized = m.functions[k].kind {
                proof {
                    lemma_first_uninitialized(*m, k as int);
                }
                self.add_locals(&name, m, ExportKind::Function, k);
                proof {
                    assert forall|kind: ExportKind|
                        #[trigger] self.nodes_of(kind) == start.nodes_of(kind) + nodes_before_failure(name@, *m, kind) by {
                        if kind == ExportKind::Function {
                            assert(self.nodes_of(kind) =~= start.nodes_of(kind) + nodes_before_failure(name@, *m, kind));
                        } else {
                            assert(self.nodes_of(kind) =~= start.nodes_of(kind) + nodes_before_failure(name@, *m, kind));
                        }
                    }
                }
                let mut message = String::from_str("walrus::FunctionKind::Uninitialized during parsing of ");
                message.append(module.name);
                return Err(Error::Parse(message));
            }
            k = k + 1;
        }

        // Process the locally defined items of each kind
        self.add_locals(&name, m, ExportKind::Function, kind_count(m, ExportKind::Function));
        self.add_locals(&name, m, ExportKind::Global, kind_count(m, ExportKind::Global));
        self.add_locals(&name, m, ExportKind::Memory, kind_count(m, ExportKind::Memory));
        self.add_locals(&name, m, ExportKind::Table, kind_count(m, ExportKind::Table));

        // Process all exports
        let mut j: usize = 0;
        while j < m.exports.len()
            invariant
                *m == module.module,
                self.graphs_wf(),
                m.wf(),
                j <= m.exports@.len(),
                start.size() + m.size() < index_limit(),
                self.size() <= start.size() + m.imports@.len() + m.functions@.len() + m.globals@.len()
                    + m.memories@.len() + m.tables@.len() + j,
                forall|kind: ExportKind|
                    #[trigger] self.nodes_of(kind) == start.nodes_of(kind) + import_nodes(name@, *m, kind, m.imports@.len())
                        + local_nodes(name@, *m, kind, kind_len(*m, kind)) + export_nodes(name@, *m, kind, j as nat),
            decreases m.exports@.len() - j,
        {
            let (kind, node) = Resolver::export_from(&name, m, j);
            let ghost before = *self;
            self.push_node(kind, node);
            proof {
                assert forall|kk: ExportKind|
                    #[trigger] self.nodes_of(kk) == start.nodes_of(kk) + import_nodes(name@, *m, kk, m.imports@.len())
                        + local_nodes(name@, *m, kk, kind_len(*m, kk)) + export_nodes(name@, *m, kk, (j + 1) as nat) by {
                    if kk == kind {
                        assert(self.nodes_of(kk) =~= start.nodes_of(kk) + import_nodes(name@, *m, kk, m.imports@.len())
                            + local_nodes(name@, *m, kk, kind_len(*m, kk)) + export_nodes(name@, *m, kk, (j + 1) as nat));
                    } else {
                        assert(before.nodes_of(kk) == self.nodes_of(kk));
                    }
                }
            }
            j = j + 1;
        }
        proof {
            assert(!has_uninitialized_function(*m));
            assert forall|kind: ExportKind|
                #[trigger] self.nodes_of(kind) == start.nodes_of(kind) + considered_nodes(name@, *m, kind) by {
                assert(self.nodes_of(kind) =~= start.nodes_of(kind) + considered_nodes(name@, *m, kind));
            }
            lemma_considered_backed(start.nodes_of(ExportKind::Function), name@, *m, ExportKind::Function);
            lemma_considered_backed(start.nodes_of(ExportKind::Table), name@, *m, ExportKind::Table);
            lemma_considered_backed(start.nodes_of(ExportKind::Memory), name@, *m, ExportKind::Memory);
            lemma_considered_backed(start.nodes_of(ExportKind::Global), name@, *m, ExportKind::Global);
        }
        Ok(())
    }
}

/// The reductions of all kinds of items.
#[derive(Debug)]
pub struct AllReducedDependencies {
    pub functions: ReducedDependencies,
    pub tables: ReducedDependencies,
    pub memories: ReducedDependencies,
    pub globals: ReducedDependencies,
}

/// The outcome of resolution: the reductions, and how exports are renamed.
#[derive(Debug)]
pub struct AllResolved {
    pub all_reduced: AllReducedDependencies,
    pub rename_map: MergeRenamer,
}

impl Resolver {
    /// Resolves one kind of item: links, type-checks as the options say, and
    /// reduces. Fails on an import cycle, and on a type mismatch unless
    /// mismatches are ignored.
    pub fn resolve_kind<Kind>(
        resolver: GraphResolver,
        merge_options: &MergeOptions,
        keep: Option<&Vec<ExportIdentifier<IdentifierItem<Kind>>>>,
    ) -> (r: Result<ReducedDependencies, Error>)
        requires
            resolver.wf(),
            exports_backed(resolver@),
        ensures
            r matches Err(Error::ImportCycle) <==> cyclic(links(resolver@)),
            r matches Err(Error::TypeMismatch(_)) <==> !cyclic(links(resolver@))
                && merge_options.link_type_mismatch == LinkTypeMismatch::Signal && has_mismatch(resolver@),
            r matches Err(Error::TypeMismatch(pairs)) ==> node_pair_views(pairs@) == mismatch_pair_views(resolver@),
            r is Err ==> (r matches Err(Error::ImportCycle) || r matches Err(Error::TypeMismatch(_))),
            r matches Ok(rd) ==> reduction_of(
                resolver@,
                resolved_edges(resolver@, merge_options.link_type_mismatch == LinkTypeMismatch::Ignore),
                keep_views(keep),
                rd,
            ),
    {
        let ghost nodes = resolver@;
        let mut linked = match resolver.link_nodes() {
            Ok(linked) => linked,
            Err(_) => {
                return Err(Error::ImportCycle);
            },
        };
        proof {
            lemma_links(nodes);
        }
        match merge_options.link_type_mismatch {
            LinkTypeMismatch::Ignore => {
                linked.type_check_mismatch_break();
                proof {
                    lemma_resolved_edges(nodes);
                }
                let rd = linked.reduce_dependencies(keep);
                proof {
                    lemma_reduction_of_same_edges(nodes, linked.edges(), resolved_edges(nodes, true), keep_views(keep), rd);
                }
                Ok(rd)
            },
            LinkTypeMismatch::Signal => {
                match linked.type_check_mismatch_signal() {
                    Ok(()) => {},
                    Err(TypeMismatch(mismatches)) => {
                        proof {
                            let i = choose|i: int| 0 <= i < linked.edges().len() && mismatch(nodes, #[trigger] linked.edges()[i]);
                            assert(mismatch(nodes, links(nodes)[i]));
                            assert(node_pair_views(mismatches@) =~= mismatch_pair_views(nodes));
                        }
                        return Err(Error::TypeMismatch(mismatches));
                    },
                }
                Ok(linked.reduce_dependencies(keep))
            },
        }
    }
}

/// The remaining exports of a kind, as (name, clash entry) pairs.
pub open spec fn concrete_exports(es: Seq<ExportView>, kind: ExportKind) -> Seq<(Seq<char>, ConcreteExportView)> {
    es.map_values(|e: ExportView| (e.identifier, ConcreteExportView { kind, exporting_module: e.module }))
}

/// All remaining exports: functions, then globals, memories and tables.
pub open spec fn all_remaining_exports(all: AllReducedDependencies) -> Seq<(Seq<char>, ConcreteExportView)> {
    concrete_exports(export_views(all.functions.remaining_exports@), ExportKind::Function)
        + concrete_exports(export_views(all.globals.remaining_exports@), ExportKind::Global)
        + concrete_exports(export_views(all.memories.remaining_exports@), ExportKind::Memory)
        + concrete_exports(export_views(all.tables.remaining_exports@), ExportKind::Table)
}

/// The entries among the first `k` that carry `name`.
pub open spec fn named_upto(all: Seq<(Seq<char>, ConcreteExportView)>, name: Seq<char>, k: nat) -> Seq<ConcreteExportView>
    decreases k,
{
    if k == 0 {
        Seq::empty()
    } else {
        let prev = named_upto(all, name, (k - 1) as nat);
        if all[k - 1].0 == name {
            prev.push(all[k - 1].1)
        } else {
            prev
        }
    }
}

/// The entries that carry `name`.
pub open spec fn named(all: Seq<(Seq<char>, ConcreteExportView)>, name: Seq<char>) -> Seq<ConcreteExportView> {
    named_upto(all, name, all.len())
}

/// The view of a clashes map.
pub open spec fn clashes_view(c: Seq<(String, Vec<ConcreteExport>)>) -> Seq<(Seq<char>, Seq<ConcreteExportView>)> {
    c.map_values(|e: (String, Vec<ConcreteExport>)| (e.0@, e.1@.map_values(|x: ConcreteExport| x@)))
}

/// `c` lists, once each, every name that more than one of `all` carries,
/// with the entries that carry it.
pub open spec fn is_clashes_of(all: Seq<(Seq<char>, ConcreteExportView)>, c: Seq<(Seq<char>, Seq<ConcreteExportView>)>) -> bool {
    &&& forall|i: int, j: int| 0 <= i < c.len() && 0 <= j < c.len() && i != j ==> (#[trigger] c[i]).0 != (#[trigger] c[j]).0
    &&& forall|i: int| 0 <= i < c.len() ==> (#[trigger] c[i]).1 == named(all, c[i].0) && c[i].1.len() > 1
    &&& forall|name: Seq<char>| #[trigger] named(all, name).len() > 1 ==> exists|i: int| 0 <= i < c.len() && (#[trigger] c[i]).0 == name
}

/// Appends the (name, clash entry) pairs of a kind's remaining exports.
fn append_concrete(out: &mut Vec<(String, ConcreteExport)>, es: &Vec<Export>, kind: ExportKind)
    ensures
        pair_views(final(out)@) == pair_views(old(out)@) + concrete_exports(export_views(es@), kind),
{
    let ghost start = pair_views(out@);
    let mut i: usize = 0;
    while i < es.len()
        invariant
            i <= es@.len(),
            pair_views(out@) == start + concrete_exports(export_views(es@), kind).take(i as int),
        decreases es@.len() - i,
    {
        let name = es[i].identifier.clone();
        let entry = ConcreteExport { kind, exporting_module: es[i].module.0.clone() };
        let ghost prev = pair_views(out@);
        let ghost item = (name@, entry@);
        out.push((name, entry));
        proof {
            let c = concrete_exports(export_views(es@), kind);
            assert(pair_views(out@) =~= prev.push(item));
            assert(c[i as int] == item);
            assert(c.take(i + 1) =~= c.take(i as int).push(c[i as int]));
            assert(pair_views(out@) =~= start + c.take(i + 1));
        }
        i = i + 1;
    }
    assert(concrete_exports(export_views(es@), kind).take(es@.len() as int) =~= concrete_exports(export_views(es@), kind));
}

/// The views of (name, clash entry) pairs.
pub open spec fn pair_views(s: Seq<(String, ConcreteExport)>) -> Seq<(Seq<char>, ConcreteExportView)> {
    s.map_values(|p: (String, ConcreteExport)| (p.0@, p.1@))
}

impl Resolver {
    /// Identifies all name clashes, as all export names should be unique.
    /// ref: <https://webassembly.github.io/spec/core/syntax/modules.html#exports>
    pub fn identify_clashes(reduced_dependencies: &AllReducedDependencies) -> (r: ClashesMap)
        ensures
            is_clashes_of(all_remaining_exports(*reduced_dependencies), clashes_view(r@)),
    {
        let mut all: Vec<(String, ConcreteExport)> = Vec::new();
        append_concrete(&mut all, &reduced_dependencies.functions.remaining_exports, ExportKind::Function);
        append_concrete(&mut all, &reduced_dependencies.globals.remaining_exports, ExportKind::Global);
        append_concrete(&mut all, &reduced_dependencies.memories.remaining_exports, ExportKind::Memory);
        append_concrete(&mut all, &reduced_dependencies.tables.remaining_exports, ExportKind::Table);
        let ghost everything = pair_views(all@);
        assert(everything =~= all_remaining_exports(*reduced_dependencies));

        // Group the exports by name
        let mut keys: Vec<String> = Vec::new();
        let mut members: Vec<Vec<ConcreteExport>> = Vec::new();
        let mut i: usize = 0;
        while i < all.len()
            invariant
                everything == pair_views(all@),
                i <= all@.len(),
                keys@.len() == members@.len(),
                forall|g: int, h: int| 0 <= g < keys@.len() && 0 <= h < keys@.len() && g != h ==> (#[trigger] keys@[g])@ != (#[trigger] keys@[h])@,
                forall|g: int| 0 <= g < keys@.len() ==> (#[trigger] members@[g])@.map_values(|x: ConcreteExport| x@) == named_upto(everything, keys@[g]@, i as nat),
                forall|name: Seq<char>| #[trigger] named_upto(everything, name, i as nat).len() > 0 ==> exists|g: int| 0 <= g < keys@.len() && (#[trigger] keys@[g])@ == name,
            decreases all@.len() - i,
        {
            let mut found: Option<usize> = None;
            let mut g: usize = 0;
            while g < keys.len()
                invariant
                    g <= keys@.len(),
                    i < all@.len(),
                    found matches Some(x) ==> x < keys@.len() && keys@[x as int]@ == all@[i as int].0@,
                    found is None ==> forall|h: int| 0 <= h < g ==> (#[trigger] keys@[h])@ != all@[i as int].0@,
                decreases keys@.len() - g,
            {
                if found.is_none() && keys[g] == all[i].0 {
                    found = Some(g);
                }
                g = g + 1;
            }
            let ghost name_i = everything[i as int].0;
            proof {
                assert forall|name: Seq<char>| #[trigger] named_upto(everything, name, (i + 1) as nat) == if name == name_i {
                    named_upto(everything, name, i as nat).push(everything[i as int].1)
                } else {
                    named_upto(everything, name, i as nat)
                } by {}
            }
            match found {
                Some(x) => {
                    let ghost before = members@;
                    let entry = all[i].1.duplicate();
                    members[x].push(entry);
                    proof {
                        assert forall|h: int| 0 <= h < keys@.len() implies (#[trigger] members@[h])@.map_values(|y: ConcreteExport| y@) == named_upto(everything, keys@[h]@, (i + 1) as nat) by {
                            if h == x {
                                assert(members@[h]@.map_values(|y: ConcreteExport| y@) =~= before[h]@.map_values(|y: ConcreteExport| y@).push(everything[i as int].1));
                            } else {
                                assert(members@[h] == before[h]);
                                assert(keys@[h]@ != keys@[x as int]@);
                            }
                        }
                        assert forall|name: Seq<char>| #[trigger] named_upto(everything, name, (i + 1) as nat).len() > 0 implies exists|h: int| 0 <= h < keys@.len() && (#[trigger] keys@[h])@ == name by {
                            if name != name_i {
                                assert(named_upto(everything, name, i as nat).len() > 0);
                            } else {
                                assert(keys@[x as int]@ == name);
                            }
                        }
                    }
                },
                None => {
                    let ghost before_keys = keys@;
                    let ghost before = members@;
                    let name = all[i].0.clone();
                    let entry = all[i].1.duplicate();
                    let mut list: Vec<ConcreteExport> = Vec::new();
                    list.push(entry);
                    keys.push(name);
                    members.push(list);
                    proof {
                        assert(named_upto(everything, name_i, i as nat).len() == 0) by {
                            if named_upto(everything, name_i, i as nat).len() > 0 {
                                let h = choose|h: int| 0 <= h < before_keys.len() && (#[trigger] before_keys[h])@ == name_i;
                            }
                        }
                        assert forall|h: int| 0 <= h < keys@.len() implies (#[trigger] members@[h])@.map_values(|y: ConcreteExport| y@) == named_upto(everything, keys@[h]@, (i + 1) as nat) by {
                            if h == before_keys.len() {
                                assert(members@[h]@.map_values(|y: ConcreteExport| y@) =~= named_upto(everything, name_i, i as nat).push(everything[i as int].1));
                            } else {
                                assert(members@[h] == before[h]);
                                assert(keys@[h] == before_keys[h]);
                            }
                        }
                        assert forall|g1: int, h1: int| 0 <= g1 < keys@.len() && 0 <= h1 < keys@.len() && g1 != h1 implies (#[trigger] keys@[g1])@ != (#[trigger] keys@[h1])@ by {
                            if g1 < before_keys.len() && h1 < before_keys.len() {
                                assert(keys@[g1] == before_keys[g1]);
                                assert(keys@[h1] == before_keys[h1]);
                            } else if g1 < before_keys.len() {
                                assert(keys@[g1] == before_keys[g1]);
                            } else {
                                assert(keys@[h1] == before_keys[h1]);
                            }
                        }
                        assert forall|name: Seq<char>| #[trigger] named_upto(everything, name, (i + 1) as nat).len() > 0 implies exists|h: int| 0 <= h < keys@.len() && (#[trigger] keys@[h])@ == name by {
                            if name != name_i {
                                assert(named_upto(everything, name, i as nat).len() > 0);
                                let h = choose|h: int| 0 <= h < before_keys.len() && (#[trigger] before_keys[h])@ == name;
                                assert(keys@[h] == before_keys[h]);
                            } else {
                                assert(keys@[before_keys.len() as int]@ == name);
                            }
                        }
                    }
                },
            }
            i = i + 1;
        }

        // Remove all non-clashes
        let mut result: ClashesMap = Vec::new();
        let mut g: usize = 0;
        while g < keys.len()
            invariant
                everything == all_remaining_exports(*reduced_dependencies),
                everything.len() == all@.len(),
                g <= keys@.len(),
                keys@.len() == members@.len(),
                forall|a: int, b: int| 0 <= a < keys@.len() && 0 <= b < keys@.len() && a != b ==> (#[trigger] keys@[a])@ != (#[trigger] keys@[b])@,
                forall|a: int| 0 <= a < keys@.len() ==> (#[trigger] members@[a])@.map_values(|x: ConcreteExport| x@) == named(everything, keys@[a]@),
                forall|name: Seq<char>| #[trigger] named(everything, name).len() > 0 ==> exists|a: int| 0 <= a < keys@.len() && (#[trigger] keys@[a])@ == name,
                forall|r: int| 0 <= r < result@.len() ==> exists|a: int| 0 <= a < g && (#[trigger] clashes_view(result@)[r]).0 == keys@[a]@,
                forall|r: int| 0 <= r < result@.len() ==> (#[trigger] clashes_view(result@)[r]).1 == named(everything, clashes_view(result@)[r].0) && clashes_view(result@)[r].1.len() > 1,
                forall|r1: int, r2: int| 0 <= r1 < result@.len() && 0 <= r2 < result@.len() && r1 != r2 ==> (#[trigger] clashes_view(result@)[r1]).0 != (#[trigger] clashes_view(result@)[r2]).0,
                forall|a: int| 0 <= a < g && (#[trigger] members@[a])@.len() > 1 ==> exists|r: int| 0 <= r < result@.len() && (#[trigger] clashes_view(result@)[r]).0 == keys@[a]@,
            decreases keys@.len() - g,
        {
            if members[g].len() > 1 {
                let ghost before = clashes_view(result@);
                let mut copies: Vec<ConcreteExport> = Vec::new();
                let mut x: usize = 0;
                while x < members[g].len()
                    invariant
                        g < members@.len(),
                        x <= members@[g as int]@.len(),
                        copies@.map_values(|y: ConcreteExport| y@) == members@[g as int]@.map_values(|y: ConcreteExport| y@).take(x as int),
                    decreases members@[g as int]@.len() - x,
                {
                    let ghost prev = copies@.map_values(|y: ConcreteExport| y@);
                    let copy = members[g][x].duplicate();
                    let ghost item = copy@;
                    copies.push(copy);
                    proof {
                        let target = members@[g as int]@.map_values(|y: ConcreteExport| y@);
                        assert(copies@.map_values(|y: ConcreteExport| y@) =~= prev.push(item));
                        assert(target[x as int] == item);
                        assert(target.take(x + 1) =~= target.take(x as int).push(target[x as int]));
                    }
                    x = x + 1;
                }
                assert(members@[g as int]@.map_values(|y: ConcreteExport| y@).take(x as int) =~= members@[g as int]@.map_values(|y: ConcreteExport| y@));
                result.push((keys[g].clone(), copies));
                proof {
                    let now = clashes_view(result@);
                    assert(now =~= before.push((keys@[g as int]@, members@[g as int]@.map_values(|y: ConcreteExport| y@))));
                    assert forall|r1: int, r2: int| 0 <= r1 < now.len() && 0 <= r2 < now.len() && r1 != r2 implies (#[trigger] now[r1]).0 != (#[trigger] now[r2]).0 by {
                        if r1 < before.len() && r2 < before.len() {
                            assert(now[r1] == before[r1]);
                            assert(now[r2] == before[r2]);
                        } else if r1 < before.len() {
                            assert(now[r1] == before[r1]);
                            let a = choose|a: int| 0 <= a < g && (#[trigger] clashes_view(result@)[r1]).0 == keys@[a]@;
                        } else {
                            assert(now[r2] == before[r2]);
                            let a = choose|a: int| 0 <= a < g && (#[trigger] clashes_view(result@)[r2]).0 == keys@[a]@;
                        }
                    }
                    assert forall|r: int| 0 <= r < now.len() implies exists|a: int| 0 <= a < g + 1 && (#[trigger] clashes_view(result@)[r]).0 == keys@[a]@ by {
                        if r < before.len() {
                            assert(now[r] == before[r]);
                            let a = choose|a: int| 0 <= a < g && (#[trigger] clashes_view(result@)[r]).0 == keys@[a]@;
                        } else {
                            assert(now[r].0 == keys@[g as int]@);
                        }
                    }
                    assert forall|a: int| 0 <= a < g + 1 && (#[trigger] members@[a])@.len() > 1 implies exists|r: int| 0 <= r < now.len() && (#[trigger] clashes_view(result@)[r]).0 == keys@[a]@ by {
                        if a < g {
                            let r = choose|r: int| 0 <= r < before.len() && (#[trigger] before[r]).0 == keys@[a]@;
                            assert(now[r] == before[r]);
                        } else {
                            assert(now[before.len() as int].0 == keys@[a]@);
                        }
                    }
                }
            }
            g = g + 1;
        }
        proof {
            let c = clashes_view(result@);
            assert forall|name: Seq<char>| #[trigger] named(everything, name).len() > 1 implies exists|r: int| 0 <= r < c.len() && (#[trigger] c[r]).0 == name by {
                let a = choose|a: int| 0 <= a < keys@.len() && (#[trigger] keys@[a])@ == name;
                assert(members@[a]@.map_values(|x: ConcreteExport| x@) == named(everything, keys@[a]@));
                assert(members@[a]@.len() > 1);
            }
        }
        result
    }
}

/// Computes, during the second pass, the names of the exports of the merged module.
#[derive(Debug)]
pub struct MergeRenamer {
    /// The clashing names, with the exports that carry them.
    pub clashes_map: ClashesMap,
    pub rename_strategy: RenameStrategy,
    /// The clashing names met so far.
    pub rename_encountered: Vec<String>,
}

/// The views of a sequence of strings.
pub open spec fn string_views(s: Seq<String>) -> Seq<Seq<char>> {
    s.map_values(|x: String| x@)
}

impl MergeRenamer {
    /// A renamer for the given clashes.
    pub fn new(clashes_map: ClashesMap, rename_strategy: RenameStrategy) -> (r: Self)
        ensures
            r.clashes_map == clashes_map,
            r.rename_strategy == rename_strategy,
            r.rename_encountered@.len() == 0,
    {
        MergeRenamer { clashes_map, rename_strategy, rename_encountered: Vec::new() }
    }

    /// A renamer that renames nothing.
    pub fn for_no_clashes_present() -> (r: Self)
        ensures
            r.clashes_map@.len() == 0,
            r.rename_strategy == default_renamer_value(),
            r.rename_encountered@.len() == 0,
    {
        let clashes_map = Vec::new();
        let rename_strategy = default_renamer(); // unused, as nothing clashes
        MergeRenamer { clashes_map, rename_strategy, rename_encountered: Vec::new() }
    }

    /// Whether `name` is a clashing name.
    fn is_clashing(&self, name: &String) -> (r: bool)
        ensures
            r == clash_names(self.clashes_map@).contains(name@),
    {
        let mut i: usize = 0;
        while i < self.clashes_map.len()
            invariant
                i <= self.clashes_map@.len(),
                forall|j: int| 0 <= j < i ==> clash_names(self.clashes_map@)[j] != name@,
            decreases self.clashes_map@.len() - i,
        {
            if self.clashes_map[i].0 == *name {
                assert(clash_names(self.clashes_map@)[i as int] == name@);
                return true;
            }
            i = i + 1;
        }
        false
    }

    /// This method will compute the export name in the output module given the
    /// configuration for merging. That is, if exports names may conflict, the
    /// configuration will determine if and how a new export name is computed.
    ///
    /// A clashing export is renamed (module name, `:`, export name), except
    /// the first export met with that name when the strategy keeps the first
    /// occurrence. See [`ClashingExports`] for the different configuration options.
    pub fn compute_export_name(&mut self, old_export: &mut Export, kind: ExportKind)
        ensures
            final(self).clashes_map == old(self).clashes_map,
            final(self).rename_strategy == old(self).rename_strategy,
            string_views(final(self).rename_encountered@) == if clash_names(old(self).clashes_map@).contains(old(old_export)@.identifier)
                && !string_views(old(self).rename_encountered@).contains(old(old_export)@.identifier) {
                string_views(old(self).rename_encountered@).push(old(old_export)@.identifier)
            } else {
                string_views(old(self).rename_encountered@)
            },
            final(old_export)@ == if clash_names(old(self).clashes_map@).contains(old(old_export)@.identifier)
                && (old(self).rename_strategy.first_occurrence || string_views(old(self).rename_encountered@).contains(old(old_export)@.identifier)) {
                ExportView { identifier: spec_default_rename(old(old_export)@.module, old(old_export)@.identifier), ..old(old_export)@ }
            } else {
                old(old_export)@
            },
    {
        let clashes = self.is_clashing(&old_export.identifier);
        if clashes {
            let mut newly_inserted = true;
            let mut i: usize = 0;
            while i < self.rename_encountered.len()
                invariant
                    i <= self.rename_encountered@.len(),
                    newly_inserted == forall|j: int| 0 <= j < i ==> string_views(self.rename_encountered@)[j] != old_export.identifier@,
                decreases self.rename_encountered@.len() - i,
            {
                assert(string_views(self.rename_encountered@)[i as int] == self.rename_encountered@[i as int]@);
                if self.rename_encountered[i] == old_export.identifier {
                    newly_inserted = false;
                }
                i = i + 1;
            }
            let ghost before = string_views(self.rename_encountered@);
            if newly_inserted {
                self.rename_encountered.push(old_export.identifier.clone());
                assert(string_views(self.rename_encountered@) =~= before.push(old_export.identifier@));
            } else {
                proof {
                    let j = choose|j: int| 0 <= j < before.len() && before[j] == old_export.identifier@;
                    assert(before.contains(old_export.identifier@));
                }
            }

            // If renaming the first is not enabled but the insertion was new:
            if !self.rename_strategy.first_occurrence && newly_inserted {
                // Skip the rename
                return;
            }

            // Perform the rename
            let renamer = match kind {
                ExportKind::Function => *self.rename_strategy.functions(),
                ExportKind::Table => *self.rename_strategy.tables(),
                ExportKind::Memory => *self.rename_strategy.memories(),
                ExportKind::Global => *self.rename_strategy.globals(),
            };
            let current = IdentifierItem::<()>::new(old_export.identifier.clone());
            let renamed = renamer.rename(&old_export.module, current);
            old_export.identifier = renamed.into_string();
        }
    }
}

/// The names of a clashes map.
pub open spec fn clash_names(c: Seq<(String, Vec<ConcreteExport>)>) -> Seq<Seq<char>> {
    c.map_values(|e: (String, Vec<ConcreteExport>)| e.0@)
}

/// The strategy that [`default_renamer`] returns.
pub open spec fn default_renamer_value() -> RenameStrategy {
    RenameStrategy {
        first_occurrence: true,
        functions: Renamer::JoinWithModule,
        tables: Renamer::JoinWithModule,
        memories: Renamer::JoinWithModule,
        globals: Renamer::JoinWithModule,
        tags: Renamer::JoinWithModule,
    }
}

impl ClashingExports {
    /// Turns the clashes into a renamer, or into an error when clashes are to be signalled.
    pub fn handle(self, clashes: ClashesMap) -> (r: Result<MergeRenamer, Error>)
        ensures
            clashes@.len() == 0 ==> (r matches Ok(renamer) && renamer.clashes_map@.len() == 0
                && renamer.rename_strategy == default_renamer_value() && renamer.rename_encountered@.len() == 0),
            clashes@.len() > 0 ==> match self {
                ClashingExports::Rename(strategy) => (r matches Ok(renamer) && renamer.clashes_map == clashes
                    && renamer.rename_strategy == strategy && renamer.rename_encountered@.len() == 0),
                ClashingExports::Signal => (r matches Err(Error::ExportNameClash(c)) && c == clashes),
            },
    {
        if clashes.len() == 0 {
            return Ok(MergeRenamer::for_no_clashes_present());
        }
        match self {
            ClashingExports::Rename(strategy) => Ok(MergeRenamer::new(clashes, strategy)),
            ClashingExports::Signal => Err(Error::ExportNameClash(clashes)),
        }
    }
}

/// How resolution of one kind fails: `Some(true)` on an import cycle,
/// `Some(false)` on a signalled type mismatch, `None` when it succeeds.
pub open spec fn kind_failure(nodes: Seq<NodeView>, merge_options: MergeOptions) -> Option<bool> {
    if cyclic(links(nodes)) {
        Some(true)
    } else if merge_options.link_type_mismatch == LinkTypeMismatch::Signal && has_mismatch(nodes) {
        Some(false)
    } else {
        None
    }
}

/// The views of the exports to keep of `kind`.
pub open spec fn keep_of(merge_options: MergeOptions, kind: ExportKind) -> Option<Seq<(Seq<char>, Seq<char>)>> {
    match merge_options.keep_exports {
        Some(k) => Some(
            match kind {
                ExportKind::Function => identifier_views(k.functions@),
                ExportKind::Table => identifier_views(k.tables@),
                ExportKind::Memory => identifier_views(k.memories@),
                ExportKind::Global => identifier_views(k.globals@),
            },
        ),
        None => None,
    }
}

/// `rd` is the reduction of the resolver of `kind`.
pub open spec fn reduces(r: Resolver, merge_options: MergeOptions, kind: ExportKind, rd: ReducedDependencies) -> bool {
    reduction_of(
        r.nodes_of(kind),
        resolved_edges(r.nodes_of(kind), merge_options.link_type_mismatch == LinkTypeMismatch::Ignore),
        keep_of(merge_options, kind),
        rd,
    )
}

/// `all` holds the reductions of all resolvers.
pub open spec fn reduces_all(r: Resolver, merge_options: MergeOptions, all: AllReducedDependencies) -> bool {
    &&& reduces(r, merge_options, ExportKind::Function, all.functions)
    &&& reduces(r, merge_options, ExportKind::Table, all.tables)
    &&& reduces(r, merge_options, ExportKind::Memory, all.memories)
    &&& reduces(r, merge_options, ExportKind::Global, all.globals)
}

/// The failure of resolution, if any: that of the first kind that fails, in
/// the order functions, tables, memories, globals.
pub open spec fn first_failure(r: Resolver, merge_options: MergeOptions) -> Option<bool> {
    let f = kind_failure(r.nodes_of(ExportKind::Function), merge_options);
    let t = kind_failure(r.nodes_of(ExportKind::Table), merge_options);
    let m = kind_failure(r.nodes_of(ExportKind::Memory), merge_options);
    let g = kind_failure(r.nodes_of(ExportKind::Global), merge_options);
    if f is Some {
        f
    } else if t is Some {
        t
    } else if m is Some {
        m
    } else {
        g
    }
}

/// The nodes of the first kind whose resolution fails, in the order
/// functions, tables, memories, globals.
pub open spec fn first_failing_nodes(r: Resolver, merge_options: MergeOptions) -> Seq<NodeView> {
    if kind_failure(r.nodes_of(ExportKind::Function), merge_options) is Some {
        r.nodes_of(ExportKind::Function)
    } else if kind_failure(r.nodes_of(ExportKind::Table), merge_options) is Some {
        r.nodes_of(ExportKind::Table)
    } else if kind_failure(r.nodes_of(ExportKind::Memory), merge_options) is Some {
        r.nodes_of(ExportKind::Memory)
    } else {
        r.nodes_of(ExportKind::Global)
    }
}

/// The outcome of resolving with these options fits the resolver.
pub open spec fn resolution_outcome(r: Resolver, merge_options: MergeOptions, result: Result<AllResolved, Error>) -> bool {
    match first_failure(r, merge_options) {
        Some(true) => result matches Err(Error::ImportCycle),
        Some(false) => result matches Err(Error::TypeMismatch(pairs)) && node_pair_views(pairs@)
            == mismatch_pair_views(first_failing_nodes(r, merge_options)),
        None => match result {
            Ok(resolved) => {
                &&& reduces_all(r, merge_options, resolved.all_reduced)
                &&& resolved.rename_map.rename_encountered@.len() == 0
                &&& if exists|name: Seq<char>| #[trigger] named(all_remaining_exports(resolved.all_reduced), name).len() > 1 {
                    &&& merge_options.clashing_exports matches ClashingExports::Rename(strategy)
                        && resolved.rename_map.rename_strategy == strategy
                    &&& is_clashes_of(all_remaining_exports(resolved.all_reduced), clashes_view(resolved.rename_map.clashes_map@))
                } else {
                    &&& resolved.rename_map.clashes_map@.len() == 0
                    &&& resolved.rename_map.rename_strategy == default_renamer_value()
                }
            },
            Err(Error::ExportNameClash(clashes)) => {
                &&& merge_options.clashing_exports is Signal
                &&& clashes@.len() > 0
                &&& exists|all: AllReducedDependencies| #[trigger] reduces_all(r, merge_options, all)
                    && is_clashes_of(all_remaining_exports(all), clashes_view(clashes@))
            },
            Err(_) => false,
        },
    }
}

/// Law: when type mismatches are signalled, no kind of item has an import
/// cycle and some import is linked to an export of another type, resolution
/// fails with a type mismatch.
pub proof fn lemma_signalled_mismatch_fails(
    r: Resolver,
    merge_options: MergeOptions,
    result: Result<AllResolved, Error>,
)
    requires
        resolution_outcome(r, merge_options, result),
        merge_options.link_type_mismatch == LinkTypeMismatch::Signal,
        forall|kind: ExportKind| !cyclic(links(#[trigger] r.nodes_of(kind))),
        exists|kind: ExportKind| has_mismatch(#[trigger] r.nodes_of(kind)),
    ensures
        result matches Err(Error::TypeMismatch(_)),
{
    let kind = choose|kind: ExportKind| has_mismatch(#[trigger] r.nodes_of(kind));
    assert(!cyclic(links(r.nodes_of(ExportKind::Function))));
    assert(!cyclic(links(r.nodes_of(ExportKind::Table))));
    assert(!cyclic(links(r.nodes_of(ExportKind::Memory))));
    assert(!cyclic(links(r.nodes_of(ExportKind::Global))));
    assert(kind_failure(r.nodes_of(kind), merge_options) == Some(false));
}

impl Resolver {
    /// Resolves every kind of item, then checks that the remaining exports
    /// have distinct names, or prepares their renaming.
    pub fn resolve(self, merge_options: &MergeOptions) -> (r: Result<AllResolved, Error>)
        requires
            self.wf(),
        ensures
            resolution_outcome(self, *merge_options, r),
    {
        let ghost me = self;
        let Resolver { function, table, memory, global } = self;
        let (keep_functions, keep_tables, keep_memories, keep_globals) = match &merge_options.keep_exports {
            Some(k) => (Some(k.functions()), Some(k.tables()), Some(k.memories()), Some(k.globals())),
            None => (None, None, None, None),
        };
        let functions = Resolver::resolve_kind(function, merge_options, keep_functions)?;
        let tables = Resolver::resolve_kind(table, merge_options, keep_tables)?;
        let memories = Resolver::resolve_kind(memory, merge_options, keep_memories)?;
        let globals = Resolver::resolve_kind(global, merge_options, keep_globals)?;
        let all_reduced = AllReducedDependencies { functions, tables, memories, globals };
        proof {
            assert(reduces_all(me, *merge_options, all_reduced));
        }

        let clashes = Resolver::identify_clashes(&all_reduced);
        let rename_map = merge_options.clashing_exports.handle(clashes)?;
        proof {
            let c = clashes_view(clashes@);
            let everything = all_remaining_exports(all_reduced);
            if exists|name: Seq<char>| #[trigger] named(everything, name).len() > 1 {
                let name = choose|name: Seq<char>| #[trigger] named(everything, name).len() > 1;
                let i = choose|i: int| 0 <= i < c.len() && (#[trigger] c[i]).0 == name;
            } else if clashes@.len() > 0 {
                assert(c[0].1.len() > 1);
                assert(named(everything, c[0].0).len() > 1);
            }
        }
        Ok(AllResolved { all_reduced, rename_map })
    }
}

/// The nodes that the first `n` modules add to the resolver of `kind`.
pub open spec fn all_considered(modules: Seq<&NamedParsedModule>, kind: ExportKind, n: nat) -> Seq<NodeView>
    decreases n,
{
    if n == 0 {
        Seq::empty()
    } else {
        all_considered(modules, kind, (n - 1) as nat) + considered_nodes(
            modules[n - 1].name@,
            modules[n - 1].module,
            kind,
        )
    }
}

/// The total size of the first `n` modules.
pub open spec fn modules_size(modules: Seq<&NamedParsedModule>, n: nat) -> nat
    decreases n,
{
    if n == 0 {
        0
    } else {
        modules_size(modules, (n - 1) as nat) + modules[n - 1].module.size()
    }
}

/// Considers every module in order, then resolves. Fails on the first
/// module with an uninitialized function; otherwise the outcome is that of
/// resolving the nodes of all modules.
pub fn resolve_modules(modules: &[&NamedParsedModule<'_>], merge_options: &MergeOptions) -> (r: Result<AllResolved, Error>)
    requires
        forall|i: int| 0 <= i < modules@.len() ==> (#[trigger] modules@[i]).module.wf(),
        modules_size(modules@, modules@.len() as nat) < index_limit(),
    ensures
        r matches Err(Error::Parse(_)) <==> exists|i: int|
            0 <= i < modules@.len() && has_uninitialized_function((#[trigger] modules@[i]).module),
        r matches Err(Error::Parse(message)) ==> exists|i: int|
            0 <= i < modules@.len() && has_uninitialized_function((#[trigger] modules@[i]).module)
                && (forall|x: int| 0 <= x < i ==> !has_uninitialized_function((#[trigger] modules@[x]).module))
                && message@ == uninitialized_message(modules@[i].name@),
        !(exists|i: int| 0 <= i < modules@.len() && has_uninitialized_function((#[trigger] modules@[i]).module))
            ==> exists|s: Resolver| s.wf() && (forall|kind: ExportKind| #[trigger] s.nodes_of(kind)
            == all_considered(modules@, kind, modules@.len() as nat)) && resolution_outcome(s, *merge_options, r),
{
    // First pass: consider each parsed module
    let mut resolver = Resolver::new();
    let mut i: usize = 0;
    while i < modules.len()
        invariant
            i <= modules@.len(),
            forall|x: int| 0 <= x < modules@.len() ==> (#[trigger] modules@[x]).module.wf(),
            modules_size(modules@, modules@.len() as nat) < index_limit(),
            resolver.wf(),
            resolver.size() <= modules_size(modules@, i as nat),
            forall|x: int| 0 <= x < i ==> !has_uninitialized_function((#[trigger] modules@[x]).module),
            forall|kind: ExportKind| #[trigger] resolver.nodes_of(kind) == all_considered(modules@, kind, i as nat),
        decreases modules@.len() - i,
    {
        proof {
            lemma_modules_size_monotone(modules@, (i + 1) as nat, modules@.len() as nat);
        }
        let considered = resolver.consider(modules[i]);
        if let Err(e) = considered {
            return Err(e);
        }
        i = i + 1;
    }
    // Next, with the given modules, resolve imports & exports
    let ghost before = resolver;
    let r = resolver.resolve(merge_options);
    proof {
        assert(before.wf() && (forall|kind: ExportKind| #[trigger] before.nodes_of(kind)
            == all_considered(modules@, kind, modules@.len() as nat)) && resolution_outcome(before, *merge_options, r));
    }
    r
}

/// Whether the modules together are small enough for [`resolve_modules`].
pub fn modules_fit(modules: &[&NamedParsedModule<'_>]) -> (r: bool)
    ensures
        r == (modules_size(modules@, modules@.len() as nat) < index_limit()),
{
    let limit: u128 = 0xffff_fffe;
    let mut total: u128 = 0;
    let mut i: usize = 0;
    while i < modules.len()
        invariant
            i <= modules@.len(),
            limit == index_limit(),
            total == modules_size(modules@, i as nat),
            total < limit,
        decreases modules@.len() - i,
    {
        let m = &modules[i].module;
        let size: u128 = m.imports.len() as u128 + m.functions.len() as u128 + m.globals.len() as u128
            + m.memories.len() as u128 + m.tables.len() as u128 + m.exports.len() as u128;
        assert(size == m.size());
        if total + size >= limit {
            proof {
                lemma_modules_size_monotone(modules@, (i + 1) as nat, modules@.len() as nat);
            }
            return false;
        }
        total = total + size;
        i = i + 1;
    }
    true
}

proof fn lemma_modules_size_monotone(modules: Seq<&NamedParsedModule>, a: nat, b: nat)
    requires
        a <= b,
    ensures
        modules_size(modules, a) <= modules_size(modules, b),
    decreases b - a,
{
    if a < b {
        lemma_modules_size_monotone(modules, a, (b - 1) as nat);
    }
}

/// The nodes a well-formed module adds keep every export backed by an item
/// of its module.
proof fn lemma_considered_backed(old_nodes: Seq<NodeView>, name: Seq<char>, m: ParsedModule, kind: ExportKind)
    requires
        exports_backed(old_nodes),
        m.wf(),
        !has_uninitialized_function(m),
    ensures
        exports_backed(old_nodes + considered_nodes(name, m, kind)),
{
    let imps = import_nodes(name, m, kind, m.imports@.len());
    let locs = local_nodes(name, m, kind, kind_len(m, kind));
    let exps = export_nodes(name, m, kind, m.exports@.len());
    let new = old_nodes + considered_nodes(name, m, kind);
    lemma_import_nodes(name, m, kind, m.imports@.len());
    lemma_local_nodes(name, m, kind, kind_len(m, kind));
    lemma_export_nodes(name, m, kind, m.exports@.len());
    assert(new =~= old_nodes + imps + locs + exps);
    assert forall|p: int| 0 <= p < new.len() && #[trigger] new[p] is Export implies link_target_backed(new, p) by {
        if p < old_nodes.len() {
            assert(new[p] == old_nodes[p]);
            let e = new[p]->Export_0;
            lemma_last_definition_exists(old_nodes, e.module, e.index, old_nodes.len());
            let j = choose|j: int| 0 <= j < old_nodes.len() && definition_matches(#[trigger] old_nodes[j], e.module, e.index);
            assert(new[j] == old_nodes[j]);
            lemma_last_definition_exists(new, e.module, e.index, new.len());
        } else if p < old_nodes.len() + imps.len() {
            let x = p - old_nodes.len();
            assert(new[p] == imps[x]);
            let j = choose|j: int| 0 <= j < m.imports@.len() && import_node(name, m, j, kind) == Some(#[trigger] imps[x]);
        } else if p < old_nodes.len() + imps.len() + locs.len() {
            let x = p - old_nodes.len() - imps.len();
            assert(new[p] == locs[x]);
        } else {
            let x = p - old_nodes.len() - imps.len() - locs.len();
            assert(new[p] == exps[x]);
            let jj = choose|jj: int| 0 <= jj < m.exports@.len() && export_node(name, m, jj, kind) == Some(#[trigger] exps[x]);
            let e = new[p]->Export_0;
            let k = e.index;
            assert(e.module == name);
            // the exported item is an import or a local definition of the module
            let def: int = match kind {
                ExportKind::Function => {
                    assert(m.exports@[jj].item == ExportedItem::Function(k));
                    if m.functions@[k as int].kind is Local {
                        assert(local_node(name, m, k as int, kind) is Some);
                        let y = choose|y: int| 0 <= y < locs.len() && locs[y] == local_node(name, m, k as int, kind)->0;
                        old_nodes.len() + imps.len() + y
                    } else {
                        assert(!(m.functions@[k as int].kind is Uninitialized));
                        let i = choose|i: int| 0 <= i < m.imports@.len() && (#[trigger] m.imports@[i]).item == ImportedItem::Function(k as int as u64);
                        assert(import_node(name, m, i, kind) is Some);
                        let y = choose|y: int| 0 <= y < imps.len() && imps[y] == import_node(name, m, i, kind)->0;
                        old_nodes.len() + y
                    }
                },
                ExportKind::Table => {
                    assert(m.exports@[jj].item == ExportedItem::Table(k));
                    if !m.tables@[k as int].imported {
                        assert(local_node(name, m, k as int, kind) is Some);
                        let y = choose|y: int| 0 <= y < locs.len() && locs[y] == local_node(name, m, k as int, kind)->0;
                        old_nodes.len() + imps.len() + y
                    } else {
                        let i = choose|i: int| 0 <= i < m.imports@.len() && (#[trigger] m.imports@[i]).item == ImportedItem::Table(k as int as u64);
                        assert(import_node(name, m, i, kind) is Some);
                        let y = choose|y: int| 0 <= y < imps.len() && imps[y] == import_node(name, m, i, kind)->0;
                        old_nodes.len() + y
                    }
                },
                ExportKind::Memory => {
                    assert(m.exports@[jj].item == ExportedItem::Memory(k));
                    if !m.memories@[k as int].imported {
                        assert(local_node(name, m, k as int, kind) is Some);
                        let y = choose|y: int| 0 <= y < locs.len() && locs[y] == local_node(name, m, k as int, kind)->0;
                        old_nodes.len() + imps.len() + y
                    } else {
                        let i = choose|i: int| 0 <= i < m.imports@.len() && (#[trigger] m.imports@[i]).item == ImportedItem::Memory(k as int as u64);
                        assert(import_node(name, m, i, kind) is Some);
                        let y = choose|y: int| 0 <= y < imps.len() && imps[y] == import_node(name, m, i, kind)->0;
                        old_nodes.len() + y
                    }
                },
                ExportKind::Global => {
                    assert(m.exports@[jj].item == ExportedItem::Global(k));
                    if !m.globals@[k as int].imported {
                        assert(local_node(name, m, k as int, kind) is Some);
                        let y = choose|y: int| 0 <= y < locs.len() && locs[y] == local_node(name, m, k as int, kind)->0;
                        old_nodes.len() + imps.len() + y
                    } else {
                        let i = choose|i: int| 0 <= i < m.imports@.len() && (#[trigger] m.imports@[i]).item == ImportedItem::Global(k as int as u64);
                        assert(import_node(name, m, i, kind) is Some);
                        let y = choose|y: int| 0 <= y < imps.len() && imps[y] == import_node(name, m, i, kind)->0;
                        old_nodes.len() + y
                    }
                },
            };
            assert(definition_matches(new[def], name, k));
            lemma_last_definition_exists(new, e.module, e.index, new.len());
        }
    }
}

/// Export `p` names an item of its module.
spec fn link_target_backed(nodes: Seq<NodeView>, p: int) -> bool {
    crate::resolver::link_target(nodes, p) is Some
}

} // verus!
