//! The second pass: what the merged module holds, and where each item of
//! an input module ends up in it.
pub mod inclusion;
pub mod old_to_new_mapping;
pub mod provenance_identifier;
pub mod walrus_copy;

use crate::error::Error;
use crate::graph::{
    has_edge, index_limit, is_path, lemma_path_suffix, lemma_trivial_path, path_step, reachable,
    EdgeTriple,
};
use crate::kinds::{ExportKind, IdentifierModule};
use crate::merge_builder::{
    all_considered, clash_names, keep_of, lemma_considered_definitions_unique, reduces, resolution_outcome,
    string_views, AllResolved, MergeRenamer, Resolver,
};
use crate::merge_options::{spec_default_rename, LinkTypeMismatch, MergeOptions};
use crate::merger::old_to_new_mapping::IdMap;
use crate::merger::provenance_identifier::{Identifier, Old};
use crate::named_module::NamedParsedModule;
use crate::resolver::dependency_reduction::{
    export_views, exports_backed, functional_links, has_predecessor, has_successor, import_views,
    is_remaining_export, is_remaining_import, is_source, lemma_reduction_source_unique, reduction_of,
    ReducedDependencies,
};
use crate::resolver::order::lemma_resolved_links_functional;
use crate::resolver::{
    is_link, lemma_last_definition, lemma_link_target, lemma_links, lemma_without_mismatches, links,
    link_target, mismatch, resolved_edges, Export, ExportView, Import, ImportView, Local, LocalView, Node,
    NodeView,
};
use vstd::prelude::*;

verus! {

/// The key under which the item a node stands for is mapped: its module
/// and its index there.
pub open spec fn node_key(n: NodeView) -> (Seq<char>, u64) {
    match n {
        NodeView::Import(i) => (i.importing_module, i.imported_index),
        NodeView::Local(l) => (l.module, l.index),
        NodeView::Export(e) => (e.module, e.index),
    }
}

impl Node {
    /// The module of the item this node stands for, and its index there.
    pub fn to_mapping_ref(&self) -> (r: (IdentifierModule, Identifier<Old>))
        ensures
            (r.0@, r.1.id) == node_key(self@),
    {
        match self {
            Node::Import(import) => import.to_mapping_ref(),
            Node::Local(local) => local.to_mapping_ref(),
            Node::Export(export) => export.to_mapping_ref(),
        }
    }
}

impl Import {
    /// The importing module and the index of the imported item in it.
    pub fn to_mapping_ref(&self) -> (r: (IdentifierModule, Identifier<Old>))
        ensures
            (r.0@, r.1.id) == node_key(NodeView::Import(self@)),
    {
        (self.importing_module.duplicate(), Identifier::new(self.imported_index))
    }
}

impl Local {
    /// The defining module and the index of the item in it.
    pub fn to_mapping_ref(&self) -> (r: (IdentifierModule, Identifier<Old>))
        ensures
            (r.0@, r.1.id) == node_key(NodeView::Local(self@)),
    {
        (self.module.duplicate(), Identifier::new(self.index))
    }
}

impl Export {
    /// The exporting module and the index of the exported item in it.
    pub fn to_mapping_ref(&self) -> (r: (IdentifierModule, Identifier<Old>))
        ensures
            (r.0@, r.1.id) == node_key(NodeView::Export(self@)),
    {
        (self.module.duplicate(), Identifier::new(self.index))
    }
}

/// The views of the pairs of a reduction map.
pub open spec fn reduction_views(s: Seq<(Node, Node)>) -> Seq<(NodeView, NodeView)> {
    s.map_values(|p: (Node, Node)| (p.0@, p.1@))
}

/// The views of a sequence of locals.
pub open spec fn local_views(s: Seq<Local>) -> Seq<LocalView> {
    s.map_values(|x: Local| x@)
}

/// The locals among the nodes of a reduction map, in order.
pub open spec fn reduction_locals(s: Seq<(NodeView, NodeView)>) -> Seq<LocalView>
    decreases s.len(),
{
    if s.len() == 0 {
        Seq::empty()
    } else {
        let prev = reduction_locals(s.drop_last());
        match s.last().0 {
            NodeView::Local(l) => prev.push(l),
            _ => prev,
        }
    }
}

/// The keys of imports.
pub open spec fn import_keys(s: Seq<ImportView>) -> Seq<(Seq<char>, u64)> {
    s.map_values(|v: ImportView| (v.importing_module, v.imported_index))
}

/// The keys of locals.
pub open spec fn local_keys(s: Seq<LocalView>) -> Seq<(Seq<char>, u64)> {
    s.map_values(|v: LocalView| (v.module, v.index))
}

/// `m` after mapping `keys[k]` to `ids[k]`, in order.
pub open spec fn map_new_ids(m: Map<(Seq<char>, u64), u64>, keys: Seq<(Seq<char>, u64)>, ids: Seq<u64>) -> Map<(Seq<char>, u64), u64>
    decreases keys.len(),
{
    if keys.len() == 0 {
        m
    } else {
        map_new_ids(m, keys.drop_last(), ids).insert(keys.last(), ids[keys.len() - 1])
    }
}

/// One pair of a reduction map applied to `m`: the node is mapped where the
/// node it reduces to is mapped, if that one is.
pub open spec fn reduce_step(m: Map<(Seq<char>, u64), u64>, p: (NodeView, NodeView)) -> Map<(Seq<char>, u64), u64> {
    if m.contains_key(node_key(p.1)) {
        m.insert(node_key(p.0), m[node_key(p.1)])
    } else {
        m
    }
}

/// `m` after applying the pairs of a reduction map, in order.
pub open spec fn reduce_all(m: Map<(Seq<char>, u64), u64>, pairs: Seq<(NodeView, NodeView)>) -> Map<(Seq<char>, u64), u64>
    decreases pairs.len(),
{
    if pairs.len() == 0 {
        m
    } else {
        reduce_step(reduce_all(m, pairs.drop_last()), pairs.last())
    }
}

/// The name that an export gets in the merged module, given the clashing
/// names, whether the first occurrence is renamed too, and the clashing
/// names met so far.
pub open spec fn renamed(clash: Seq<Seq<char>>, first: bool, met: Seq<Seq<char>>, e: ExportView) -> Seq<char> {
    if clash.contains(e.identifier) && (first || met.contains(e.identifier)) {
        spec_default_rename(e.module, e.identifier)
    } else {
        e.identifier
    }
}

/// The clashing names met after meeting export `e`.
pub open spec fn encounter(clash: Seq<Seq<char>>, met: Seq<Seq<char>>, e: ExportView) -> Seq<Seq<char>> {
    if clash.contains(e.identifier) && !met.contains(e.identifier) {
        met.push(e.identifier)
    } else {
        met
    }
}

/// The clashing names met after meeting the exports `es`, in order.
pub open spec fn encountered_after(clash: Seq<Seq<char>>, met: Seq<Seq<char>>, es: Seq<ExportView>) -> Seq<Seq<char>>
    decreases es.len(),
{
    if es.len() == 0 {
        met
    } else {
        encounter(clash, encountered_after(clash, met, es.drop_last()), es.last())
    }
}

/// The exports that the merged module gets for the exports `es`: each one
/// whose item is mapped, under its new name, with the item's new index.
pub open spec fn joined_exports(
    clash: Seq<Seq<char>>,
    first: bool,
    met: Seq<Seq<char>>,
    es: Seq<ExportView>,
    m: Map<(Seq<char>, u64), u64>,
) -> Seq<(Seq<char>, u64)>
    decreases es.len(),
{
    if es.len() == 0 {
        Seq::empty()
    } else {
        let prev = joined_exports(clash, first, met, es.drop_last(), m);
        let e = es.last();
        if m.contains_key((e.module, e.index)) {
            prev.push((renamed(clash, first, encountered_after(clash, met, es.drop_last()), e), m[(e.module, e.index)]))
        } else {
            prev
        }
    }
}

/// The views of (name, index) pairs.
pub open spec fn named_id_views(s: Seq<(String, u64)>) -> Seq<(Seq<char>, u64)> {
    s.map_values(|p: (String, u64)| (p.0@, p.1))
}

/// The functions that joining the reduced functions adds to the merged
/// module: first the remaining imports, then the locals, in order.
#[derive(Debug)]
pub struct FunctionJoin {
    pub imports: Vec<Import>,
    pub locals: Vec<Local>,
}

/// What the merged module holds of the reduced functions before any module
/// is included: every remaining import, and every local of the reduction.
pub fn plan_function_join(rd: &ReducedDependencies) -> (r: FunctionJoin)
    ensures
        import_views(r.imports@) == import_views(rd.remaining_imports@),
        local_views(r.locals@) == reduction_locals(reduction_views(rd.reduction_map@)),
{
    let mut imports: Vec<Import> = Vec::new();
    let mut i: usize = 0;
    while i < rd.remaining_imports.len()
        invariant
            i <= rd.remaining_imports@.len(),
            import_views(imports@) == import_views(rd.remaining_imports@.take(i as int)),
        decreases rd.remaining_imports@.len() - i,
    {
        imports.push(rd.remaining_imports[i].duplicate());
        assert(import_views(rd.remaining_imports@.take(i + 1)) =~= import_views(rd.remaining_imports@.take(i as int)).push(rd.remaining_imports@[i as int]@));
        i = i + 1;
    }
    assert(rd.remaining_imports@.take(i as int) =~= rd.remaining_imports@);
    let mut locals: Vec<Local> = Vec::new();
    let mut j: usize = 0;
    while j < rd.reduction_map.len()
        invariant
            j <= rd.reduction_map@.len(),
            local_views(locals@) == reduction_locals(reduction_views(rd.reduction_map@).take(j as int)),
        decreases rd.reduction_map@.len() - j,
    {
        let ghost views = reduction_views(rd.reduction_map@);
        assert(views.take(j + 1).drop_last() =~= views.take(j as int));
        assert(views.take(j + 1).last() == (rd.reduction_map@[j as int].0@, rd.reduction_map@[j as int].1@));
        match rd.reduction_map[j].0.as_local() {
            Some(local) => {
                locals.push(local.duplicate());
                assert(local_views(locals@) =~= reduction_locals(views.take(j as int)).push(local@));
            },
            None => {},
        }
        j = j + 1;
    }
    assert(reduction_views(rd.reduction_map@).take(j as int) =~= reduction_views(rd.reduction_map@));
    FunctionJoin { imports, locals }
}


/// The keys of the functions that a join adds, in the order they are added.
pub open spec fn join_keys(join: FunctionJoin) -> Seq<(Seq<char>, u64)> {
    import_keys(import_views(join.imports@)) + local_keys(local_views(join.locals@))
}

/// Records where the functions of a join went, once the merged module gave
/// them the indices `new_ids` (in the order of `join`): each added function
/// is mapped to its new index, then every node of the reduction to where
/// the node it reduces to went. Returns the exports that the merged module
/// gets: each remaining export whose function is mapped, under the name the
/// renamer gives it, with the function's new index.
pub fn record_function_join(
    rd: &ReducedDependencies,
    join: &FunctionJoin,
    new_ids: &Vec<u64>,
    mapping: &mut IdMap,
    renamer: &mut MergeRenamer,
) -> (exports: Vec<(String, u64)>)
    requires
        new_ids@.len() == join.imports@.len() + join.locals@.len(),
    ensures
        final(mapping)@ == reduce_all(
            map_new_ids(old(mapping)@, join_keys(*join), new_ids@),
            reduction_views(rd.reduction_map@),
        ),
        final(renamer).clashes_map == old(renamer).clashes_map,
        final(renamer).rename_strategy == old(renamer).rename_strategy,
        string_views(final(renamer).rename_encountered@) == encountered_after(
            clash_names(old(renamer).clashes_map@),
            string_views(old(renamer).rename_encountered@),
            export_views(rd.remaining_exports@),
        ),
        named_id_views(exports@) == joined_exports(
            clash_names(old(renamer).clashes_map@),
            old(renamer).rename_strategy.first_occurrence,
            string_views(old(renamer).rename_encountered@),
            export_views(rd.remaining_exports@),
            final(mapping)@,
        ),
{
    let ghost m0 = mapping@;
    let ghost keys = join_keys(*join);
    let n_imports = join.imports.len();
    let n = new_ids.len();
    // 1. Every added function goes to its new index.
    let mut t: usize = 0;
    while t < n
        invariant
            n == new_ids@.len(),
            n_imports == join.imports@.len(),
            keys == join_keys(*join),
            keys.len() == n,
            t <= n,
            mapping@ == map_new_ids(m0, keys.take(t as int), new_ids@),
        decreases n - t,
    {
        let key = if t < n_imports {
            join.imports[t].to_mapping_ref()
        } else {
            join.locals[t - n_imports].to_mapping_ref()
        };
        assert((key.0@, key.1.id) == keys[t as int]);
        assert(keys.take(t + 1).drop_last() =~= keys.take(t as int));
        mapping.insert(key.0, key.1, Identifier::new(new_ids[t]));
        t = t + 1;
    }
    assert(keys.take(n as int) =~= keys);
    // 2. Every node goes where the node it reduces to went.
    let ghost m1 = mapping@;
    let ghost pairs = reduction_views(rd.reduction_map@);
    let mut k: usize = 0;
    while k < rd.reduction_map.len()
        invariant
            pairs == reduction_views(rd.reduction_map@),
            k <= rd.reduction_map@.len(),
            mapping@ == reduce_all(m1, pairs.take(k as int)),
        decreases rd.reduction_map@.len() - k,
    {
        assert(pairs.take(k + 1).drop_last() =~= pairs.take(k as int));
        let (reduced_module, reduced_index) = rd.reduction_map[k].1.to_mapping_ref();
        match mapping.get(&reduced_module, reduced_index) {
            Some(new_index) => {
                let (node_module, node_index) = rd.reduction_map[k].0.to_mapping_ref();
                mapping.insert(node_module, node_index, new_index);
            },
            None => {},
        }
        k = k + 1;
    }
    assert(pairs.take(k as int) =~= pairs);
    // 3. Every remaining export is renamed, and kept where its function is mapped.
    let ghost clash = clash_names(renamer.clashes_map@);
    let ghost first = renamer.rename_strategy.first_occurrence;
    let ghost met0 = string_views(renamer.rename_encountered@);
    let ghost es = export_views(rd.remaining_exports@);
    let ghost clashes0 = renamer.clashes_map;
    let ghost strategy0 = renamer.rename_strategy;
    let mut exports: Vec<(String, u64)> = Vec::new();
    let mut e: usize = 0;
    while e < rd.remaining_exports.len()
        invariant
            es == export_views(rd.remaining_exports@),
            e <= es.len(),
            renamer.clashes_map == clashes0,
            renamer.rename_strategy == strategy0,
            clash == clash_names(clashes0@),
            first == strategy0.first_occurrence,
            string_views(renamer.rename_encountered@) == encountered_after(clash, met0, es.take(e as int)),
            named_id_views(exports@) == joined_exports(clash, first, met0, es.take(e as int), mapping@),
        decreases es.len() - e,
    {
        assert(es.take(e + 1).drop_last() =~= es.take(e as int));
        assert(es.take(e + 1).last() == rd.remaining_exports@[e as int]@);
        let old_export = &rd.remaining_exports[e];
        let (export_module, export_index) = old_export.to_mapping_ref();
        let reduced = mapping.get(&export_module, export_index);
        let mut renamed_export = old_export.duplicate();
        renamer.compute_export_name(&mut renamed_export, ExportKind::Function);
        match reduced {
            Some(new_index) => {
                exports.push((renamed_export.identifier, new_index.id));
                assert(named_id_views(exports@) =~= joined_exports(clash, first, met0, es.take(e as int), mapping@).push(
                    (renamed(clash, first, encountered_after(clash, met0, es.take(e as int)), old_export@), new_index.id)));
            },
            None => {},
        }
        e = e + 1;
    }
    assert(es.take(e as int) =~= es);
    exports
}


/// Records where the remaining imported globals went, once the merged module
/// gave them the indices `new_ids` (in the order of the remaining imports).
pub fn record_global_join(rd: &ReducedDependencies, new_ids: &Vec<u64>, mapping: &mut IdMap)
    requires
        new_ids@.len() == rd.remaining_imports@.len(),
    ensures
        final(mapping)@ == map_new_ids(old(mapping)@, import_keys(import_views(rd.remaining_imports@)), new_ids@),
{
    let ghost m0 = mapping@;
    let ghost keys = import_keys(import_views(rd.remaining_imports@));
    let mut t: usize = 0;
    while t < rd.remaining_imports.len()
        invariant
            new_ids@.len() == rd.remaining_imports@.len(),
            keys == import_keys(import_views(rd.remaining_imports@)),
            t <= keys.len(),
            mapping@ == map_new_ids(m0, keys.take(t as int), new_ids@),
        decreases keys.len() - t,
    {
        let import = &rd.remaining_imports[t];
        assert(keys.take(t + 1).drop_last() =~= keys.take(t as int));
        let (import_module, import_index) = import.to_mapping_ref();
        mapping.insert(import_module, import_index, Identifier::new(new_ids[t]));
        t = t + 1;
    }
    assert(keys.take(t as int) =~= keys);
}

/// Whether `export` is among `remaining`.
fn contains_export(remaining: &Vec<Export>, export: &Export) -> (r: bool)
    ensures
        r == export_views(remaining@).contains(export@),
{
    let mut i: usize = 0;
    while i < remaining.len()
        invariant
            i <= remaining@.len(),
            forall|j: int| 0 <= j < i ==> export_views(remaining@)[j] != export@,
        decreases remaining@.len() - i,
    {
        if remaining[i].equals(export) {
            assert(export_views(remaining@)[i as int] == export@);
            return true;
        }
        i = i + 1;
    }
    false
}

/// The name under which an export of a table, memory or global of an
/// included module is exported from the merged module: the name the
/// renamer gives it if it is among the remaining exports of its kind, and
/// none otherwise (the renamer then stays as it was).
pub fn include_export(renamer: &mut MergeRenamer, remaining: &Vec<Export>, export: &Export, kind: ExportKind) -> (r: Option<String>)
    ensures
        final(renamer).clashes_map == old(renamer).clashes_map,
        final(renamer).rename_strategy == old(renamer).rename_strategy,
        export_views(remaining@).contains(export@) ==> {
            &&& r matches Some(name) && name@ == renamed(
                clash_names(old(renamer).clashes_map@),
                old(renamer).rename_strategy.first_occurrence,
                string_views(old(renamer).rename_encountered@),
                export@,
            )
            &&& string_views(final(renamer).rename_encountered@) == encounter(
                clash_names(old(renamer).clashes_map@),
                string_views(old(renamer).rename_encountered@),
                export@,
            )
        },
        !export_views(remaining@).contains(export@) ==> r is None && final(renamer).rename_encountered == old(renamer).rename_encountered,
{
    if contains_export(remaining, export) {
        let mut renamed_export = export.duplicate();
        renamer.compute_export_name(&mut renamed_export, kind);
        Some(renamed_export.identifier)
    } else {
        None
    }
}

/// `module::name`, the qualified name of a module's name section.
pub open spec fn qualified_name(p: (String, String)) -> Seq<char> {
    p.0@ + seq![':', ':'] + p.1@
}

/// The qualified names joined with `-`.
pub open spec fn joined_names(s: Seq<(String, String)>) -> Seq<char>
    decreases s.len(),
{
    if s.len() == 0 {
        Seq::empty()
    } else if s.len() == 1 {
        qualified_name(s[0])
    } else {
        joined_names(s.drop_last()) + seq!['-'] + qualified_name(s.last())
    }
}

/// Law: the merged module's name is the qualified names `module::name` in
/// order with exactly one `-` between two consecutive ones: one name gives
/// its qualified name alone, and a name added after others adds `-` and its
/// qualified name; no names give the empty name.
pub proof fn lemma_merged_name_joins_with_dashes(s: Seq<(String, String)>, p: (String, String))
    ensures
        joined_names(Seq::<(String, String)>::empty()) == Seq::<char>::empty(),
        joined_names(seq![p]) == p.0@ + seq![':', ':'] + p.1@,
        s.len() > 0 ==> joined_names(s.push(p)) == joined_names(s) + seq!['-'] + p.0@ + seq![':', ':'] + p.1@,
{
    assert(seq![p].len() == 1);
    if s.len() > 0 {
        assert(s.push(p).drop_last() =~= s);
        assert(s.push(p).last() == p);
        assert(joined_names(s) + seq!['-'] + (p.0@ + seq![':', ':'] + p.1@) =~= joined_names(s) + seq!['-'] + p.0@
            + seq![':', ':'] + p.1@);
    }
}

/// The name of the merged module, from the (module, name) pairs of the
/// included modules that have a name: each pair as `module::name`, joined
/// with `-`.
pub fn merged_module_name(names: &Vec<(String, String)>) -> (r: String)
    ensures
        r@ == joined_names(names@),
{
    let mut joined = String::new();
    let mut i: usize = 0;
    proof {
        reveal_strlit("::");
        reveal_strlit("-");
    }
    while i < names.len()
        invariant
            i <= names@.len(),
            joined@ == joined_names(names@.take(i as int)),
            "::"@ == seq![':', ':'],
            "-"@ == seq!['-'],
        decreases names@.len() - i,
    {
        assert(names@.take(i + 1).drop_last() =~= names@.take(i as int));
        assert(names@.take(i + 1).last() == names@[i as int]);
        if i > 0 {
            joined.append("-");
        }
        joined.append(names[i].0.as_str());
        joined.append("::");
        joined.append(names[i].1.as_str());
        if i == 0 {
            assert(joined@ =~= qualified_name(names@[0]));
        } else {
            assert(joined@ =~= joined_names(names@.take(i as int)) + seq!['-'] + qualified_name(names@[i as int]));
        }
        i = i + 1;
    }
    assert(names@.take(i as int) =~= names@);
    joined
}


/// Renaming is injective on modules without `:`.
proof fn lemma_rename_injective(m1: Seq<char>, n1: Seq<char>, m2: Seq<char>, n2: Seq<char>)
    requires
        !m1.contains(':'),
        !m2.contains(':'),
        spec_default_rename(m1, n1) == spec_default_rename(m2, n2),
    ensures
        m1 == m2,
        n1 == n2,
{
    let r1 = spec_default_rename(m1, n1);
    let r2 = spec_default_rename(m2, n2);
    assert(r1 == m1 + seq![':'] + n1);
    assert(r2 == m2 + seq![':'] + n2);
    if m1.len() < m2.len() {
        assert(r1[m1.len() as int] == ':');
        assert(r2[m1.len() as int] == m2[m1.len() as int]);
        assert(m2.contains(':'));
    } else if m2.len() < m1.len() {
        assert(r2[m2.len() as int] == ':');
        assert(r1[m2.len() as int] == m1[m2.len() as int]);
        assert(m1.contains(':'));
    } else {
        assert(r1.subrange(0, m1.len() as int) =~= m1);
        assert(r2.subrange(0, m2.len() as int) =~= m2);
        assert(r1.subrange(m1.len() as int + 1, r1.len() as int) =~= n1);
        assert(r2.subrange(m2.len() as int + 1, r2.len() as int) =~= n2);
    }
}

/// The clashing names met only grow, and a clashing name is met once an
/// export carrying it has been.
proof fn lemma_encountered_grows(clash: Seq<Seq<char>>, met: Seq<Seq<char>>, es: Seq<ExportView>, t: int, u: int)
    requires
        0 <= t < u <= es.len(),
        clash.contains(es[t].identifier),
    ensures
        encountered_after(clash, met, es.take(u)).contains(es[t].identifier),
    decreases u,
{
    let prefix = es.take(u);
    assert(prefix.drop_last() =~= es.take(u - 1));
    assert(prefix.last() == es[u - 1]);
    let before = encountered_after(clash, met, es.take(u - 1));
    if t < u - 1 {
        lemma_encountered_grows(clash, met, es, t, u - 1);
        if clash.contains(es[u - 1].identifier) && !before.contains(es[u - 1].identifier) {
            let x = choose|x: int| 0 <= x < before.len() && before[x] == es[t].identifier;
            assert(before.push(es[u - 1].identifier)[x] == es[t].identifier);
        }
    } else {
        if !before.contains(es[t].identifier) {
            assert(before.push(es[t].identifier)[before.len() as int] == es[t].identifier);
        }
    }
}

/// The name that export `t` gets when the exports `es` are renamed in order.
pub open spec fn renamed_in_order(clash: Seq<Seq<char>>, first: bool, met: Seq<Seq<char>>, es: Seq<ExportView>, t: int) -> Seq<char> {
    renamed(clash, first, encountered_after(clash, met, es.take(t)), es[t])
}

/// Law: renaming exports in order gives two of them different names, the
/// first occurrence of a clashing name renamed or not. This holds for
/// exports of different (module, name) pairs whose module names hold no
/// `:`, where a shared name is a clashing one, no export already carries
/// the name another is renamed to, and no clashing name was met before.
pub proof fn lemma_renaming_gives_distinct_names(
    clash: Seq<Seq<char>>,
    first: bool,
    es: Seq<ExportView>,
    t: int,
    u: int,
)
    requires
        0 <= t < u < es.len(),
        (es[t].module, es[t].identifier) != (es[u].module, es[u].identifier),
        !es[t].module.contains(':'),
        !es[u].module.contains(':'),
        es[t].identifier == es[u].identifier ==> clash.contains(es[t].identifier),
        es[t].identifier != spec_default_rename(es[u].module, es[u].identifier),
        es[u].identifier != spec_default_rename(es[t].module, es[t].identifier),
    ensures
        renamed_in_order(clash, first, Seq::empty(), es, t) != renamed_in_order(clash, first, Seq::empty(), es, u),
{
    let met_t = encountered_after(clash, Seq::empty(), es.take(t));
    let met_u = encountered_after(clash, Seq::empty(), es.take(u));
    let rt = renamed(clash, first, met_t, es[t]);
    let ru = renamed(clash, first, met_u, es[u]);
    let t_renamed = clash.contains(es[t].identifier) && (first || met_t.contains(es[t].identifier));
    let u_renamed = clash.contains(es[u].identifier) && (first || met_u.contains(es[u].identifier));
    if rt == ru {
        if t_renamed && u_renamed {
            lemma_rename_injective(es[t].module, es[t].identifier, es[u].module, es[u].identifier);
        } else if !t_renamed && !u_renamed {
            assert(clash.contains(es[t].identifier));
            lemma_encountered_grows(clash, Seq::empty(), es, t, u);
            assert(met_u.contains(es[u].identifier));
        }
    }
}

/// With distinct keys, mapping keys to ids in order maps each key to its id
/// and leaves every other key as it was.
proof fn lemma_map_new_ids(m0: Map<(Seq<char>, u64), u64>, keys: Seq<(Seq<char>, u64)>, ids: Seq<u64>)
    requires
        keys.no_duplicates(),
        keys.len() <= ids.len(),
    ensures
        forall|j: int| 0 <= j < keys.len() ==> map_new_ids(m0, keys, ids).contains_key(#[trigger] keys[j])
            && map_new_ids(m0, keys, ids)[keys[j]] == ids[j],
        forall|k: (Seq<char>, u64)| !keys.contains(k) ==> (#[trigger] map_new_ids(m0, keys, ids).contains_key(k)
            == m0.contains_key(k)),
    decreases keys.len(),
{
    if keys.len() > 0 {
        let prefix = keys.drop_last();
        assert(prefix.no_duplicates()) by {
            assert forall|a: int, b: int| 0 <= a < prefix.len() && 0 <= b < prefix.len() && a != b implies prefix[a] != prefix[b] by {
                assert(prefix[a] == keys[a] && prefix[b] == keys[b]);
            }
        }
        lemma_map_new_ids(m0, prefix, ids);
        let m = map_new_ids(m0, keys, ids);
        assert forall|j: int| 0 <= j < keys.len() implies m.contains_key(#[trigger] keys[j]) && m[keys[j]] == ids[j] by {
            if j < keys.len() - 1 {
                assert(prefix[j] == keys[j]);
                assert(keys[j] != keys.last());
            }
        }
        assert forall|k: (Seq<char>, u64)| !keys.contains(k) implies (#[trigger] m.contains_key(k) == m0.contains_key(k)) by {
            if k == keys[keys.len() - 1] {
                assert(keys.contains(k));
            }
            if prefix.contains(k) {
                let a = choose|a: int| 0 <= a < prefix.len() && prefix[a] == k;
                assert(keys[a] == k);
            }
            assert(map_new_ids(m0, prefix, ids).contains_key(k) == m0.contains_key(k));
        }
    }
}

/// Applying a reduction map in which every node goes to an added function,
/// nodes of one key go to functions of one key, and added functions go to
/// themselves: every added function keeps its id, and every node gets the
/// id of the function it reduces to.
proof fn lemma_reduce_all_to_sources(
    m1: Map<(Seq<char>, u64), u64>,
    keys: Seq<(Seq<char>, u64)>,
    ids: Seq<u64>,
    pairs: Seq<(NodeView, NodeView)>,
)
    requires
        forall|j: int| 0 <= j < keys.len() ==> m1.contains_key(#[trigger] keys[j]) && m1[keys[j]] == ids[j],
        forall|t: int| 0 <= t < pairs.len() ==> keys.contains(node_key(#[trigger] pairs[t].1)),
        forall|t: int| 0 <= t < pairs.len() && keys.contains(node_key(#[trigger] pairs[t].0)) ==> node_key(pairs[t].1) == node_key(pairs[t].0),
        forall|t: int, u: int| 0 <= t < pairs.len() && 0 <= u < pairs.len() && node_key(#[trigger] pairs[t].0) == node_key(#[trigger] pairs[u].0)
            ==> node_key(pairs[t].1) == node_key(pairs[u].1),
    ensures
        forall|j: int| 0 <= j < keys.len() ==> reduce_all(m1, pairs).contains_key(#[trigger] keys[j]) && reduce_all(m1, pairs)[keys[j]] == ids[j],
        forall|t: int| 0 <= t < pairs.len() ==> reduce_all(m1, pairs).contains_key(node_key(#[trigger] pairs[t].0))
            && reduce_all(m1, pairs)[node_key(pairs[t].0)] == m1[node_key(pairs[t].1)],
    decreases pairs.len(),
{
    if pairs.len() > 0 {
        let prefix = pairs.drop_last();
        assert forall|t: int| 0 <= t < prefix.len() implies keys.contains(node_key(#[trigger] prefix[t].1)) by {
            assert(prefix[t] == pairs[t]);
        }
        assert forall|t: int| 0 <= t < prefix.len() && keys.contains(node_key(#[trigger] prefix[t].0)) implies node_key(prefix[t].1) == node_key(prefix[t].0) by {
            assert(prefix[t] == pairs[t]);
        }
        assert forall|t: int, u: int| 0 <= t < prefix.len() && 0 <= u < prefix.len() && node_key(#[trigger] prefix[t].0) == node_key(#[trigger] prefix[u].0)
            implies node_key(prefix[t].1) == node_key(prefix[u].1) by {
            assert(prefix[t] == pairs[t]);
            assert(prefix[u] == pairs[u]);
        }
        lemma_reduce_all_to_sources(m1, keys, ids, prefix);
        let prev = reduce_all(m1, prefix);
        let p = pairs.last();
        let last = pairs.len() - 1;
        assert(pairs[last] == p);
        assert(keys.contains(node_key(pairs[last].1)));
        let jp = choose|j: int| 0 <= j < keys.len() && keys[j] == node_key(p.1);
        assert(prev.contains_key(keys[jp]) && prev[keys[jp]] == ids[jp]);
        let m = reduce_all(m1, pairs);
        assert(m == prev.insert(node_key(p.0), m1[node_key(p.1)]));
        assert forall|j: int| 0 <= j < keys.len() implies m.contains_key(#[trigger] keys[j]) && m[keys[j]] == ids[j] by {
            if keys[j] == node_key(p.0) {
                assert(keys.contains(node_key(pairs[last].0)));
                assert(node_key(p.1) == node_key(p.0));
            }
        }
        assert forall|t: int| 0 <= t < pairs.len() implies m.contains_key(node_key(#[trigger] pairs[t].0))
            && m[node_key(pairs[t].0)] == m1[node_key(pairs[t].1)] by {
            if t < last {
                assert(prefix[t] == pairs[t]);
                if node_key(pairs[t].0) == node_key(p.0) {
                    assert(node_key(pairs[t].1) == node_key(pairs[last].1));
                }
            }
        }
    }
}

/// Law: joining the functions sends every node of the reduction to the new
/// index of the function it reduces to, and keeps every added function at
/// its own new index, when the added functions have distinct keys, every
/// node reduces to an added function, nodes that share a key reduce to
/// functions that share a key, and added functions reduce to themselves.
pub proof fn lemma_join_sends_nodes_to_their_functions(
    m0: Map<(Seq<char>, u64), u64>,
    keys: Seq<(Seq<char>, u64)>,
    ids: Seq<u64>,
    pairs: Seq<(NodeView, NodeView)>,
)
    requires
        keys.no_duplicates(),
        keys.len() == ids.len(),
        forall|t: int| 0 <= t < pairs.len() ==> keys.contains(node_key(#[trigger] pairs[t].1)),
        forall|t: int| 0 <= t < pairs.len() && keys.contains(node_key(#[trigger] pairs[t].0)) ==> node_key(pairs[t].1) == node_key(pairs[t].0),
        forall|t: int, u: int| 0 <= t < pairs.len() && 0 <= u < pairs.len() && node_key(#[trigger] pairs[t].0) == node_key(#[trigger] pairs[u].0)
            ==> node_key(pairs[t].1) == node_key(pairs[u].1),
    ensures
        forall|j: int| 0 <= j < keys.len() ==> reduce_all(map_new_ids(m0, keys, ids), pairs)[#[trigger] keys[j]] == ids[j],
        forall|t: int, j: int| 0 <= t < pairs.len() && 0 <= j < keys.len() && keys[j] == node_key(#[trigger] pairs[t].1)
            ==> reduce_all(map_new_ids(m0, keys, ids), pairs).contains_key(node_key(pairs[t].0))
                && reduce_all(map_new_ids(m0, keys, ids), pairs)[node_key(pairs[t].0)] == #[trigger] ids[j],
{
    lemma_map_new_ids(m0, keys, ids);
    let m1 = map_new_ids(m0, keys, ids);
    lemma_reduce_all_to_sources(m1, keys, ids, pairs);
}


/// No two nodes that define an item (imports and locals) share a module
/// and an index.
pub open spec fn definitions_keyed_uniquely(nodes: Seq<NodeView>) -> bool {
    forall|i: int, j: int|
        0 <= i < nodes.len() && 0 <= j < nodes.len() && i != j && !(#[trigger] nodes[i] is Export)
            && !(#[trigger] nodes[j] is Export) ==> node_key(nodes[i]) != node_key(nodes[j])
}

/// Every export is linked to the item it exports.
pub open spec fn exports_linked(nodes: Seq<NodeView>, edges: Seq<EdgeTriple>) -> bool {
    forall|i: int| 0 <= i < nodes.len() && (#[trigger] nodes[i]) is Export ==> has_successor(edges, i)
}

/// The definition a node stands for: the node itself, or for an export the
/// import or local it is linked to. It has the node's key, and the node
/// reduces to a definition that can be reached from it.
proof fn lemma_anchor(
    nodes: Seq<NodeView>,
    edges: Seq<EdgeTriple>,
    keep: Option<Seq<(Seq<char>, Seq<char>)>>,
    rd: ReducedDependencies,
    t: int,
) -> (a: int)
    requires
        functional_links(nodes, edges),
        reduction_of(nodes, edges, keep, rd),
        exports_linked(nodes, edges),
        0 <= t < nodes.len(),
    ensures
        0 <= a < nodes.len(),
        !(nodes[a] is Export),
        node_key(nodes[a]) == node_key(nodes[t]),
        exists|s: int|
            0 <= s < nodes.len() && is_source(nodes, edges, s) && reachable(edges, a, s)
                && rd.reduction_map@[t].1@ == nodes[s],
{
    assert(rd.reduction_map@[t].0@ == nodes[t]);
    let s = choose|s: int|
        0 <= s < nodes.len() && rd.reduction_map@[t].1@ == nodes[s] && is_source(nodes, edges, s)
            && reachable(edges, t, s);
    if nodes[t] is Export {
        assert(has_successor(edges, t));
        let d = choose|d: int| has_edge(edges, t, d);
        let k = choose|k: int| 0 <= k < edges.len() && edges[k].0 == t && edges[k].1 == d;
        assert(is_link(nodes, edges[k]));
        lemma_link_target(nodes, t);
        let e = nodes[t]->Export_0;
        lemma_last_definition(nodes, e.module, e.index, nodes.len());
        let p = choose|p: Seq<int>| #[trigger] is_path(edges, p) && p[0] == t && p.last() == s;
        if p.len() == 1 {
            assert(p.last() == p[0]);
            assert(false);
        }
        assert(path_step(edges, p, 0));
        let k2 = choose|k2: int| 0 <= k2 < edges.len() && edges[k2].0 == p[0] && edges[k2].1 == p[1];
        assert(k2 == k);
        lemma_path_suffix(edges, p, 1);
        let q = p.subrange(1, p.len() as int);
        assert(q[0] == d && q.last() == s);
        assert(reachable(edges, d, s));
        d
    } else {
        t
    }
}

/// Where the locals of a reduction map come from: strictly increasing
/// positions of pairs whose node is that local; every local node is listed.
proof fn lemma_reduction_locals(pairs: Seq<(NodeView, NodeView)>) -> (idx: Seq<int>)
    ensures
        idx.len() == reduction_locals(pairs).len(),
        forall|x: int|
            0 <= x < idx.len() ==> 0 <= #[trigger] idx[x] < pairs.len() && pairs[idx[x]].0
                == NodeView::Local(reduction_locals(pairs)[x]),
        forall|x: int, y: int| 0 <= x < y < idx.len() ==> #[trigger] idx[x] < #[trigger] idx[y],
        forall|t: int|
            0 <= t < pairs.len() && (#[trigger] pairs[t]).0 is Local ==> reduction_locals(pairs).contains(
                pairs[t].0->Local_0,
            ),
    decreases pairs.len(),
{
    if pairs.len() == 0 {
        Seq::empty()
    } else {
        let prefix = pairs.drop_last();
        let prev = lemma_reduction_locals(prefix);
        let rl_prev = reduction_locals(prefix);
        let rl = reduction_locals(pairs);
        let last = pairs.len() - 1;
        assert(pairs[last] == pairs.last());
        match pairs.last().0 {
            NodeView::Local(l) => {
                let idx = prev.push(last);
                assert(rl == rl_prev.push(l));
                assert forall|x: int| 0 <= x < idx.len() implies 0 <= #[trigger] idx[x] < pairs.len() && pairs[idx[x]].0
                    == NodeView::Local(rl[x]) by {
                    if x < prev.len() {
                        assert(prefix[prev[x]] == pairs[prev[x]]);
                    }
                }
                assert forall|t: int| 0 <= t < pairs.len() && (#[trigger] pairs[t]).0 is Local implies rl.contains(
                    pairs[t].0->Local_0) by {
                    if t < last {
                        assert(prefix[t] == pairs[t]);
                        let x = choose|x: int| 0 <= x < rl_prev.len() && rl_prev[x] == pairs[t].0->Local_0;
                        assert(rl[x] == rl_prev[x]);
                    } else {
                        assert(rl[rl.len() - 1] == l);
                    }
                }
                idx
            },
            _ => {
                assert(rl == rl_prev);
                assert forall|x: int| 0 <= x < prev.len() implies 0 <= #[trigger] prev[x] < pairs.len() && pairs[prev[x]].0
                    == NodeView::Local(rl[x]) by {
                    assert(prefix[prev[x]] == pairs[prev[x]]);
                }
                assert forall|t: int| 0 <= t < pairs.len() && (#[trigger] pairs[t]).0 is Local implies rl.contains(
                    pairs[t].0->Local_0) by {
                    assert(t < last);
                    assert(prefix[t] == pairs[t]);
                }
                prev
            },
        }
    }
}


/// A node that a remaining import view stands for: an import node with that
/// view and no successor.
spec fn remaining_import_node(nodes: Seq<NodeView>, edges: Seq<EdgeTriple>, v: ImportView) -> int {
    choose|i: int| 0 <= i < nodes.len() && nodes[i] == NodeView::Import(v) && !has_successor(edges, i)
}

/// Joining the functions sends every node to the new index of the function
/// it reduces to, in a graph whose links are functional, whose exports are
/// all linked, and where no two imports or locals share a module and an index.
proof fn lemma_joined_nodes_resolve(
    nodes: Seq<NodeView>,
    edges: Seq<EdgeTriple>,
    keep: Option<Seq<(Seq<char>, Seq<char>)>>,
    rd: ReducedDependencies,
    join: FunctionJoin,
    m0: Map<(Seq<char>, u64), u64>,
    new_ids: Seq<u64>,
)
    requires
        functional_links(nodes, edges),
        reduction_of(nodes, edges, keep, rd),
        definitions_keyed_uniquely(nodes),
        exports_linked(nodes, edges),
        import_views(join.imports@) == import_views(rd.remaining_imports@),
        local_views(join.locals@) == reduction_locals(reduction_views(rd.reduction_map@)),
        new_ids.len() == join_keys(join).len(),
    ensures
        forall|i: int| 0 <= i < nodes.len() ==> join_keys(join).contains(node_key(#[trigger] rd.reduction_map@[i].1@)),
        forall|i: int, j: int|
            0 <= i < nodes.len() && 0 <= j < join_keys(join).len() && join_keys(join)[j] == node_key(
                #[trigger] rd.reduction_map@[i].1@,
            ) ==> reduce_all(map_new_ids(m0, join_keys(join), new_ids), reduction_views(rd.reduction_map@)).contains_key(
                node_key(nodes[i]),
            ) && reduce_all(map_new_ids(m0, join_keys(join), new_ids), reduction_views(rd.reduction_map@))[node_key(
                nodes[i],
            )] == #[trigger] new_ids[j],
        forall|j: int|
            0 <= j < join_keys(join).len() ==> joined_map(m0, join, new_ids, rd)[#[trigger] join_keys(join)[j]] == new_ids[j],
{
    let pairs = reduction_views(rd.reduction_map@);
    let keys = join_keys(join);
    let views = import_views(rd.remaining_imports@);
    let ik = import_keys(views);
    let rl = reduction_locals(pairs);
    let lk = local_keys(rl);
    assert(keys =~= ik + lk);
    let idx = lemma_reduction_locals(pairs);
    assert(pairs.len() == nodes.len());
    assert forall|t: int| 0 <= t < pairs.len() implies (#[trigger] pairs[t]).0 == nodes[t] && pairs[t].1
        == rd.reduction_map@[t].1@ by {
        assert(rd.reduction_map@[t].0@ == nodes[t]);
    }
    // The definition behind each added function, by position.
    assert forall|a: int| 0 <= a < ik.len() implies {
        let i = remaining_import_node(nodes, edges, #[trigger] views[a]);
        0 <= i < nodes.len() && nodes[i] == NodeView::Import(views[a]) && !has_successor(edges, i)
            && keys[a] == node_key(nodes[i])
    } by {
        assert(views.contains(views[a]));
        assert(is_remaining_import(nodes, edges, views[a]));
    }
    assert forall|x: int| 0 <= x < lk.len() implies 0 <= #[trigger] idx[x] < nodes.len() && nodes[idx[x]]
        == NodeView::Local(rl[x]) && keys[ik.len() + x] == node_key(nodes[idx[x]]) by {
        assert(pairs[idx[x]].0 == nodes[idx[x]]);
    }
    // Every node reduces to an added function.
    assert forall|t: int| 0 <= t < pairs.len() implies keys.contains(node_key(#[trigger] pairs[t].1)) by {
        assert(rd.reduction_map@[t].0@ == nodes[t]);
        let s = choose|s: int|
            0 <= s < nodes.len() && rd.reduction_map@[t].1@ == nodes[s] && is_source(nodes, edges, s)
                && reachable(edges, t, s);
        assert(pairs[t].1 == nodes[s]);
        match nodes[s] {
            NodeView::Local(l) => {
                assert(pairs[s].0 == nodes[s]);
                let x = choose|x: int| 0 <= x < rl.len() && rl[x] == l;
                assert(keys[ik.len() + x] == node_key(nodes[s]));
            },
            NodeView::Import(v) => {
                assert(is_remaining_import(nodes, edges, v));
                let a = choose|a: int| 0 <= a < views.len() && views[a] == v;
                assert(keys[a] == ik[a]);
            },
            NodeView::Export(_) => {},
        }
    }
    // Nodes of one key reduce to one definition.
    assert forall|t: int, u: int|
        0 <= t < pairs.len() && 0 <= u < pairs.len() && node_key(#[trigger] pairs[t].0) == node_key(
            #[trigger] pairs[u].0,
        ) implies node_key(pairs[t].1) == node_key(pairs[u].1) by {
        let at = lemma_anchor(nodes, edges, keep, rd, t);
        let au = lemma_anchor(nodes, edges, keep, rd, u);
        if at != au {
            assert(node_key(nodes[at]) != node_key(nodes[au]));
        }
        let st = choose|s: int|
            0 <= s < nodes.len() && is_source(nodes, edges, s) && reachable(edges, at, s)
                && rd.reduction_map@[t].1@ == nodes[s];
        let su = choose|s: int|
            0 <= s < nodes.len() && is_source(nodes, edges, s) && reachable(edges, au, s)
                && rd.reduction_map@[u].1@ == nodes[s];
        lemma_reduction_source_unique(nodes, edges, at, st, su);
    }
    // Added functions reduce to themselves.
    assert forall|t: int| 0 <= t < pairs.len() && keys.contains(node_key(#[trigger] pairs[t].0)) implies node_key(
        pairs[t].1,
    ) == node_key(pairs[t].0) by {
        let at = lemma_anchor(nodes, edges, keep, rd, t);
        let st = choose|s: int|
            0 <= s < nodes.len() && is_source(nodes, edges, s) && reachable(edges, at, s)
                && rd.reduction_map@[t].1@ == nodes[s];
        let j = choose|j: int| 0 <= j < keys.len() && keys[j] == node_key(pairs[t].0);
        let d = if j < ik.len() {
            remaining_import_node(nodes, edges, views[j])
        } else {
            idx[j - ik.len()]
        };
        assert(0 <= d < nodes.len() && !(nodes[d] is Export) && node_key(nodes[d]) == keys[j]);
        assert(is_source(nodes, edges, d));
        if at != d {
            assert(node_key(nodes[at]) != node_key(nodes[d]));
        }
        lemma_trivial_path(edges, d);
        lemma_reduction_source_unique(nodes, edges, d, st, d);
    }
    // Added functions have distinct keys.
    assert forall|a: int, b: int| 0 <= a < keys.len() && 0 <= b < keys.len() && a != b implies keys[a] != keys[b] by {
        let da = if a < ik.len() {
            remaining_import_node(nodes, edges, views[a])
        } else {
            idx[a - ik.len()]
        };
        let db = if b < ik.len() {
            remaining_import_node(nodes, edges, views[b])
        } else {
            idx[b - ik.len()]
        };
        assert(keys[a] == node_key(nodes[da]));
        assert(keys[b] == node_key(nodes[db]));
        if a < ik.len() && b < ik.len() {
            assert(views[a] != views[b]);
        } else if a >= ik.len() && b >= ik.len() {
            if a < b {
                assert(idx[a - ik.len()] < idx[b - ik.len()]);
            } else {
                assert(idx[b - ik.len()] < idx[a - ik.len()]);
            }
        }
        assert(da != db);
    }
    assert(keys.no_duplicates());
    lemma_join_sends_nodes_to_their_functions(m0, keys, new_ids, pairs);
    assert forall|i: int, j: int|
        0 <= i < nodes.len() && 0 <= j < keys.len() && keys[j] == node_key(#[trigger] rd.reduction_map@[i].1@)
        implies reduce_all(map_new_ids(m0, keys, new_ids), pairs).contains_key(node_key(nodes[i]))
            && reduce_all(map_new_ids(m0, keys, new_ids), pairs)[node_key(nodes[i])] == #[trigger] new_ids[j] by {
        assert(pairs[i].1 == rd.reduction_map@[i].1@);
        assert(pairs[i].0 == nodes[i]);
    }
    assert forall|i: int| 0 <= i < nodes.len() implies keys.contains(node_key(#[trigger] rd.reduction_map@[i].1@)) by {
        assert(pairs[i].1 == rd.reduction_map@[i].1@);
    }
}


/// The edges of a resolution are links of their sources, leave distinct
/// nodes, and keep every export linked.
proof fn lemma_resolved_edges_functional(nodes: Seq<NodeView>, ignore_mismatches: bool)
    requires
        nodes.len() <= index_limit(),
        exports_backed(nodes),
    ensures
        functional_links(nodes, resolved_edges(nodes, ignore_mismatches)),
        exports_linked(nodes, resolved_edges(nodes, ignore_mismatches)),
{
    let l = links(nodes);
    let edges = resolved_edges(nodes, ignore_mismatches);
    lemma_resolved_links_functional(nodes, ignore_mismatches);
    lemma_links(nodes);
    lemma_without_mismatches(nodes, l, l.len());
    assert forall|i: int| 0 <= i < nodes.len() && (#[trigger] nodes[i]) is Export implies has_successor(edges, i) by {
        assert(link_target(nodes, i) is Some);
        let t = link_target(nodes, i)->0;
        assert(has_edge(l, i, t));
        if ignore_mismatches {
            let x = choose|x: int| 0 <= x < l.len() && l[x].0 == i && l[x].1 == t;
            assert(is_link(nodes, l[x]));
            assert(!mismatch(nodes, l[x]));
            assert(has_edge(edges, i, t));
        }
    }
}

/// When every export's item is mapped, every export is joined, in order,
/// under the name renaming in order gives it.
proof fn lemma_joined_exports_complete(
    clash: Seq<Seq<char>>,
    first: bool,
    met: Seq<Seq<char>>,
    es: Seq<ExportView>,
    m: Map<(Seq<char>, u64), u64>,
)
    requires
        forall|t: int| 0 <= t < es.len() ==> m.contains_key(((#[trigger] es[t]).module, es[t].index)),
    ensures
        joined_exports(clash, first, met, es, m).len() == es.len(),
        forall|t: int|
            0 <= t < es.len() ==> #[trigger] joined_exports(clash, first, met, es, m)[t] == (
                renamed_in_order(clash, first, met, es, t),
                m[(es[t].module, es[t].index)],
            ),
    decreases es.len(),
{
    if es.len() > 0 {
        let prefix = es.drop_last();
        assert forall|t: int| 0 <= t < prefix.len() implies m.contains_key(((#[trigger] prefix[t]).module, prefix[t].index)) by {
            assert(prefix[t] == es[t]);
        }
        lemma_joined_exports_complete(clash, first, met, prefix, m);
        let last = es.len() - 1;
        assert(es[last] == es.last());
        assert(es.take(last) =~= prefix);
        assert forall|t: int| 0 <= t < es.len() implies #[trigger] joined_exports(clash, first, met, es, m)[t] == (
            renamed_in_order(clash, first, met, es, t),
            m[(es[t].module, es[t].index)],
        ) by {
            if t < last {
                assert(prefix[t] == es[t]);
                assert(prefix.take(t) =~= es.take(t));
            }
        }
    }
}

/// Law: after a resolution, joining the functions sends every node of every
/// module (import, local or export) to the new index of the function it
/// resolves to: a local to its own, an import that no export satisfies to
/// its own, and an import that another module's export satisfies to that
/// of the definition behind the export; every node resolves to one of the
/// added functions, and every remaining export is joined, in order, under
/// the name renaming in order gives it, with the new index of the function
/// it resolves to. This holds when no two imports or locals share a module
/// and an index.
pub proof fn lemma_join_resolves_every_node(
    nodes: Seq<NodeView>,
    ignore_mismatches: bool,
    keep: Option<Seq<(Seq<char>, Seq<char>)>>,
    rd: ReducedDependencies,
    join: FunctionJoin,
    m0: Map<(Seq<char>, u64), u64>,
    new_ids: Seq<u64>,
    clash: Seq<Seq<char>>,
    first: bool,
    met: Seq<Seq<char>>,
)
    requires
        nodes.len() <= index_limit(),
        exports_backed(nodes),
        definitions_keyed_uniquely(nodes),
        reduction_of(nodes, resolved_edges(nodes, ignore_mismatches), keep, rd),
        import_views(join.imports@) == import_views(rd.remaining_imports@),
        local_views(join.locals@) == reduction_locals(reduction_views(rd.reduction_map@)),
        new_ids.len() == join_keys(join).len(),
    ensures
        forall|i: int| 0 <= i < nodes.len() ==> join_keys(join).contains(node_key(#[trigger] rd.reduction_map@[i].1@)),
        forall|i: int, j: int|
            0 <= i < nodes.len() && 0 <= j < join_keys(join).len() && join_keys(join)[j] == node_key(
                #[trigger] rd.reduction_map@[i].1@,
            ) ==> reduce_all(map_new_ids(m0, join_keys(join), new_ids), reduction_views(rd.reduction_map@))[node_key(
                nodes[i],
            )] == #[trigger] new_ids[j],
        joined_exports(
            clash,
            first,
            met,
            export_views(rd.remaining_exports@),
            reduce_all(map_new_ids(m0, join_keys(join), new_ids), reduction_views(rd.reduction_map@)),
        ).len() == rd.remaining_exports@.len(),
        forall|t: int, i: int, j: int|
            0 <= t < rd.remaining_exports@.len() && 0 <= i < nodes.len() && 0 <= j < join_keys(join).len()
                && nodes[i] == NodeView::Export(rd.remaining_exports@[t]@) && #[trigger] join_keys(join)[j] == node_key(
                #[trigger] rd.reduction_map@[i].1@,
            ) ==> #[trigger] joined_exports(
                clash,
                first,
                met,
                export_views(rd.remaining_exports@),
                reduce_all(map_new_ids(m0, join_keys(join), new_ids), reduction_views(rd.reduction_map@)),
            )[t] == (renamed_in_order(clash, first, met, export_views(rd.remaining_exports@), t), new_ids[j]),
{
    let m = reduce_all(map_new_ids(m0, join_keys(join), new_ids), reduction_views(rd.reduction_map@));
    let es = export_views(rd.remaining_exports@);
    let edges = resolved_edges(nodes, ignore_mismatches);
    lemma_resolved_edges_functional(nodes, ignore_mismatches);
    lemma_joined_nodes_resolve(nodes, edges, keep, rd, join, m0, new_ids);
    // Every remaining export stands for a node, whose item is mapped.
    assert forall|t: int| 0 <= t < es.len() implies m.contains_key(((#[trigger] es[t]).module, es[t].index)) by {
        assert(es.contains(es[t]));
        assert(is_remaining_export(nodes, edges, keep, es[t]));
        let i = choose|i: int| 0 <= i < nodes.len() && #[trigger] nodes[i] == NodeView::Export(es[t]) && (!has_predecessor(
            edges,
            i,
        ) || (keep matches Some(k) && k.contains((es[t].module, es[t].identifier))));
        assert(join_keys(join).contains(node_key(rd.reduction_map@[i].1@)));
        let j = choose|j: int| 0 <= j < join_keys(join).len() && join_keys(join)[j] == node_key(rd.reduction_map@[i].1@);
        assert(m[node_key(nodes[i])] == new_ids[j]);
    }
    lemma_joined_exports_complete(clash, first, met, es, m);
    assert forall|t: int, i: int, j: int|
        0 <= t < rd.remaining_exports@.len() && 0 <= i < nodes.len() && 0 <= j < join_keys(join).len()
            && nodes[i] == NodeView::Export(rd.remaining_exports@[t]@) && #[trigger] join_keys(join)[j] == node_key(
            #[trigger] rd.reduction_map@[i].1@,
        ) implies #[trigger] joined_exports(clash, first, met, es, m)[t] == (renamed_in_order(clash, first, met, es, t), new_ids[j]) by {
        assert(es[t] == rd.remaining_exports@[t]@);
        assert(m[node_key(nodes[i])] == new_ids[j]);
    }
}


/// The function map after a join: the added functions mapped in order, then
/// the reduction applied.
pub open spec fn joined_map(m0: Map<(Seq<char>, u64), u64>, join: FunctionJoin, new_ids: Seq<u64>, rd: ReducedDependencies) -> Map<
    (Seq<char>, u64),
    u64,
> {
    reduce_all(map_new_ids(m0, join_keys(join), new_ids), reduction_views(rd.reduction_map@))
}

/// Law: after a resolution, joining the functions maps the `k`-th added
/// import of the join to `new_ids[k]`, the index of the function added for
/// it, and the `k`-th added local to `new_ids[imports + k]`: every call of an
/// added function stays a call of that function. This holds when no two
/// imports or locals share a module and an index.
pub proof fn lemma_join_maps_added_functions(
    nodes: Seq<NodeView>,
    ignore_mismatches: bool,
    keep: Option<Seq<(Seq<char>, Seq<char>)>>,
    rd: ReducedDependencies,
    join: FunctionJoin,
    m0: Map<(Seq<char>, u64), u64>,
    new_ids: Seq<u64>,
)
    requires
        nodes.len() <= index_limit(),
        exports_backed(nodes),
        definitions_keyed_uniquely(nodes),
        reduction_of(nodes, resolved_edges(nodes, ignore_mismatches), keep, rd),
        import_views(join.imports@) == import_views(rd.remaining_imports@),
        local_views(join.locals@) == reduction_locals(reduction_views(rd.reduction_map@)),
        new_ids.len() == join.imports@.len() + join.locals@.len(),
    ensures
        forall|k: int|
            0 <= k < join.imports@.len() ==> joined_map(m0, join, new_ids, rd)[(
                (#[trigger] join.imports@[k]).importing_module@,
                join.imports@[k].imported_index,
            )] == new_ids[k],
        forall|k: int|
            0 <= k < join.locals@.len() ==> joined_map(m0, join, new_ids, rd)[(
                (#[trigger] join.locals@[k]).module@,
                join.locals@[k].index,
            )] == new_ids[join.imports@.len() + k],
{
    let edges = resolved_edges(nodes, ignore_mismatches);
    lemma_resolved_edges_functional(nodes, ignore_mismatches);
    lemma_joined_nodes_resolve(nodes, edges, keep, rd, join, m0, new_ids);
    let m = joined_map(m0, join, new_ids, rd);
    let n = join.imports@.len();
    assert forall|k: int| 0 <= k < n implies m[((#[trigger] join.imports@[k]).importing_module@, join.imports@[k].imported_index)]
        == new_ids[k] by {
        assert(join_keys(join)[k] == (join.imports@[k].importing_module@, join.imports@[k].imported_index));
    }
    assert forall|k: int| 0 <= k < join.locals@.len() implies m[((#[trigger] join.locals@[k]).module@, join.locals@[k].index)]
        == new_ids[n + k] by {
        assert(join_keys(join)[n + k] == (join.locals@[k].module@, join.locals@[k].index));
    }
}

/// Law: when modules with distinct names, whose imports each bring in one
/// imported item, are resolved, joining the functions sends every import,
/// local and export of every module to the new index of the function it
/// resolves to: an import that another module's export satisfies goes to
/// the function that module defines (through any chain of re-exports), a
/// local and an import that no export satisfies to their own. Every
/// remaining export is exported from the merged module, in order, under the
/// name the renamer gives it, pointing at the function it resolves to.
pub proof fn lemma_merge_resolves_functions(
    modules: Seq<&NamedParsedModule>,
    merge_options: MergeOptions,
    resolver: Resolver,
    result: Result<AllResolved, Error>,
    join: FunctionJoin,
    m0: Map<(Seq<char>, u64), u64>,
    new_ids: Seq<u64>,
)
    requires
        forall|i: int| 0 <= i < modules.len() ==> (#[trigger] modules[i]).module.wf() && modules[i].module.imports_exclusive(),
        forall|i: int, j: int|
            0 <= i < modules.len() && 0 <= j < modules.len() && i != j ==> (#[trigger] modules[i]).name@
                != (#[trigger] modules[j]).name@,
        resolver.wf(),
        resolver.nodes_of(ExportKind::Function) == all_considered(modules, ExportKind::Function, modules.len() as nat),
        resolution_outcome(resolver, merge_options, result),
        result is Ok,
        import_views(join.imports@) == import_views(result->Ok_0.all_reduced.functions.remaining_imports@),
        local_views(join.locals@) == reduction_locals(reduction_views(result->Ok_0.all_reduced.functions.reduction_map@)),
        new_ids.len() == join_keys(join).len(),
    ensures
        ({
            let nodes = all_considered(modules, ExportKind::Function, modules.len() as nat);
            let rd = result->Ok_0.all_reduced.functions;
            &&& forall|i: int| 0 <= i < nodes.len() ==> join_keys(join).contains(node_key(#[trigger] rd.reduction_map@[i].1@))
            &&& forall|i: int, j: int|
                0 <= i < nodes.len() && 0 <= j < join_keys(join).len() && join_keys(join)[j] == node_key(
                    #[trigger] rd.reduction_map@[i].1@,
                ) ==> reduce_all(map_new_ids(m0, join_keys(join), new_ids), reduction_views(rd.reduction_map@))[node_key(
                    nodes[i],
                )] == #[trigger] new_ids[j]
            &&& string_views(result->Ok_0.rename_map.rename_encountered@) == Seq::<Seq<char>>::empty()
            &&& joined_exports(
                clash_names(result->Ok_0.rename_map.clashes_map@),
                result->Ok_0.rename_map.rename_strategy.first_occurrence,
                Seq::empty(),
                export_views(rd.remaining_exports@),
                reduce_all(map_new_ids(m0, join_keys(join), new_ids), reduction_views(rd.reduction_map@)),
            ).len() == rd.remaining_exports@.len()
            &&& forall|t: int, i: int, j: int|
                0 <= t < rd.remaining_exports@.len() && 0 <= i < nodes.len() && 0 <= j < join_keys(join).len()
                    && nodes[i] == NodeView::Export(rd.remaining_exports@[t]@) && #[trigger] join_keys(join)[j] == node_key(
                    #[trigger] rd.reduction_map@[i].1@,
                ) ==> #[trigger] joined_exports(
                    clash_names(result->Ok_0.rename_map.clashes_map@),
                    result->Ok_0.rename_map.rename_strategy.first_occurrence,
                    Seq::empty(),
                    export_views(rd.remaining_exports@),
                    reduce_all(map_new_ids(m0, join_keys(join), new_ids), reduction_views(rd.reduction_map@)),
                )[t] == (
                    renamed_in_order(
                        clash_names(result->Ok_0.rename_map.clashes_map@),
                        result->Ok_0.rename_map.rename_strategy.first_occurrence,
                        Seq::empty(),
                        export_views(rd.remaining_exports@),
                        t,
                    ),
                    new_ids[j],
                )
        }),
{
    let nodes = all_considered(modules, ExportKind::Function, modules.len() as nat);
    let rd = result->Ok_0.all_reduced.functions;
    lemma_considered_definitions_unique(modules, ExportKind::Function, modules.len() as nat);
    resolver.lemma_wf_nodes(ExportKind::Function);
    assert(reduces(resolver, merge_options, ExportKind::Function, rd));
    lemma_join_resolves_every_node(
        nodes,
        merge_options.link_type_mismatch == LinkTypeMismatch::Ignore,
        keep_of(merge_options, ExportKind::Function),
        rd,
        join,
        m0,
        new_ids,
        clash_names(result->Ok_0.rename_map.clashes_map@),
        result->Ok_0.rename_map.rename_strategy.first_occurrence,
        Seq::empty(),
    );
    assert(string_views(result->Ok_0.rename_map.rename_encountered@) =~= Seq::<Seq<char>>::empty());
}

} // verus!
