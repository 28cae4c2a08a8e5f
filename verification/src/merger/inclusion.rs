//! What including an input module decides: where each of its items goes, and
//! how the references in its constant expressions, element segments and
//! tables are carried over to the merged module.
use crate::kinds::{ExportKind, IdentifierModule};
use crate::merge_builder::{clash_names, export_node, string_views, AllReducedDependencies, MergeRenamer, Resolver};
use crate::merger::{encounter, include_export, map_new_ids, renamed};
use crate::named_module::{ExportedItem, ParsedModule};
use crate::resolver::dependency_reduction::export_views;
use crate::resolver::{ExportView, Node, NodeView};
use crate::merger::old_to_new_mapping::{IdMap, Mapping};
use crate::merger::provenance_identifier::{Identifier, Old};
use vstd::prelude::*;

verus! {

/// One operation of an extended constant expression, as far as its
/// references go.
#[derive(Debug, Clone, Copy, PartialEq, Eq, Structural)]
pub enum PlainConstOp {
    /// An operation that refers to no item (a constant, arithmetic).
    Other,
    /// `global.get` of a global.
    GlobalGet(u64),
    /// `ref.func` of a function.
    RefFunc(u64),
}

/// A constant expression, as far as its references go.
#[derive(Debug)]
pub enum PlainConstExpr {
    /// A value or a null reference: it refers to no item.
    Other,
    /// The value of a global.
    Global(u64),
    /// A reference to a function.
    RefFunc(u64),
    /// A sequence of operations.
    Extended(Vec<PlainConstOp>),
}

/// The abstract view of a [`PlainConstExpr`].
pub enum PlainConstExprView {
    Other,
    Global(u64),
    RefFunc(u64),
    Extended(Seq<PlainConstOp>),
}

impl View for PlainConstExpr {
    type V = PlainConstExprView;

    open spec fn view(&self) -> PlainConstExprView {
        match self {
            PlainConstExpr::Other => PlainConstExprView::Other,
            PlainConstExpr::Global(g) => PlainConstExprView::Global(*g),
            PlainConstExpr::RefFunc(f) => PlainConstExprView::RefFunc(*f),
            PlainConstExpr::Extended(ops) => PlainConstExprView::Extended(ops@),
        }
    }
}

/// The item an operation refers to is mapped.
pub open spec fn op_mapped(
    op: PlainConstOp,
    module: Seq<char>,
    globals: Map<(Seq<char>, u64), u64>,
    funcs: Map<(Seq<char>, u64), u64>,
) -> bool {
    match op {
        PlainConstOp::Other => true,
        PlainConstOp::GlobalGet(g) => globals.contains_key((module, g)),
        PlainConstOp::RefFunc(f) => funcs.contains_key((module, f)),
    }
}

/// The operation with its reference replaced by where the item went.
pub open spec fn remapped_op(
    op: PlainConstOp,
    module: Seq<char>,
    globals: Map<(Seq<char>, u64), u64>,
    funcs: Map<(Seq<char>, u64), u64>,
) -> PlainConstOp {
    match op {
        PlainConstOp::Other => PlainConstOp::Other,
        PlainConstOp::GlobalGet(g) => PlainConstOp::GlobalGet(globals[(module, g)]),
        PlainConstOp::RefFunc(f) => PlainConstOp::RefFunc(funcs[(module, f)]),
    }
}

/// Every item the expression refers to is mapped.
pub open spec fn const_mapped(
    e: PlainConstExprView,
    module: Seq<char>,
    globals: Map<(Seq<char>, u64), u64>,
    funcs: Map<(Seq<char>, u64), u64>,
) -> bool {
    match e {
        PlainConstExprView::Other => true,
        PlainConstExprView::Global(g) => globals.contains_key((module, g)),
        PlainConstExprView::RefFunc(f) => funcs.contains_key((module, f)),
        PlainConstExprView::Extended(ops) => forall|i: int|
            0 <= i < ops.len() ==> op_mapped(#[trigger] ops[i], module, globals, funcs),
    }
}

/// The expression with each reference replaced by where the item went.
pub open spec fn remapped_const(
    e: PlainConstExprView,
    module: Seq<char>,
    globals: Map<(Seq<char>, u64), u64>,
    funcs: Map<(Seq<char>, u64), u64>,
) -> PlainConstExprView {
    match e {
        PlainConstExprView::Other => PlainConstExprView::Other,
        PlainConstExprView::Global(g) => PlainConstExprView::Global(globals[(module, g)]),
        PlainConstExprView::RefFunc(f) => PlainConstExprView::RefFunc(funcs[(module, f)]),
        PlainConstExprView::Extended(ops) => PlainConstExprView::Extended(
            ops.map_values(|op: PlainConstOp| remapped_op(op, module, globals, funcs)),
        ),
    }
}

/// Where item `old` of `module` went, if it is mapped.
fn lookup(map: &IdMap, module: &IdentifierModule, old: u64) -> (r: Option<u64>)
    ensures
        r is Some <==> map@.contains_key((module@, old)),
        r matches Some(n) ==> n == map@[(module@, old)],
{
    match map.get(module, Identifier::<Old>::new(old)) {
        Some(n) => Some(n.id()),
        None => None,
    }
}

/// The operation with its reference carried over to the merged module;
/// `None` when the item it refers to is not mapped.
fn remap_op(op: PlainConstOp, module: &IdentifierModule, m: &Mapping) -> (r: Option<PlainConstOp>)
    ensures
        r is Some <==> op_mapped(op, module@, m.globals@, m.funcs@),
        r matches Some(x) ==> x == remapped_op(op, module@, m.globals@, m.funcs@),
{
    match op {
        PlainConstOp::Other => Some(PlainConstOp::Other),
        PlainConstOp::GlobalGet(g) => match lookup(&m.globals, module, g) {
            Some(n) => Some(PlainConstOp::GlobalGet(n)),
            None => None,
        },
        PlainConstOp::RefFunc(f) => match lookup(&m.funcs, module, f) {
            Some(n) => Some(PlainConstOp::RefFunc(n)),
            None => None,
        },
    }
}

/// A constant expression of `module` carried over to the merged module:
/// each global and function it refers to replaced by where it went. `None`
/// exactly when one of them is not mapped.
pub fn remap_const(e: &PlainConstExpr, module: &IdentifierModule, m: &Mapping) -> (r: Option<PlainConstExpr>)
    ensures
        r is Some <==> const_mapped(e@, module@, m.globals@, m.funcs@),
        r matches Some(x) ==> x@ == remapped_const(e@, module@, m.globals@, m.funcs@),
{
    match e {
        PlainConstExpr::Other => Some(PlainConstExpr::Other),
        PlainConstExpr::Global(g) => match lookup(&m.globals, module, *g) {
            Some(n) => Some(PlainConstExpr::Global(n)),
            None => None,
        },
        PlainConstExpr::RefFunc(f) => match lookup(&m.funcs, module, *f) {
            Some(n) => Some(PlainConstExpr::RefFunc(n)),
            None => None,
        },
        PlainConstExpr::Extended(ops) => {
            let ghost globals = m.globals@;
            let ghost funcs = m.funcs@;
            let mut out: Vec<PlainConstOp> = Vec::new();
            let mut i: usize = 0;
            while i < ops.len()
                invariant
                    i <= ops@.len(),
                    e@ == PlainConstExprView::Extended(ops@),
                    globals == m.globals@,
                    funcs == m.funcs@,
                    forall|j: int| 0 <= j < i ==> op_mapped(#[trigger] ops@[j], module@, globals, funcs),
                    out@ =~= ops@.take(i as int).map_values(
                        |op: PlainConstOp| remapped_op(op, module@, globals, funcs),
                    ),
                decreases ops@.len() - i,
            {
                match remap_op(ops[i], module, m) {
                    Some(x) => out.push(x),
                    None => {
                        assert(!op_mapped(ops@[i as int], module@, globals, funcs));
                        return None;
                    },
                }
                i = i + 1;
            }
            assert(ops@.take(i as int) =~= ops@);
            Some(PlainConstExpr::Extended(out))
        },
    }
}

/// The keys under which items `old_ids` of `module` are mapped.
pub open spec fn item_keys(module: Seq<char>, old_ids: Seq<u64>) -> Seq<(Seq<char>, u64)> {
    old_ids.map_values(|old: u64| (module, old))
}

/// Every item among `old_ids` of `module` is mapped.
pub open spec fn ids_mapped(map: Map<(Seq<char>, u64), u64>, module: Seq<char>, old_ids: Seq<u64>) -> bool {
    forall|i: int| 0 <= i < old_ids.len() ==> map.contains_key((module, #[trigger] old_ids[i]))
}

/// Where each of the items `old_ids` of `module` went, if all are mapped;
/// `None` otherwise. Used for the functions of element segments and the
/// element segments of tables.
pub fn remap_ids(map: &IdMap, module: &IdentifierModule, old_ids: &Vec<u64>) -> (r: Option<Vec<u64>>)
    ensures
        r is Some <==> ids_mapped(map@, module@, old_ids@),
        r matches Some(v) ==> v@ == old_ids@.map_values(|old: u64| map@[(module@, old)]),
{
    let mut out: Vec<u64> = Vec::new();
    let mut i: usize = 0;
    while i < old_ids.len()
        invariant
            i <= old_ids@.len(),
            forall|j: int| 0 <= j < i ==> map@.contains_key((module@, #[trigger] old_ids@[j])),
            out@ =~= old_ids@.take(i as int).map_values(|old: u64| map@[(module@, old)]),
        decreases old_ids@.len() - i,
    {
        match lookup(map, module, old_ids[i]) {
            Some(n) => out.push(n),
            None => {
                return None;
            },
        }
        i = i + 1;
    }
    assert(old_ids@.take(i as int) =~= old_ids@);
    Some(out)
}

/// Records that items `old_ids` of `module` went to `new_ids`, in order: a
/// later record of the same item replaces an earlier one.
pub fn record_include_items(module: &IdentifierModule, old_ids: &Vec<u64>, new_ids: &Vec<u64>, map: &mut IdMap)
    requires
        old_ids@.len() == new_ids@.len(),
    ensures
        final(map)@ == map_new_ids(old(map)@, item_keys(module@, old_ids@), new_ids@),
{
    let ghost m0 = map@;
    let ghost keys = item_keys(module@, old_ids@);
    let mut t: usize = 0;
    while t < old_ids.len()
        invariant
            old_ids@.len() == new_ids@.len(),
            keys == item_keys(module@, old_ids@),
            t <= keys.len(),
            map@ == map_new_ids(m0, keys.take(t as int), new_ids@),
        decreases keys.len() - t,
    {
        assert(keys.take(t + 1).drop_last() =~= keys.take(t as int));
        map.insert(module.duplicate(), Identifier::new(old_ids[t]), Identifier::new(new_ids[t]));
        t = t + 1;
    }
    assert(keys.take(t as int) =~= keys);
}

/// A global of an included module: its initial value, or `None` for an
/// imported global.
#[derive(Debug)]
pub struct PlainGlobal {
    pub init: Option<PlainConstExpr>,
}

/// A data segment of an included module: for an active segment, its memory
/// and its offset.
#[derive(Debug)]
pub struct PlainData {
    pub active: Option<(u64, PlainConstExpr)>,
}

/// The items of an element segment.
#[derive(Debug)]
pub enum PlainElementItems {
    Functions(Vec<u64>),
    Expressions(Vec<PlainConstExpr>),
}

/// An element segment of an included module: its items and, for an active
/// segment, its table and its offset.
#[derive(Debug)]
pub struct PlainElement {
    pub items: PlainElementItems,
    pub active: Option<(u64, PlainConstExpr)>,
}

/// What including a module reads of it, item `k` of each kind at position
/// `k`: its globals, the number of its memories, its data segments, the
/// element segments of each of its tables, its element segments and its
/// start function.
#[derive(Debug)]
pub struct InclusionInput {
    pub globals: Vec<PlainGlobal>,
    pub memories: u64,
    pub datas: Vec<PlainData>,
    pub tables: Vec<Vec<u64>>,
    pub elements: Vec<PlainElement>,
    pub start: Option<u64>,
}

/// How many items of each kind the merged module holds before a module is
/// included: the index its next item of that kind gets.
#[derive(Debug, Clone, Copy)]
pub struct ItemCounts {
    pub globals: u64,
    pub memories: u64,
    pub datas: u64,
    pub tables: u64,
    pub elements: u64,
}

/// What the merged module gets of an included module, in the order of the
/// module's items: the initial value of each global (`None` for an
/// imported one), each data segment's memory and offset, each element
/// segment, the element segments of each table, and the start function,
/// all with their references carried over.
#[derive(Debug)]
pub struct InclusionPlan {
    pub globals: Vec<Option<PlainConstExpr>>,
    pub datas: Vec<Option<(u64, PlainConstExpr)>>,
    pub elements: Vec<PlainElement>,
    pub tables: Vec<Vec<u64>>,
    pub start: Option<u64>,
}

/// `m` after mapping items `0..n` of `module` to the fresh indices
/// `base..base + n`.
pub open spec fn fresh_ids(m: Map<(Seq<char>, u64), u64>, module: Seq<char>, base: u64, n: nat) -> Map<(Seq<char>, u64), u64>
    decreases n,
{
    if n == 0 {
        m
    } else {
        fresh_ids(m, module, base, (n - 1) as nat).insert((module, (n - 1) as u64), (base + n - 1) as u64)
    }
}

/// Items `0..n` of `module` are mapped to `base + k`; other keys keep what
/// they had.
pub proof fn lemma_fresh_ids(m: Map<(Seq<char>, u64), u64>, module: Seq<char>, base: u64, n: nat)
    requires
        base + n <= u64::MAX + 1,
    ensures
        forall|k: (Seq<char>, u64)| #[trigger] fresh_ids(m, module, base, n).contains_key(k) <==> m.contains_key(k)
            || (k.0 == module && k.1 < n),
        forall|k: (Seq<char>, u64)| k.0 == module && k.1 < n ==> #[trigger] fresh_ids(m, module, base, n)[k] == base + k.1,
        forall|k: (Seq<char>, u64)| !(k.0 == module && k.1 < n) && m.contains_key(k) ==> #[trigger] fresh_ids(
            m,
            module,
            base,
            n,
        )[k] == m[k],
    decreases n,
{
    if n > 0 {
        lemma_fresh_ids(m, module, base, (n - 1) as nat);
        let prev = fresh_ids(m, module, base, (n - 1) as nat);
        let last: (Seq<char>, u64) = (module, (n - 1) as u64);
        assert(fresh_ids(m, module, base, n) == prev.insert(last, (base + n - 1) as u64));
        assert forall|k: (Seq<char>, u64)| #[trigger] fresh_ids(m, module, base, n).contains_key(k) <==> m.contains_key(k)
            || (k.0 == module && k.1 < n) by {
            if k.0 == module && k.1 == n - 1 {
                assert(k == last);
            }
        }
        assert forall|k: (Seq<char>, u64)| k.0 == module && k.1 < n implies #[trigger] fresh_ids(m, module, base, n)[k] == base + k.1 by {
            if k.1 == n - 1 {
                assert(k == last);
            }
        }
        assert forall|k: (Seq<char>, u64)| !(k.0 == module && k.1 < n) && m.contains_key(k) implies #[trigger] fresh_ids(
            m,
            module,
            base,
            n,
        )[k] == m[k] by {
            assert(k != last);
        }
    }
}

/// Law: when module `b` is included after module `a`, from counts that
/// follow `a`'s items, every item of `a` of a kind (such as a memory) gets a
/// smaller index than every item of `b` of that kind, and the items of each
/// module keep their order: the merged module holds them in module order.
pub proof fn lemma_inclusion_keeps_module_order(
    m: Map<(Seq<char>, u64), u64>,
    a: Seq<char>,
    base_a: u64,
    n_a: nat,
    b: Seq<char>,
    base_b: u64,
    n_b: nat,
)
    requires
        a != b,
        base_a + n_a <= base_b,
        base_b + n_b <= u64::MAX + 1,
    ensures
        forall|ka: u64, kb: u64|
            ka < n_a && kb < n_b ==> #[trigger] fresh_ids(fresh_ids(m, a, base_a, n_a), b, base_b, n_b)[(a, ka)]
                < #[trigger] fresh_ids(fresh_ids(m, a, base_a, n_a), b, base_b, n_b)[(b, kb)],
        forall|k1: u64, k2: u64|
            k1 < k2 < n_a ==> #[trigger] fresh_ids(fresh_ids(m, a, base_a, n_a), b, base_b, n_b)[(a, k1)]
                < #[trigger] fresh_ids(fresh_ids(m, a, base_a, n_a), b, base_b, n_b)[(a, k2)],
        forall|k1: u64, k2: u64|
            k1 < k2 < n_b ==> #[trigger] fresh_ids(fresh_ids(m, a, base_a, n_a), b, base_b, n_b)[(b, k1)]
                < #[trigger] fresh_ids(fresh_ids(m, a, base_a, n_a), b, base_b, n_b)[(b, k2)],
{
    let first = fresh_ids(m, a, base_a, n_a);
    lemma_fresh_ids(m, a, base_a, n_a);
    lemma_fresh_ids(first, b, base_b, n_b);
}

/// Maps items `0..n` of `module` to `base..base + n`.
fn record_fresh(map: &mut IdMap, module: &IdentifierModule, base: u64, n: u64)
    requires
        base + n <= u64::MAX,
    ensures
        final(map)@ == fresh_ids(old(map)@, module@, base, n as nat),
{
    let ghost m0 = map@;
    let mut k: u64 = 0;
    while k < n
        invariant
            k <= n,
            base + n <= u64::MAX,
            map@ == fresh_ids(m0, module@, base, k as nat),
        decreases n - k,
    {
        map.insert(module.duplicate(), Identifier::new(k), Identifier::new(base + k));
        k = k + 1;
    }
}

/// Every expression can be carried over.
pub open spec fn consts_mapped(
    es: Seq<PlainConstExpr>,
    module: Seq<char>,
    globals: Map<(Seq<char>, u64), u64>,
    funcs: Map<(Seq<char>, u64), u64>,
) -> bool {
    forall|i: int| 0 <= i < es.len() ==> const_mapped((#[trigger] es[i])@, module, globals, funcs)
}

/// The items of an element segment can be carried over.
pub open spec fn items_mapped(
    items: PlainElementItems,
    module: Seq<char>,
    globals: Map<(Seq<char>, u64), u64>,
    funcs: Map<(Seq<char>, u64), u64>,
) -> bool {
    match items {
        PlainElementItems::Functions(fs) => ids_mapped(funcs, module, fs@),
        PlainElementItems::Expressions(es) => consts_mapped(es@, module, globals, funcs),
    }
}

/// The element's items and table can be carried over.
pub open spec fn element_mapped(
    e: PlainElement,
    module: Seq<char>,
    tables: Map<(Seq<char>, u64), u64>,
    globals: Map<(Seq<char>, u64), u64>,
    funcs: Map<(Seq<char>, u64), u64>,
) -> bool {
    &&& items_mapped(e.items, module, globals, funcs)
    &&& e.active matches Some(a) ==> tables.contains_key((module, a.0)) && const_mapped(a.1@, module, globals, funcs)
}

/// `out` is the element `e` with its references carried over.
pub open spec fn element_remapped(
    e: PlainElement,
    out: PlainElement,
    module: Seq<char>,
    tables: Map<(Seq<char>, u64), u64>,
    globals: Map<(Seq<char>, u64), u64>,
    funcs: Map<(Seq<char>, u64), u64>,
) -> bool {
    &&& match (e.items, out.items) {
        (PlainElementItems::Functions(fs), PlainElementItems::Functions(gs)) => gs@ == fs@.map_values(
            |f: u64| funcs[(module, f)],
        ),
        (PlainElementItems::Expressions(es), PlainElementItems::Expressions(xs)) => xs@.len() == es@.len()
            && forall|i: int| 0 <= i < es@.len() ==> (#[trigger] xs@[i])@ == remapped_const(es@[i]@, module, globals, funcs),
        _ => false,
    }
    &&& match (e.active, out.active) {
        (None, None) => true,
        (Some(a), Some(b)) => b.0 == tables[(module, a.0)] && b.1@ == remapped_const(a.1@, module, globals, funcs),
        _ => false,
    }
}

/// The globals map once the first `j` globals of the module are mapped.
pub open spec fn globals_upto(m: Mapping, module: Seq<char>, counts: ItemCounts, j: nat) -> Map<(Seq<char>, u64), u64> {
    fresh_ids(m.globals@, module, counts.globals, j)
}

/// The mapping once every global, memory, data segment, table and element
/// segment of the module is mapped to a fresh index.
pub open spec fn included_mapping(m: Mapping, module: Seq<char>, input: InclusionInput, counts: ItemCounts) -> (
    Map<(Seq<char>, u64), u64>,
    Map<(Seq<char>, u64), u64>,
    Map<(Seq<char>, u64), u64>,
    Map<(Seq<char>, u64), u64>,
    Map<(Seq<char>, u64), u64>,
) {
    (
        fresh_ids(m.globals@, module, counts.globals, input.globals@.len()),
        fresh_ids(m.memories@, module, counts.memories, input.memories as nat),
        fresh_ids(m.datas@, module, counts.datas, input.datas@.len()),
        fresh_ids(m.tables@, module, counts.tables, input.tables@.len()),
        fresh_ids(m.elements@, module, counts.elements, input.elements@.len()),
    )
}

/// Every reference of the module can be carried over: each global's
/// initial value to the functions and the globals before it; each data
/// segment to a memory and the globals; each element segment to the
/// functions, the tables and the globals; each table to the element
/// segments; the start to a function.
pub open spec fn inclusion_mapped(m: Mapping, module: Seq<char>, input: InclusionInput, counts: ItemCounts) -> bool {
    let (globals, memories, datas, tables, elements) = included_mapping(m, module, input, counts);
    let funcs = m.funcs@;
    &&& forall|j: int|
        0 <= j < input.globals@.len() ==> ((#[trigger] input.globals@[j]).init matches Some(e) ==> const_mapped(
            e@,
            module,
            globals_upto(m, module, counts, j as nat),
            funcs,
        ))
    &&& forall|j: int|
        0 <= j < input.datas@.len() ==> ((#[trigger] input.datas@[j]).active matches Some(a) ==> memories.contains_key(
            (module, a.0),
        ) && const_mapped(a.1@, module, globals, funcs))
    &&& forall|j: int| 0 <= j < input.elements@.len() ==> element_mapped(#[trigger] input.elements@[j], module, tables, globals, funcs)
    &&& forall|j: int| 0 <= j < input.tables@.len() ==> ids_mapped(elements, module, (#[trigger] input.tables@[j])@)
    &&& input.start matches Some(s) ==> funcs.contains_key((module, s))
}

/// `plan` carries every item of the module over, as [`plan_inclusion`] says.
pub open spec fn plans_inclusion(
    m: Mapping,
    module: Seq<char>,
    input: InclusionInput,
    counts: ItemCounts,
    plan: InclusionPlan,
) -> bool {
    let (globals, memories, datas, tables, elements) = included_mapping(m, module, input, counts);
    let funcs = m.funcs@;
    &&& plan.globals@.len() == input.globals@.len()
    &&& forall|j: int|
        0 <= j < input.globals@.len() ==> match ((#[trigger] input.globals@[j]).init, plan.globals@[j]) {
            (None, None) => true,
            (Some(e), Some(x)) => x@ == remapped_const(e@, module, globals_upto(m, module, counts, j as nat), funcs),
            _ => false,
        }
    &&& plan.datas@.len() == input.datas@.len()
    &&& forall|j: int|
        0 <= j < input.datas@.len() ==> match ((#[trigger] input.datas@[j]).active, plan.datas@[j]) {
            (None, None) => true,
            (Some(a), Some(b)) => b.0 == memories[(module, a.0)] && b.1@ == remapped_const(a.1@, module, globals, funcs),
            _ => false,
        }
    &&& plan.elements@.len() == input.elements@.len()
    &&& forall|j: int|
        0 <= j < input.elements@.len() ==> element_remapped(
            #[trigger] input.elements@[j],
            plan.elements@[j],
            module,
            tables,
            globals,
            funcs,
        )
    &&& plan.tables@.len() == input.tables@.len()
    &&& forall|j: int|
        0 <= j < input.tables@.len() ==> (#[trigger] plan.tables@[j])@ == input.tables@[j]@.map_values(
            |e: u64| elements[(module, e)],
        )
    &&& plan.start == match input.start {
        Some(s) => Some(funcs[(module, s)]),
        None => None,
    }
}

/// The items of an element segment with their references carried over;
/// `None` when one of them is not mapped.
fn remap_element(e: &PlainElement, module: &IdentifierModule, m: &Mapping) -> (r: Option<PlainElement>)
    ensures
        r is Some <==> element_mapped(*e, module@, m.tables@, m.globals@, m.funcs@),
        r matches Some(out) ==> element_remapped(*e, out, module@, m.tables@, m.globals@, m.funcs@),
{
    let items = match &e.items {
        PlainElementItems::Functions(fs) => match remap_ids(&m.funcs, module, fs) {
            Some(gs) => PlainElementItems::Functions(gs),
            None => {
                return None;
            },
        },
        PlainElementItems::Expressions(es) => {
            let mut xs: Vec<PlainConstExpr> = Vec::new();
            let mut i: usize = 0;
            while i < es.len()
                invariant
                    i <= es@.len(),
                    e.items == PlainElementItems::Expressions(*es),
                    xs@.len() == i,
                    forall|k: int| 0 <= k < i ==> const_mapped((#[trigger] es@[k])@, module@, m.globals@, m.funcs@),
                    forall|k: int| 0 <= k < i ==> (#[trigger] xs@[k])@ == remapped_const(es@[k]@, module@, m.globals@, m.funcs@),
                decreases es@.len() - i,
            {
                match remap_const(&es[i], module, m) {
                    Some(x) => xs.push(x),
                    None => {
                        assert(!const_mapped(es@[i as int]@, module@, m.globals@, m.funcs@));
                        assert(!consts_mapped(es@, module@, m.globals@, m.funcs@));
                        return None;
                    },
                }
                i = i + 1;
            }
            PlainElementItems::Expressions(xs)
        },
    };
    let active = match &e.active {
        None => None,
        Some((t, offset)) => {
            let table = match lookup(&m.tables, module, *t) {
                Some(n) => n,
                None => {
                    return None;
                },
            };
            match remap_const(offset, module, m) {
                Some(x) => Some((table, x)),
                None => {
                    return None;
                },
            }
        },
    };
    Some(PlainElement { items, active })
}

/// What the merged module gets of an included module whose items of each
/// kind come after the `counts` items it already holds: item `k` of each
/// kind of `module` (globals, memories, data segments, tables, element
/// segments) is mapped to the fresh index `count + k`, and every reference
/// is carried over (see [`plans_inclusion`]): a global's initial value sees
/// the globals of the module before it, the rest sees all of them. Returns
/// the plan and the new mapping; `None` exactly when some reference has no
/// counterpart.
pub fn plan_inclusion(module: &IdentifierModule, input: &InclusionInput, counts: ItemCounts, mapping: &Mapping) -> (r:
    Option<(InclusionPlan, Mapping)>)
    requires
        counts.globals + input.globals@.len() <= u64::MAX,
        counts.memories + input.memories <= u64::MAX,
        counts.datas + input.datas@.len() <= u64::MAX,
        counts.tables + input.tables@.len() <= u64::MAX,
        counts.elements + input.elements@.len() <= u64::MAX,
    ensures
        r is Some <==> inclusion_mapped(*mapping, module@, *input, counts),
        r matches Some(p) ==> {
            let (globals, memories, datas, tables, elements) = included_mapping(*mapping, module@, *input, counts);
            &&& plans_inclusion(*mapping, module@, *input, counts, p.0)
            &&& p.1.globals@ == globals
            &&& p.1.memories@ == memories
            &&& p.1.datas@ == datas
            &&& p.1.tables@ == tables
            &&& p.1.elements@ == elements
            &&& p.1.funcs@ == mapping.funcs@
            &&& p.1.locals@ == mapping.locals@
        },
{
    let ghost name = module@;
    let ghost (g_all, m_all, d_all, t_all, e_all) = included_mapping(*mapping, name, *input, counts);
    let ghost funcs = mapping.funcs@;
    let mut out = Mapping {
        tables: mapping.tables.duplicate(),
        globals: mapping.globals.duplicate(),
        memories: mapping.memories.duplicate(),
        datas: mapping.datas.duplicate(),
        elements: mapping.elements.duplicate(),
        funcs: mapping.funcs.duplicate(),
        locals: mapping.locals.duplicate(),
    };
    // Globals, one at a time: an initial value sees the globals before it.
    let mut globals: Vec<Option<PlainConstExpr>> = Vec::new();
    let mut j: usize = 0;
    while j < input.globals.len()
        invariant
            j <= input.globals@.len(),
            counts.globals + input.globals@.len() <= u64::MAX,
            out.globals@ == globals_upto(*mapping, name, counts, j as nat),
            out.memories@ == mapping.memories@,
            out.datas@ == mapping.datas@,
            out.tables@ == mapping.tables@,
            out.elements@ == mapping.elements@,
            out.locals@ == mapping.locals@,
            out.funcs@ == funcs,
            funcs == mapping.funcs@,
            name == module@,
            globals@.len() == j,
            forall|k: int|
                0 <= k < j ==> ((#[trigger] input.globals@[k]).init matches Some(e) ==> const_mapped(
                    e@,
                    name,
                    globals_upto(*mapping, name, counts, k as nat),
                    funcs,
                )),
            forall|k: int|
                0 <= k < j ==> match ((#[trigger] input.globals@[k]).init, globals@[k]) {
                    (None, None) => true,
                    (Some(e), Some(x)) => x@ == remapped_const(e@, name, globals_upto(*mapping, name, counts, k as nat), funcs),
                    _ => false,
                },
        decreases input.globals@.len() - j,
    {
        match &input.globals[j].init {
            None => globals.push(None),
            Some(e) => match remap_const(e, module, &out) {
                Some(x) => globals.push(Some(x)),
                None => {
                    return None;
                },
            },
        }
        out.globals.insert(module.duplicate(), Identifier::new(j as u64), Identifier::new(counts.globals + j as u64));
        j = j + 1;
    }
    assert(out.globals@ == g_all);
    record_fresh(&mut out.memories, module, counts.memories, input.memories);

    // Data segments: their memories and offsets.
    let mut datas: Vec<Option<(u64, PlainConstExpr)>> = Vec::new();
    let mut j: usize = 0;
    while j < input.datas.len()
        invariant
            j <= input.datas@.len(),
            out.globals@ == g_all,
            out.memories@ == m_all,
            out.datas@ == mapping.datas@,
            out.tables@ == mapping.tables@,
            out.elements@ == mapping.elements@,
            out.locals@ == mapping.locals@,
            m_all == included_mapping(*mapping, name, *input, counts).1,
            funcs == mapping.funcs@,
            g_all == included_mapping(*mapping, name, *input, counts).0,
            out.funcs@ == funcs,
            name == module@,
            datas@.len() == j,
            forall|k: int|
                0 <= k < j ==> ((#[trigger] input.datas@[k]).active matches Some(a) ==> m_all.contains_key((name, a.0))
                    && const_mapped(a.1@, name, g_all, funcs)),
            forall|k: int|
                0 <= k < j ==> match ((#[trigger] input.datas@[k]).active, datas@[k]) {
                    (None, None) => true,
                    (Some(a), Some(b)) => b.0 == m_all[(name, a.0)] && b.1@ == remapped_const(a.1@, name, g_all, funcs),
                    _ => false,
                },
        decreases input.datas@.len() - j,
    {
        match &input.datas[j].active {
            None => datas.push(None),
            Some((memory, offset)) => {
                let new_memory = match lookup(&out.memories, module, *memory) {
                    Some(n) => n,
                    None => {
                        assert(input.datas@[j as int].active matches Some(a) && !m_all.contains_key((name, a.0)));
                        return None;
                    },
                };
                match remap_const(offset, module, &out) {
                    Some(x) => datas.push(Some((new_memory, x))),
                    None => {
                        assert(input.datas@[j as int].active matches Some(a) && !const_mapped(a.1@, name, g_all, funcs));
                        assert(!inclusion_mapped(*mapping, name, *input, counts));
                        return None;
                    },
                }
            },
        }
        j = j + 1;
    }
    record_fresh(&mut out.datas, module, counts.datas, input.datas.len() as u64);
    record_fresh(&mut out.tables, module, counts.tables, input.tables.len() as u64);

    // Element segments: their items, tables and offsets.
    let mut elements: Vec<PlainElement> = Vec::new();
    let mut j: usize = 0;
    while j < input.elements.len()
        invariant
            j <= input.elements@.len(),
            out.globals@ == g_all,
            out.tables@ == t_all,
            out.memories@ == m_all,
            out.datas@ == d_all,
            out.elements@ == mapping.elements@,
            out.locals@ == mapping.locals@,
            g_all == included_mapping(*mapping, name, *input, counts).0,
            t_all == included_mapping(*mapping, name, *input, counts).3,
            funcs == mapping.funcs@,
            out.funcs@ == funcs,
            name == module@,
            elements@.len() == j,
            forall|k: int| 0 <= k < j ==> element_mapped(#[trigger] input.elements@[k], name, t_all, g_all, funcs),
            forall|k: int|
                0 <= k < j ==> element_remapped(#[trigger] input.elements@[k], elements@[k], name, t_all, g_all, funcs),
        decreases input.elements@.len() - j,
    {
        match remap_element(&input.elements[j], module, &out) {
            Some(x) => elements.push(x),
            None => {
                assert(!element_mapped(input.elements@[j as int], name, t_all, g_all, funcs));
                assert(!inclusion_mapped(*mapping, name, *input, counts));
                return None;
            },
        }
        j = j + 1;
    }
    record_fresh(&mut out.elements, module, counts.elements, input.elements.len() as u64);

    // The element segments of each table.
    let mut tables: Vec<Vec<u64>> = Vec::new();
    let mut j: usize = 0;
    while j < input.tables.len()
        invariant
            j <= input.tables@.len(),
            out.elements@ == e_all,
            out.globals@ == g_all,
            out.tables@ == t_all,
            out.memories@ == m_all,
            out.datas@ == d_all,
            out.locals@ == mapping.locals@,
            out.funcs@ == funcs,
            funcs == mapping.funcs@,
            e_all == included_mapping(*mapping, name, *input, counts).4,
            name == module@,
            tables@.len() == j,
            forall|k: int| 0 <= k < j ==> ids_mapped(e_all, name, (#[trigger] input.tables@[k])@),
            forall|k: int|
                0 <= k < j ==> (#[trigger] tables@[k])@ == input.tables@[k]@.map_values(|e: u64| e_all[(name, e)]),
        decreases input.tables@.len() - j,
    {
        match remap_ids(&out.elements, module, &input.tables[j]) {
            Some(x) => tables.push(x),
            None => {
                assert(!ids_mapped(e_all, name, input.tables@[j as int]@));
                return None;
            },
        }
        j = j + 1;
    }

    let start = match input.start {
        None => None,
        Some(s) => match lookup(&out.funcs, module, s) {
            Some(n) => Some(n),
            None => {
                return None;
            },
        },
    };
    let plan = InclusionPlan { globals, datas, elements, tables, start };
    Some((plan, out))
}

/// The kind of item that export `j` of the module exports.
pub open spec fn export_kind(m: ParsedModule, j: int) -> ExportKind {
    match m.exports@[j].item {
        ExportedItem::Function(_) => ExportKind::Function,
        ExportedItem::Table(_) => ExportKind::Table,
        ExportedItem::Memory(_) => ExportKind::Memory,
        ExportedItem::Global(_) => ExportKind::Global,
    }
}

/// Export `j` of the module, as the resolver saw it.
pub open spec fn export_at(name: Seq<char>, m: ParsedModule, j: int) -> ExportView {
    match export_node(name, m, j, export_kind(m, j)) {
        Some(NodeView::Export(e)) => e,
        _ => arbitrary(),
    }
}

/// Of three values, the one for `kind` (tables, memories, globals).
pub open spec fn of_kind<T>(kind: ExportKind, tables: T, memories: T, globals: T) -> T {
    match kind {
        ExportKind::Table => tables,
        ExportKind::Memory => memories,
        _ => globals,
    }
}

/// Export `j` of the module is of a table, memory or global and is among
/// the remaining exports of its kind.
pub open spec fn export_kept(
    name: Seq<char>,
    m: ParsedModule,
    j: int,
    remaining: (Seq<ExportView>, Seq<ExportView>, Seq<ExportView>),
) -> bool {
    export_kind(m, j) != ExportKind::Function && of_kind(export_kind(m, j), remaining.0, remaining.1, remaining.2).contains(
        export_at(name, m, j),
    )
}

/// The clashing names met after the first `n` exports of the module.
pub open spec fn exports_met(
    clash: Seq<Seq<char>>,
    met: Seq<Seq<char>>,
    name: Seq<char>,
    m: ParsedModule,
    remaining: (Seq<ExportView>, Seq<ExportView>, Seq<ExportView>),
    n: nat,
) -> Seq<Seq<char>>
    decreases n,
{
    if n == 0 {
        met
    } else {
        let prev = exports_met(clash, met, name, m, remaining, (n - 1) as nat);
        if export_kept(name, m, n - 1, remaining) {
            encounter(clash, prev, export_at(name, m, n - 1))
        } else {
            prev
        }
    }
}

/// The exports that the merged module gets for the first `n` exports of the
/// module: each kept export of a table, memory or global, under the name the
/// renamer gives it, with its kind and the new index of its item.
pub open spec fn exports_added(
    clash: Seq<Seq<char>>,
    first: bool,
    met: Seq<Seq<char>>,
    name: Seq<char>,
    m: ParsedModule,
    remaining: (Seq<ExportView>, Seq<ExportView>, Seq<ExportView>),
    maps: (Map<(Seq<char>, u64), u64>, Map<(Seq<char>, u64), u64>, Map<(Seq<char>, u64), u64>),
    n: nat,
) -> Seq<(Seq<char>, ExportKind, u64)>
    decreases n,
{
    if n == 0 {
        Seq::empty()
    } else {
        let prev = exports_added(clash, first, met, name, m, remaining, maps, (n - 1) as nat);
        let e = export_at(name, m, n - 1);
        let kind = export_kind(m, n - 1);
        if export_kept(name, m, n - 1, remaining) {
            prev.push(
                (
                    renamed(clash, first, exports_met(clash, met, name, m, remaining, (n - 1) as nat), e),
                    kind,
                    of_kind(kind, maps.0, maps.1, maps.2)[(name, e.index)],
                ),
            )
        } else {
            prev
        }
    }
}

/// The index, in its module, of the item an export names.
pub open spec fn exported_index(item: ExportedItem) -> u64 {
    match item {
        ExportedItem::Function(k) => k,
        ExportedItem::Table(k) => k,
        ExportedItem::Memory(k) => k,
        ExportedItem::Global(k) => k,
    }
}

/// Law: every export that including a module adds is of a table, memory or
/// global that one of the module's kept exports names, of that kind, and
/// points at the new index of that very item; and every kept export of the
/// module is added so.
pub proof fn lemma_included_exports_point_to_their_items(
    clash: Seq<Seq<char>>,
    first: bool,
    met: Seq<Seq<char>>,
    name: Seq<char>,
    m: ParsedModule,
    remaining: (Seq<ExportView>, Seq<ExportView>, Seq<ExportView>),
    maps: (Map<(Seq<char>, u64), u64>, Map<(Seq<char>, u64), u64>, Map<(Seq<char>, u64), u64>),
    n: nat,
)
    requires
        n <= m.exports@.len(),
    ensures
        forall|t: int|
            0 <= t < exports_added(clash, first, met, name, m, remaining, maps, n).len() ==> exists|j: int|
                0 <= j < n && export_kept(name, m, j, remaining) && (#[trigger] exports_added(
                    clash,
                    first,
                    met,
                    name,
                    m,
                    remaining,
                    maps,
                    n,
                )[t]).1 == export_kind(m, j) && exports_added(clash, first, met, name, m, remaining, maps, n)[t].2
                    == of_kind(export_kind(m, j), maps.0, maps.1, maps.2)[(name, exported_index(m.exports@[j].item))],
        forall|j: int|
            0 <= j < n && #[trigger] export_kept(name, m, j, remaining) ==> exists|t: int|
                0 <= t < exports_added(clash, first, met, name, m, remaining, maps, n).len() && exports_added(
                    clash,
                    first,
                    met,
                    name,
                    m,
                    remaining,
                    maps,
                    n,
                )[t].1 == export_kind(m, j) && exports_added(clash, first, met, name, m, remaining, maps, n)[t].2
                    == of_kind(export_kind(m, j), maps.0, maps.1, maps.2)[(name, exported_index(m.exports@[j].item))],
    decreases n,
{
    if n > 0 {
        lemma_included_exports_point_to_their_items(clash, first, met, name, m, remaining, maps, (n - 1) as nat);
        let prev = exports_added(clash, first, met, name, m, remaining, maps, (n - 1) as nat);
        let cur = exports_added(clash, first, met, name, m, remaining, maps, n);
        let last = n - 1;
        let kind = export_kind(m, last);
        let e = export_at(name, m, last);
        assert(export_kept(name, m, last, remaining) ==> e.index == exported_index(m.exports@[last].item));
        assert forall|t: int| 0 <= t < cur.len() implies exists|j: int|
            0 <= j < n && export_kept(name, m, j, remaining) && (#[trigger] cur[t]).1 == export_kind(m, j) && cur[t].2
                == of_kind(export_kind(m, j), maps.0, maps.1, maps.2)[(name, exported_index(m.exports@[j].item))] by {
            if t < prev.len() {
                assert(cur[t] == prev[t]);
                let j = choose|j: int|
                    0 <= j < n - 1 && export_kept(name, m, j, remaining) && (#[trigger] prev[t]).1 == export_kind(m, j)
                        && prev[t].2 == of_kind(export_kind(m, j), maps.0, maps.1, maps.2)[(
                        name,
                        exported_index(m.exports@[j].item),
                    )];
            } else {
                assert(export_kept(name, m, last, remaining));
            }
        }
        assert forall|j: int| 0 <= j < n && #[trigger] export_kept(name, m, j, remaining) implies exists|t: int|
            0 <= t < cur.len() && cur[t].1 == export_kind(m, j) && cur[t].2 == of_kind(
                export_kind(m, j),
                maps.0,
                maps.1,
                maps.2,
            )[(name, exported_index(m.exports@[j].item))] by {
            if j < n - 1 {
                let t = choose|t: int|
                    0 <= t < prev.len() && prev[t].1 == export_kind(m, j) && prev[t].2 == of_kind(
                        export_kind(m, j),
                        maps.0,
                        maps.1,
                        maps.2,
                    )[(name, exported_index(m.exports@[j].item))];
                assert(cur[t] == prev[t]);
            } else {
                assert(cur[prev.len() as int].2 == of_kind(kind, maps.0, maps.1, maps.2)[(name, e.index)]);
            }
        }
    }
}

/// The views of (name, kind, index) triples.
pub open spec fn added_views(s: Seq<(String, ExportKind, u64)>) -> Seq<(Seq<char>, ExportKind, u64)> {
    s.map_values(|t: (String, ExportKind, u64)| (t.0@, t.1, t.2))
}

/// The remaining exports of tables, memories and globals.
pub open spec fn remaining_views(all: AllReducedDependencies) -> (Seq<ExportView>, Seq<ExportView>, Seq<ExportView>) {
    (
        export_views(all.tables.remaining_exports@),
        export_views(all.memories.remaining_exports@),
        export_views(all.globals.remaining_exports@),
    )
}

/// The exports of tables, memories and globals that the merged module gets
/// from an included module, in the module's order: each one that is among
/// the remaining exports of its kind, under the name the renamer gives it
/// (the renamer meets its name), with the new index of its item. Exports of
/// functions were added when the functions were joined.
pub fn include_exports(
    renamer: &mut MergeRenamer,
    all: &AllReducedDependencies,
    module: &IdentifierModule,
    m: &ParsedModule,
    mapping: &Mapping,
) -> (r: Vec<(String, ExportKind, u64)>)
    requires
        m.wf(),
        forall|k: u64| k < m.tables@.len() ==> #[trigger] mapping.tables@.contains_key((module@, k)),
        forall|k: u64| k < m.memories@.len() ==> #[trigger] mapping.memories@.contains_key((module@, k)),
        forall|k: u64| k < m.globals@.len() ==> #[trigger] mapping.globals@.contains_key((module@, k)),
    ensures
        final(renamer).clashes_map == old(renamer).clashes_map,
        final(renamer).rename_strategy == old(renamer).rename_strategy,
        string_views(final(renamer).rename_encountered@) == exports_met(
            clash_names(old(renamer).clashes_map@),
            string_views(old(renamer).rename_encountered@),
            module@,
            *m,
            remaining_views(*all),
            m.exports@.len(),
        ),
        added_views(r@) == exports_added(
            clash_names(old(renamer).clashes_map@),
            old(renamer).rename_strategy.first_occurrence,
            string_views(old(renamer).rename_encountered@),
            module@,
            *m,
            remaining_views(*all),
            (mapping.tables@, mapping.memories@, mapping.globals@),
            m.exports@.len(),
        ),
{
    let ghost clash = clash_names(renamer.clashes_map@);
    let ghost first = renamer.rename_strategy.first_occurrence;
    let ghost met0 = string_views(renamer.rename_encountered@);
    let ghost rem = remaining_views(*all);
    let ghost maps = (mapping.tables@, mapping.memories@, mapping.globals@);
    let ghost start = *renamer;
    let mut added: Vec<(String, ExportKind, u64)> = Vec::new();
    let mut j: usize = 0;
    while j < m.exports.len()
        invariant
            m.wf(),
            j <= m.exports@.len(),
            forall|k: u64| k < m.tables@.len() ==> #[trigger] mapping.tables@.contains_key((module@, k)),
            forall|k: u64| k < m.memories@.len() ==> #[trigger] mapping.memories@.contains_key((module@, k)),
            forall|k: u64| k < m.globals@.len() ==> #[trigger] mapping.globals@.contains_key((module@, k)),
            clash == clash_names(start.clashes_map@),
            first == start.rename_strategy.first_occurrence,
            met0 == string_views(start.rename_encountered@),
            rem == remaining_views(*all),
            maps == (mapping.tables@, mapping.memories@, mapping.globals@),
            renamer.clashes_map == start.clashes_map,
            renamer.rename_strategy == start.rename_strategy,
            string_views(renamer.rename_encountered@) == exports_met(clash, met0, module@, *m, rem, j as nat),
            added_views(added@) == exports_added(clash, first, met0, module@, *m, rem, maps, j as nat),
        decreases m.exports@.len() - j,
    {
        let (kind, node) = Resolver::export_from(module, m, j);
        let ghost before = added@;
        proof {
            assert(export_kind(*m, j as int) == kind) by {
                if export_kind(*m, j as int) != kind {
                    assert(export_node(module@, *m, j as int, export_kind(*m, j as int)) is None);
                }
            }
        }
        match kind {
            ExportKind::Function => {},
            _ => {
                if let Node::Export(e) = node {
                    assert(export_at(module@, *m, j as int) == e@);
                    let remaining = match kind {
                        ExportKind::Table => &all.tables.remaining_exports,
                        ExportKind::Memory => &all.memories.remaining_exports,
                        _ => &all.globals.remaining_exports,
                    };
                    let map = match kind {
                        ExportKind::Table => &mapping.tables,
                        ExportKind::Memory => &mapping.memories,
                        _ => &mapping.globals,
                    };
                    assert(export_views(remaining@) == of_kind(kind, rem.0, rem.1, rem.2));
                    assert(map@ == of_kind(kind, maps.0, maps.1, maps.2));
                    if let Some(new_name) = include_export(renamer, remaining, &e, kind) {
                        match map.get(module, Identifier::new(e.index)) {
                            Some(new_index) => {
                                added.push((new_name, kind, new_index.id));
                                assert(added_views(added@) =~= added_views(before).push(
                                    (new_name@, kind, new_index.id),
                                ));
                            },
                            None => {
                                proof {
                                    assert(e.module@ == module@);
                                }
                            },
                        }
                    }
                }
            },
        }
        j = j + 1;
    }
    added
}

} // verus!
