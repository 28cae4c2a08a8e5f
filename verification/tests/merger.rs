use wasm_mergers::error::ConcreteExport;
use wasm_mergers::kinds::{ExportKind, FuncType, IdentifierModule, ValType};
use wasm_mergers::merge_builder::{resolve_modules, AllResolved, MergeRenamer};
use wasm_mergers::merge_options::{default_renamer, ClashingExports, LinkTypeMismatch, ResolvedExports};
use wasm_mergers::merger::inclusion::{
    include_exports, plan_inclusion, record_include_items, remap_const, remap_ids, InclusionInput,
    ItemCounts, PlainConstExpr, PlainConstOp, PlainData, PlainElement, PlainElementItems,
    PlainGlobal,
};
use wasm_mergers::merger::old_to_new_mapping::{IdMap, Mapping};
use wasm_mergers::merger::provenance_identifier::{Identifier, New, Old};
use wasm_mergers::merger::walrus_copy::SequenceStack;
use wasm_mergers::merger::{
    include_export, merged_module_name, plan_function_join, record_function_join,
    record_global_join,
};
use wasm_mergers::named_module::{
    ExportedItem, ImportedItem, ParsedExport, ParsedFunction, ParsedFunctionKind, ParsedGlobal,
    ParsedImport, ParsedModule,
};
use wasm_mergers::resolver::{Export, ItemType, Node};
use wasm_mergers::{MergeOptions, NamedModule};

fn module(name: &str) -> IdentifierModule {
    IdentifierModule::new(name.to_string())
}

fn old_id(id: u64) -> Identifier<Old> {
    Identifier::new(id)
}

fn new_id(id: u64) -> Identifier<New> {
    Identifier::new(id)
}

fn empty_module() -> ParsedModule {
    ParsedModule {
        imports: vec![],
        functions: vec![],
        globals: vec![],
        memories: vec![],
        tables: vec![],
        exports: vec![],
    }
}

fn function(kind: ParsedFunctionKind) -> ParsedFunction {
    ParsedFunction {
        ty: FuncType {
            params: vec![],
            results: vec![ValType::I32],
        },
        kind,
    }
}

fn export_function(name: &str, index: u64) -> ParsedExport {
    ParsedExport {
        name: name.to_string(),
        item: ExportedItem::Function(index),
    }
}

fn import_function(from: &str, name: &str, index: u64) -> ParsedImport {
    ParsedImport {
        module: from.to_string(),
        name: name.to_string(),
        item: ImportedItem::Function(index),
    }
}

/// Defines function 0 and exports it as `export`.
fn defining(export: &str) -> ParsedModule {
    let mut m = empty_module();
    m.functions.push(function(ParsedFunctionKind::Local(vec![(0, ValType::I64)])));
    m.exports.push(export_function(export, 0));
    m
}

fn resolve(modules: Vec<(&'static str, ParsedModule)>, clashing: ClashingExports) -> AllResolved {
    let named: Vec<NamedModule<'static, ParsedModule>> = modules
        .into_iter()
        .map(|(name, m)| NamedModule::new(name, m))
        .collect();
    let refs: Vec<&NamedModule<'static, ParsedModule>> = named.iter().collect();
    let options = MergeOptions {
        clashing_exports: clashing,
        link_type_mismatch: LinkTypeMismatch::Signal,
        resolved_exports: ResolvedExports::Remove,
        keep_exports: None,
    };
    resolve_modules(&refs, &options).unwrap()
}

/// A defines and exports "f"; B imports it as function 0, defines function 1
/// and exports it as "g"; C imports env.print as function 0 and re-exports it as "p".
fn three_modules() -> AllResolved {
    let a = defining("f");
    let mut b = empty_module();
    b.imports.push(import_function("A", "f", 0));
    b.functions.push(function(ParsedFunctionKind::Import));
    b.functions.push(function(ParsedFunctionKind::Local(vec![])));
    b.exports.push(export_function("g", 1));
    let mut c = empty_module();
    c.imports.push(import_function("env", "print", 0));
    c.functions.push(function(ParsedFunctionKind::Import));
    c.exports.push(export_function("p", 0));
    resolve(vec![("A", a), ("B", b), ("C", c)], ClashingExports::Signal)
}

#[test]
fn test_id_map_insert_get() {
    let mut map = IdMap::new();
    assert!(map.get(&module("A"), old_id(0)).is_none());
    map.insert(module("A"), old_id(0), new_id(7));
    map.insert(module("B"), old_id(0), new_id(8));
    assert_eq!(map.get(&module("A"), old_id(0)).unwrap().id(), 7);
    assert_eq!(map.get(&module("B"), old_id(0)).unwrap().id(), 8);
    assert!(map.get(&module("A"), old_id(1)).is_none());
    // A second insertion replaces the first.
    map.insert(module("A"), old_id(0), new_id(9));
    assert_eq!(map.get(&module("A"), old_id(0)).unwrap().id, 9);
    assert!(map.contains_key(&module("B"), old_id(0)));
    assert!(!map.contains_key(&module("C"), old_id(0)));
}

#[test]
fn test_mapping_starts_empty() {
    let mapping = Mapping::new();
    assert!(!mapping.funcs.contains_key(&module("A"), old_id(0)));
    assert!(!mapping.globals.contains_key(&module("A"), old_id(0)));
    assert!(!mapping.locals.contains_key(&module("A"), old_id(0)));
}

#[test]
fn test_sequence_stack() {
    let mut stack = SequenceStack::new(1, 100);
    assert_eq!(stack.last_new(), 100);
    assert_eq!(stack.resolve(&1), 100);
    stack.bind(&2, &200);
    assert_eq!(stack.resolve(&2), 200);
    // Binding does not open the sequence.
    assert_eq!(stack.last_new(), 100);
    stack.push(&2, &200);
    assert_eq!(stack.last_new(), 200);
    assert_eq!(stack.pop(), (2, 200));
    assert_eq!(stack.last_new(), 100);
    assert_eq!(stack.pop(), (1, 100));
}

#[test]
fn test_plan_function_join() {
    let resolved = three_modules();
    let join = plan_function_join(&resolved.all_reduced.functions);
    // Only C's import of env.print remains.
    assert_eq!(join.imports.len(), 1);
    assert_eq!(join.imports[0].importing_module.identifier(), "C");
    assert_eq!(join.imports[0].exporting_identifier, "print");
    // The locals: A's function 0 and B's function 1, in order.
    assert_eq!(join.locals.len(), 2);
    assert_eq!(join.locals[0].module.identifier(), "A");
    assert_eq!(join.locals[0].index, 0);
    assert_eq!(join.locals[0].data, vec![(0, ValType::I64)]);
    assert_eq!(join.locals[1].module.identifier(), "B");
    assert_eq!(join.locals[1].index, 1);
}

#[test]
fn test_record_function_join() {
    let mut resolved = three_modules();
    let functions = &resolved.all_reduced.functions;
    let join = plan_function_join(functions);
    let new_ids = vec![100, 200, 201];
    let mut mapping = Mapping::new();
    let exports = record_function_join(
        functions,
        &join,
        &new_ids,
        &mut mapping.funcs,
        &mut resolved.rename_map,
    );
    let at = |m: &str, i: u64| mapping.funcs.get(&module(m), old_id(i)).map(|n| n.id);
    assert_eq!(at("C", 0), Some(100));
    assert_eq!(at("A", 0), Some(200));
    assert_eq!(at("B", 1), Some(201));
    // B's import of A's "f" goes to A's function.
    assert_eq!(at("B", 0), Some(200));
    assert_eq!(at("B", 2), None);
    // A's "f" is used by B and no longer exported.
    assert_eq!(
        exports,
        vec![("g".to_string(), 201), ("p".to_string(), 100)]
    );
}

#[test]
fn test_record_function_join_renames_clashes() {
    let mut resolved = resolve(
        vec![("A", defining("f")), ("B", defining("f"))],
        ClashingExports::Rename(default_renamer()),
    );
    let functions = &resolved.all_reduced.functions;
    let join = plan_function_join(functions);
    assert!(join.imports.is_empty());
    let mut mapping = Mapping::new();
    let exports = record_function_join(
        functions,
        &join,
        &vec![0, 1],
        &mut mapping.funcs,
        &mut resolved.rename_map,
    );
    assert_eq!(exports, vec![("A:f".to_string(), 0), ("B:f".to_string(), 1)]);
}

#[test]
fn test_record_function_join_keeps_first_name() {
    let mut strategy = default_renamer();
    strategy.first_occurrence = false;
    let mut resolved = resolve(
        vec![("A", defining("f")), ("B", defining("f"))],
        ClashingExports::Rename(strategy),
    );
    let functions = &resolved.all_reduced.functions;
    let join = plan_function_join(functions);
    let mut mapping = Mapping::new();
    let exports = record_function_join(
        functions,
        &join,
        &vec![0, 1],
        &mut mapping.funcs,
        &mut resolved.rename_map,
    );
    assert_eq!(exports, vec![("f".to_string(), 0), ("B:f".to_string(), 1)]);
}

#[test]
fn test_record_global_join() {
    let mut b = empty_module();
    b.imports.push(ParsedImport {
        module: "env".to_string(),
        name: "counter".to_string(),
        item: ImportedItem::Global(0),
    });
    b.globals.push(ParsedGlobal {
        ty: ValType::I32,
        mutable: true,
        shared: false,
        imported: true,
    });
    let resolved = resolve(vec![("B", b)], ClashingExports::Signal);
    let globals = &resolved.all_reduced.globals;
    assert_eq!(globals.remaining_imports.len(), 1);
    let mut mapping = Mapping::new();
    record_global_join(globals, &vec![5], &mut mapping.globals);
    assert_eq!(mapping.globals.get(&module("B"), old_id(0)).unwrap().id, 5);
}

fn memory_export(m: &str, name: &str) -> Export {
    Export {
        module: module(m),
        identifier: name.to_string(),
        index: 0,
        ty: ItemType::Memory,
    }
}

#[test]
fn test_include_export() {
    let clashes = vec![(
        "mem".to_string(),
        vec![
            ConcreteExport {
                kind: ExportKind::Memory,
                exporting_module: "A".to_string(),
            },
            ConcreteExport {
                kind: ExportKind::Memory,
                exporting_module: "B".to_string(),
            },
        ],
    )];
    let mut renamer = MergeRenamer::new(clashes, default_renamer());
    let remaining = vec![memory_export("A", "mem"), memory_export("C", "other")];
    let renamed = include_export(
        &mut renamer,
        &remaining,
        &memory_export("A", "mem"),
        ExportKind::Memory,
    );
    assert_eq!(renamed, Some("A:mem".to_string()));
    let kept = include_export(
        &mut renamer,
        &remaining,
        &memory_export("C", "other"),
        ExportKind::Memory,
    );
    assert_eq!(kept, Some("other".to_string()));
    // Not among the remaining exports: not exported.
    let dropped = include_export(
        &mut renamer,
        &remaining,
        &memory_export("B", "mem"),
        ExportKind::Memory,
    );
    assert_eq!(dropped, None);
    assert_eq!(renamer.rename_encountered, vec!["mem".to_string()]);
}

#[test]
fn test_merged_module_name() {
    assert_eq!(merged_module_name(&vec![]), "");
    assert_eq!(
        merged_module_name(&vec![("a".to_string(), "x".to_string())]),
        "a::x"
    );
    assert_eq!(
        merged_module_name(&vec![
            ("a".to_string(), "x".to_string()),
            ("b".to_string(), "y".to_string())
        ]),
        "a::x-b::y"
    );
}

#[test]
fn test_node_mapping_ref() {
    let export = Node::Export(memory_export("A", "mem"));
    let (m, i) = export.to_mapping_ref();
    assert_eq!(m.identifier(), "A");
    assert_eq!(i.id, 0);
}

#[test]
fn test_record_include_items() {
    let mut map = IdMap::new();
    record_include_items(&module("A"), &vec![0, 1, 2], &vec![5, 6, 7], &mut map);
    assert_eq!(map.get(&module("A"), old_id(0)).unwrap().id, 5);
    assert_eq!(map.get(&module("A"), old_id(2)).unwrap().id, 7);
    assert!(map.get(&module("B"), old_id(0)).is_none());
    // A later record of the same item replaces the earlier one.
    record_include_items(&module("A"), &vec![1, 1], &vec![8, 9], &mut map);
    assert_eq!(map.get(&module("A"), old_id(1)).unwrap().id, 9);
}

#[test]
fn test_remap_ids() {
    let mut map = IdMap::new();
    record_include_items(&module("A"), &vec![0, 1], &vec![10, 11], &mut map);
    assert_eq!(remap_ids(&map, &module("A"), &vec![1, 0, 1]), Some(vec![11, 10, 11]));
    assert_eq!(remap_ids(&map, &module("A"), &vec![]), Some(vec![]));
    assert_eq!(remap_ids(&map, &module("A"), &vec![0, 2]), None);
    assert_eq!(remap_ids(&map, &module("B"), &vec![0]), None);
}

#[test]
fn test_remap_const() {
    let mut mapping = Mapping::new();
    record_include_items(&module("A"), &vec![0], &vec![3], &mut mapping.globals);
    record_include_items(&module("A"), &vec![0, 1], &vec![20, 21], &mut mapping.funcs);
    let a = module("A");
    assert!(matches!(remap_const(&PlainConstExpr::Other, &a, &mapping), Some(PlainConstExpr::Other)));
    assert!(matches!(remap_const(&PlainConstExpr::Global(0), &a, &mapping), Some(PlainConstExpr::Global(3))));
    assert!(matches!(remap_const(&PlainConstExpr::RefFunc(1), &a, &mapping), Some(PlainConstExpr::RefFunc(21))));
    assert!(remap_const(&PlainConstExpr::Global(1), &a, &mapping).is_none());
    assert!(remap_const(&PlainConstExpr::Global(0), &module("B"), &mapping).is_none());
    let extended = PlainConstExpr::Extended(vec![
        PlainConstOp::GlobalGet(0),
        PlainConstOp::Other,
        PlainConstOp::RefFunc(0),
    ]);
    match remap_const(&extended, &a, &mapping) {
        Some(PlainConstExpr::Extended(ops)) => assert_eq!(
            ops,
            vec![PlainConstOp::GlobalGet(3), PlainConstOp::Other, PlainConstOp::RefFunc(20)]
        ),
        other => panic!("expected an extended expression, got {other:?}"),
    }
    let unmapped = PlainConstExpr::Extended(vec![PlainConstOp::Other, PlainConstOp::RefFunc(5)]);
    assert!(remap_const(&unmapped, &a, &mapping).is_none());
}

fn counts() -> ItemCounts {
    ItemCounts {
        globals: 10,
        memories: 2,
        datas: 3,
        tables: 4,
        elements: 5,
    }
}

#[test]
fn test_plan_inclusion_maps_fresh_ids_and_references() {
    let mut mapping = Mapping::new();
    record_include_items(&module("A"), &vec![0], &vec![20], &mut mapping.funcs);
    let input = InclusionInput {
        globals: vec![
            PlainGlobal { init: None },
            PlainGlobal { init: Some(PlainConstExpr::Global(0)) },
            PlainGlobal { init: Some(PlainConstExpr::RefFunc(0)) },
        ],
        memories: 1,
        datas: vec![
            PlainData { active: Some((0, PlainConstExpr::Global(1))) },
            PlainData { active: None },
        ],
        tables: vec![vec![0]],
        elements: vec![PlainElement {
            items: PlainElementItems::Functions(vec![0, 0]),
            active: Some((0, PlainConstExpr::Other)),
        }],
        start: Some(0),
    };
    let (plan, new) = plan_inclusion(&module("A"), &input, counts(), &mapping).unwrap();
    // Every item gets the next fresh index of its kind.
    assert_eq!(new.globals.get(&module("A"), old_id(0)).unwrap().id, 10);
    assert_eq!(new.globals.get(&module("A"), old_id(2)).unwrap().id, 12);
    assert_eq!(new.memories.get(&module("A"), old_id(0)).unwrap().id, 2);
    assert_eq!(new.datas.get(&module("A"), old_id(1)).unwrap().id, 4);
    assert_eq!(new.tables.get(&module("A"), old_id(0)).unwrap().id, 4);
    assert_eq!(new.elements.get(&module("A"), old_id(0)).unwrap().id, 5);
    assert_eq!(new.funcs.get(&module("A"), old_id(0)).unwrap().id, 20);
    // References are carried over.
    assert!(plan.globals[0].is_none());
    assert!(matches!(plan.globals[1], Some(PlainConstExpr::Global(10))));
    assert!(matches!(plan.globals[2], Some(PlainConstExpr::RefFunc(20))));
    assert!(matches!(plan.datas[0], Some((2, PlainConstExpr::Global(11)))));
    assert!(plan.datas[1].is_none());
    match &plan.elements[0].items {
        PlainElementItems::Functions(fs) => assert_eq!(fs, &vec![20, 20]),
        other => panic!("expected functions, got {other:?}"),
    }
    assert!(matches!(plan.elements[0].active, Some((4, PlainConstExpr::Other))));
    assert_eq!(plan.tables, vec![vec![5]]);
    assert_eq!(plan.start, Some(20));
}

#[test]
fn test_plan_inclusion_fails_on_missing_counterpart() {
    let mapping = Mapping::new();
    // A global may only refer to the globals before it.
    let forward = InclusionInput {
        globals: vec![
            PlainGlobal { init: Some(PlainConstExpr::Global(1)) },
            PlainGlobal { init: None },
        ],
        memories: 0,
        datas: vec![],
        tables: vec![],
        elements: vec![],
        start: None,
    };
    assert!(plan_inclusion(&module("A"), &forward, counts(), &mapping).is_none());
    // A start function that was never mapped.
    let start = InclusionInput {
        globals: vec![],
        memories: 0,
        datas: vec![],
        tables: vec![],
        elements: vec![],
        start: Some(0),
    };
    assert!(plan_inclusion(&module("A"), &start, counts(), &mapping).is_none());
    // A data segment of a memory the module does not have.
    let data = InclusionInput {
        globals: vec![],
        memories: 1,
        datas: vec![PlainData { active: Some((1, PlainConstExpr::Other)) }],
        tables: vec![],
        elements: vec![],
        start: None,
    };
    assert!(plan_inclusion(&module("A"), &data, counts(), &mapping).is_none());
}

fn exporting_global(export: &str) -> ParsedModule {
    let mut m = empty_module();
    m.globals.push(ParsedGlobal {
        ty: ValType::I32,
        mutable: false,
        shared: false,
        imported: false,
    });
    m.exports.push(ParsedExport {
        name: export.to_string(),
        item: ExportedItem::Global(0),
    });
    m
}

#[test]
fn test_include_exports_renames_clashing_globals() {
    let a = exporting_global("g");
    let b = exporting_global("g");
    let mut resolved = resolve(
        vec![("A", exporting_global("g")), ("B", exporting_global("g"))],
        ClashingExports::Rename(default_renamer()),
    );
    let mut mapping = Mapping::new();
    record_include_items(&module("A"), &vec![0], &vec![7], &mut mapping.globals);
    record_include_items(&module("B"), &vec![0], &vec![8], &mut mapping.globals);
    let from_a = include_exports(&mut resolved.rename_map, &resolved.all_reduced, &module("A"), &a, &mapping);
    let from_b = include_exports(&mut resolved.rename_map, &resolved.all_reduced, &module("B"), &b, &mapping);
    assert_eq!(from_a, vec![("A:g".to_string(), ExportKind::Global, 7)]);
    assert_eq!(from_b, vec![("B:g".to_string(), ExportKind::Global, 8)]);
}

#[test]
fn test_include_exports_skips_functions_and_resolved() {
    let mut resolved = resolve(vec![("A", defining("f"))], ClashingExports::Signal);
    let mapping = Mapping::new();
    let exports = include_exports(&mut resolved.rename_map, &resolved.all_reduced, &module("A"), &defining("f"), &mapping);
    assert!(exports.is_empty());
}

#[test]
fn test_inclusion_keeps_memories_in_module_order() {
    let two_memories = InclusionInput {
        globals: vec![],
        memories: 2,
        datas: vec![],
        tables: vec![],
        elements: vec![],
        start: None,
    };
    let one_memory = InclusionInput {
        globals: vec![],
        memories: 1,
        datas: vec![],
        tables: vec![],
        elements: vec![],
        start: None,
    };
    let start = ItemCounts { globals: 0, memories: 0, datas: 0, tables: 0, elements: 0 };
    let (_, after_a) = plan_inclusion(&module("A"), &two_memories, start, &Mapping::new()).unwrap();
    let next = ItemCounts { memories: 2, ..start };
    let (_, after_b) = plan_inclusion(&module("B"), &one_memory, next, &after_a).unwrap();
    let a0 = after_b.memories.get(&module("A"), old_id(0)).unwrap().id;
    let a1 = after_b.memories.get(&module("A"), old_id(1)).unwrap().id;
    let b0 = after_b.memories.get(&module("B"), old_id(0)).unwrap().id;
    assert_eq!((a0, a1, b0), (0, 1, 2));
}
