use wasm_mergers::error::Error;
use wasm_mergers::kinds::{FuncType, IdentifierModule, ValType};
use wasm_mergers::merge_builder::{modules_fit, resolve_modules, AllResolved, Resolver};
use wasm_mergers::merge_options::{
    default_renamer, ClashingExports, KeepExports, LinkTypeMismatch, ResolvedExports,
};
use wasm_mergers::named_module::{
    ExportedItem, ImportedItem, NamedParsedModule, ParsedExport, ParsedFunction,
    ParsedFunctionKind, ParsedGlobal, ParsedImport, ParsedModule,
};
use wasm_mergers::resolver::Node;
use wasm_mergers::{MergeOptions, NamedModule};

fn ty(params: Vec<ValType>, results: Vec<ValType>) -> FuncType {
    FuncType { params, results }
}

fn empty_module() -> ParsedModule {
    ParsedModule {
        imports: vec![],
        functions: vec![],
        globals: vec![],
        memories: vec![],
        tables: vec![],
        exports: vec![],
    }
}

fn local_function(result: ValType) -> ParsedFunction {
    ParsedFunction {
        ty: ty(vec![], vec![result]),
        kind: ParsedFunctionKind::Local(vec![]),
    }
}

fn imported_function(result: ValType) -> ParsedFunction {
    ParsedFunction {
        ty: ty(vec![], vec![result]),
        kind: ParsedFunctionKind::Import,
    }
}

fn import_function(module: &str, name: &str, index: u64) -> ParsedImport {
    ParsedImport {
        module: module.to_string(),
        name: name.to_string(),
        item: ImportedItem::Function(index),
    }
}

fn export_function(name: &str, index: u64) -> ParsedExport {
    ParsedExport {
        name: name.to_string(),
        item: ExportedItem::Function(index),
    }
}

/// Module `name` defines function 0 (returning `result`) and exports it as `export`.
fn defining(export: &str, result: ValType) -> ParsedModule {
    let mut m = empty_module();
    m.functions.push(local_function(result));
    m.exports.push(export_function(export, 0));
    m
}

/// A module that imports `name` from `from` as function 0, defines function 1
/// and exports it as `export`.
fn importing(from: &str, name: &str, result: ValType, export: &str) -> ParsedModule {
    let mut m = empty_module();
    m.imports.push(import_function(from, name, 0));
    m.functions.push(imported_function(result));
    m.functions.push(local_function(ValType::I32));
    m.exports.push(export_function(export, 1));
    m
}

fn options(clashing: ClashingExports, mismatch: LinkTypeMismatch) -> MergeOptions {
    MergeOptions {
        clashing_exports: clashing,
        link_type_mismatch: mismatch,
        resolved_exports: ResolvedExports::Remove,
        keep_exports: None,
    }
}

fn resolve(modules: &[&NamedParsedModule<'_>], options: &MergeOptions) -> Result<AllResolved, Error> {
    for m in modules {
        assert!(m.module.is_well_formed());
    }
    assert!(modules_fit(modules));
    resolve_modules(modules, options)
}

#[test]
fn test_import_resolved_by_export() {
    let a = NamedModule::new("A", defining("f", ValType::I32));
    let b = NamedModule::new("B", importing("A", "f", ValType::I32, "g"));
    let resolved = resolve(&[&a, &b], &MergeOptions::default()).unwrap();
    let functions = &resolved.all_reduced.functions;
    // The import of B is satisfied by A's export: it does not remain.
    assert!(functions.remaining_imports.is_empty());
    // A's "f" is used by B and removed; B's "g" remains.
    assert_eq!(functions.remaining_exports.len(), 1);
    assert_eq!(functions.remaining_exports[0].identifier, "g");
    assert_eq!(functions.remaining_exports[0].module.identifier(), "B");
    assert!(functions.clashing_exports.is_empty());
    // B's import reduces to A's local.
    let import = functions
        .reduction_map
        .iter()
        .find(|(node, _)| matches!(node, Node::Import(_)))
        .unwrap();
    match &import.1 {
        Node::Local(local) => {
            assert_eq!(local.module.identifier(), "A");
            assert_eq!(local.index, 0);
        }
        other => panic!("expected a local, got {other:?}"),
    }
    assert!(resolved.rename_map.clashes_map.is_empty());
}

#[test]
fn test_unresolved_import_remains() {
    let b = NamedModule::new("B", importing("env", "print", ValType::I32, "g"));
    let resolved = resolve(&[&b], &MergeOptions::default()).unwrap();
    let functions = &resolved.all_reduced.functions;
    assert_eq!(functions.remaining_imports.len(), 1);
    assert_eq!(functions.remaining_imports[0].exporting_module.identifier(), "env");
    assert_eq!(functions.remaining_imports[0].exporting_identifier, "print");
}

#[test]
fn test_import_cycle() {
    // A re-exports what it imports from B, B re-exports what it imports from A.
    let mut a = empty_module();
    a.imports.push(import_function("B", "b", 0));
    a.functions.push(imported_function(ValType::I32));
    a.exports.push(export_function("a", 0));
    let mut b = empty_module();
    b.imports.push(import_function("A", "a", 0));
    b.functions.push(imported_function(ValType::I32));
    b.exports.push(export_function("b", 0));
    let a = NamedModule::new("A", a);
    let b = NamedModule::new("B", b);
    let r = resolve(&[&a, &b], &MergeOptions::default());
    assert!(matches!(r, Err(Error::ImportCycle)));
}

#[test]
fn test_type_mismatch_signalled() {
    let a = NamedModule::new("A", defining("f", ValType::I32));
    let b = NamedModule::new("B", importing("A", "f", ValType::I64, "g"));
    let r = resolve(
        &[&a, &b],
        &options(ClashingExports::Signal, LinkTypeMismatch::Signal),
    );
    match r {
        Err(Error::TypeMismatch(pairs)) => {
            assert_eq!(pairs.len(), 1);
            assert!(matches!(pairs[0].0, Node::Import(_)));
            assert!(matches!(pairs[0].1, Node::Export(_)));
        }
        other => panic!("expected a type mismatch, got {other:?}"),
    }
}

#[test]
fn test_type_mismatch_ignored_leaves_import() {
    let a = NamedModule::new("A", defining("f", ValType::I32));
    let b = NamedModule::new("B", importing("A", "f", ValType::I64, "g"));
    let resolved = resolve(
        &[&a, &b],
        &options(ClashingExports::Signal, LinkTypeMismatch::Ignore),
    )
    .unwrap();
    let functions = &resolved.all_reduced.functions;
    // The mismatching link is broken: the import stays, and so does A's export.
    assert_eq!(functions.remaining_imports.len(), 1);
    assert_eq!(functions.remaining_exports.len(), 2);
}

#[test]
fn test_export_name_clash_signalled() {
    let a = NamedModule::new("A", defining("f", ValType::I32));
    let b = NamedModule::new("B", defining("f", ValType::I32));
    let r = resolve(&[&a, &b], &MergeOptions::default());
    match r {
        Err(Error::ExportNameClash(clashes)) => {
            assert_eq!(clashes.len(), 1);
            assert_eq!(clashes[0].0, "f");
            let modules: Vec<&str> = clashes[0]
                .1
                .iter()
                .map(|c| c.exporting_module.as_str())
                .collect();
            assert_eq!(modules, vec!["A", "B"]);
        }
        other => panic!("expected a clash, got {other:?}"),
    }
}

#[test]
fn test_export_name_clash_renamed() {
    let a = NamedModule::new("A", defining("f", ValType::I32));
    let b = NamedModule::new("B", defining("f", ValType::I32));
    let r = resolve(
        &[&a, &b],
        &options(
            ClashingExports::Rename(default_renamer()),
            LinkTypeMismatch::Signal,
        ),
    )
    .unwrap();
    assert_eq!(r.rename_map.clashes_map.len(), 1);
    assert_eq!(r.rename_map.clashes_map[0].0, "f");
    assert!(r.rename_map.rename_strategy.first_occurrence);
    assert_eq!(r.all_reduced.functions.clashing_exports.len(), 2);
}

#[test]
fn test_uninitialized_function_is_a_parse_error() {
    let mut m = empty_module();
    m.functions.push(ParsedFunction {
        ty: ty(vec![], vec![]),
        kind: ParsedFunctionKind::Uninitialized,
    });
    let m = NamedModule::new("U", m);
    let r = resolve(&[&m], &MergeOptions::default());
    assert!(matches!(r, Err(Error::Parse(_))));
}

#[test]
fn test_kept_export_remains() {
    let a = NamedModule::new("A", defining("f", ValType::I32));
    let b = NamedModule::new("B", importing("A", "f", ValType::I32, "g"));
    let mut keep = KeepExports::new();
    keep.keep_function(IdentifierModule::new("A".to_string()), "f".to_string());
    let opts = MergeOptions {
        clashing_exports: ClashingExports::Signal,
        link_type_mismatch: LinkTypeMismatch::Signal,
        resolved_exports: ResolvedExports::Keep,
        keep_exports: Some(keep),
    };
    let resolved = resolve(&[&a, &b], &opts).unwrap();
    let names: Vec<&str> = resolved
        .all_reduced
        .functions
        .remaining_exports
        .iter()
        .map(|e| e.identifier.as_str())
        .collect();
    assert_eq!(names, vec!["f", "g"]);
}

#[test]
fn test_globals_resolved_separately() {
    let mut a = empty_module();
    a.globals.push(ParsedGlobal {
        ty: ValType::I32,
        mutable: false,
        shared: false,
        imported: false,
    });
    a.exports.push(ParsedExport {
        name: "counter".to_string(),
        item: ExportedItem::Global(0),
    });
    let mut b = empty_module();
    b.imports.push(ParsedImport {
        module: "A".to_string(),
        name: "counter".to_string(),
        item: ImportedItem::Global(0),
    });
    b.globals.push(ParsedGlobal {
        ty: ValType::I32,
        mutable: false,
        shared: false,
        imported: true,
    });
    let a = NamedModule::new("A", a);
    let b = NamedModule::new("B", b);
    let resolved = resolve(&[&a, &b], &MergeOptions::default()).unwrap();
    assert!(resolved.all_reduced.globals.remaining_imports.is_empty());
    assert!(resolved.all_reduced.globals.remaining_exports.is_empty());
    assert!(resolved.all_reduced.functions.reduction_map.is_empty());
}

#[test]
fn test_well_formedness_check() {
    assert!(empty_module().is_well_formed());
    assert!(importing("A", "f", ValType::I32, "g").is_well_formed());
    // An export of a function that does not exist.
    let mut m = empty_module();
    m.exports.push(export_function("f", 0));
    assert!(!m.is_well_formed());
    // An imported function that no import brings in.
    let mut m = empty_module();
    m.functions.push(imported_function(ValType::I32));
    assert!(!m.is_well_formed());
    // An import of a function index out of range.
    let mut m = empty_module();
    m.imports.push(import_function("A", "f", 3));
    assert!(!m.is_well_formed());
}

#[test]
fn test_no_modules_resolve_to_nothing() {
    let resolved = resolve(&[], &MergeOptions::default()).unwrap();
    assert!(resolved.all_reduced.functions.reduction_map.is_empty());
    assert!(resolved.all_reduced.tables.remaining_exports.is_empty());
}

#[test]
fn test_type_mismatch_lists_every_pair() {
    let a = NamedModule::new("A", defining("f", ValType::I32));
    let b = NamedModule::new("B", importing("A", "f", ValType::I64, "g"));
    let c = NamedModule::new("C", importing("A", "f", ValType::F64, "h"));
    let r = resolve(
        &[&a, &b, &c],
        &options(ClashingExports::Signal, LinkTypeMismatch::Signal),
    );
    match r {
        Err(Error::TypeMismatch(pairs)) => {
            assert_eq!(pairs.len(), 2);
            let importers: Vec<&str> = pairs
                .iter()
                .map(|(import, _)| match import {
                    Node::Import(i) => i.importing_module.identifier(),
                    other => panic!("expected an import, got {other:?}"),
                })
                .collect();
            assert_eq!(importers, vec!["B", "C"]);
            for (_, export) in &pairs {
                match export {
                    Node::Export(e) => {
                        assert_eq!(e.module.identifier(), "A");
                        assert_eq!(e.identifier, "f");
                    }
                    other => panic!("expected an export, got {other:?}"),
                }
            }
        }
        other => panic!("expected a type mismatch, got {other:?}"),
    }
    // With mismatches ignored, both imports stay unresolved.
    let resolved = resolve(
        &[&a, &b, &c],
        &options(ClashingExports::Rename(default_renamer()), LinkTypeMismatch::Ignore),
    )
    .unwrap();
    assert_eq!(resolved.all_reduced.functions.remaining_imports.len(), 2);
}

#[test]
fn test_uninitialized_function_message_names_module() {
    let mut m = empty_module();
    m.functions.push(ParsedFunction {
        ty: ty(vec![], vec![]),
        kind: ParsedFunctionKind::Uninitialized,
    });
    let m = NamedModule::new("U", m);
    match resolve(&[&m], &MergeOptions::default()) {
        Err(Error::Parse(message)) => assert_eq!(
            message,
            "walrus::FunctionKind::Uninitialized during parsing of U"
        ),
        other => panic!("expected a parse error, got {other:?}"),
    }
}

#[test]
fn test_failed_consider_keeps_imports() {
    let mut m = empty_module();
    m.imports.push(import_function("env", "print", 0));
    m.functions.push(imported_function(ValType::I32));
    m.functions.push(ParsedFunction {
        ty: ty(vec![], vec![]),
        kind: ParsedFunctionKind::Uninitialized,
    });
    let m = NamedModule::new("U", m);
    assert!(m.module.is_well_formed());
    let mut resolver = Resolver::new();
    assert!(matches!(resolver.consider(&m), Err(Error::Parse(_))));
    // The import was added before the uninitialized function was met.
    let resolved = resolver.resolve(&MergeOptions::default()).unwrap();
    assert_eq!(resolved.all_reduced.functions.remaining_imports.len(), 1);
    assert_eq!(resolved.all_reduced.functions.remaining_exports.len(), 0);
}
