use wasm_mergers::error::Error;
use wasm_mergers::kinds::{FuncType, IdentifierModule, ValType};
use wasm_mergers::merge_builder::{resolve_modules, AllResolved};
use wasm_mergers::merge_options::{KeepExports, ResolvedExports};
use wasm_mergers::merger::old_to_new_mapping::Mapping;
use wasm_mergers::merger::provenance_identifier::Identifier;
use wasm_mergers::merger::{plan_function_join, record_function_join};
use wasm_mergers::named_module::{
    ExportedItem, ImportedItem, NamedParsedModule, ParsedExport, ParsedFunction,
    ParsedFunctionKind, ParsedGlobal, ParsedImport, ParsedModule,
};
use wasm_mergers::{MergeOptions, NamedModule};

fn empty_module() -> ParsedModule {
    ParsedModule {
        imports: vec![],
        functions: vec![],
        globals: vec![],
        memories: vec![],
        tables: vec![],
        exports: vec![],
    }
}

fn i32_to_i32() -> FuncType {
    FuncType {
        params: vec![ValType::I32],
        results: vec![ValType::I32],
    }
}

fn imported() -> ParsedFunction {
    ParsedFunction {
        ty: i32_to_i32(),
        kind: ParsedFunctionKind::Import,
    }
}

fn local() -> ParsedFunction {
    ParsedFunction {
        ty: i32_to_i32(),
        kind: ParsedFunctionKind::Local(vec![(0, ValType::I32)]),
    }
}

fn import(from: &str, name: &str, index: u64) -> ParsedImport {
    ParsedImport {
        module: from.to_string(),
        name: name.to_string(),
        item: ImportedItem::Function(index),
    }
}

fn export(name: &str, index: u64) -> ParsedExport {
    ParsedExport {
        name: name.to_string(),
        item: ExportedItem::Function(index),
    }
}

fn resolve(modules: &[&NamedParsedModule<'_>], options: &MergeOptions) -> Result<AllResolved, Error> {
    resolve_modules(modules, options)
}

/// Joins the functions, numbering the added functions 0, 1, ..., and returns
/// where `(module, index)` went.
fn joined(mut resolved: AllResolved) -> (Mapping, Vec<(String, u64)>, Vec<(String, u64)>) {
    let functions = &resolved.all_reduced.functions;
    let join = plan_function_join(functions);
    let added: Vec<(String, u64)> = join
        .imports
        .iter()
        .map(|i| (i.importing_module.identifier().to_string(), i.imported_index))
        .chain(
            join.locals
                .iter()
                .map(|l| (l.module.identifier().to_string(), l.index)),
        )
        .collect();
    let new_ids: Vec<u64> = (0..added.len() as u64).collect();
    let mut mapping = Mapping::new();
    let exports = record_function_join(
        functions,
        &join,
        &new_ids,
        &mut mapping.funcs,
        &mut resolved.rename_map,
    );
    (mapping, added, exports)
}

fn new_index(mapping: &Mapping, module: &str, index: u64) -> Option<u64> {
    mapping
        .funcs
        .get(&IdentifierModule::new(module.to_string()), Identifier::new(index))
        .map(|n| n.id)
}

/// a defines `a`; b re-exports what it imports from a; c calls what it
/// imports from b in its own `run`. In every order of the modules, c's
/// import lands on a's function.
#[test]
fn test_pass_through_chain_resolves_to_definition() {
    let orders = [
        ["a", "b", "c"],
        ["a", "c", "b"],
        ["b", "a", "c"],
        ["b", "c", "a"],
        ["c", "a", "b"],
        ["c", "b", "a"],
    ];
    for order in orders {
        let build = |name: &str| -> ParsedModule {
            let mut m = empty_module();
            match name {
                "a" => {
                    m.functions.push(local());
                    m.exports.push(export("a", 0));
                }
                "b" => {
                    m.imports.push(import("a", "a", 0));
                    m.functions.push(imported());
                    m.exports.push(export("b", 0));
                }
                _ => {
                    m.imports.push(import("b", "b", 0));
                    m.functions.push(imported());
                    m.functions.push(local());
                    m.exports.push(export("run", 1));
                }
            }
            m
        };
        let named: Vec<NamedParsedModule<'static>> = order
            .iter()
            .map(|name| NamedModule::new(*name, build(name)))
            .collect();
        let refs: Vec<&NamedParsedModule<'static>> = named.iter().collect();
        let resolved = resolve(&refs, &MergeOptions::default()).unwrap();
        assert!(resolved.all_reduced.functions.remaining_imports.is_empty());
        let (mapping, added, exports) = joined(resolved);
        // Only the two definitions are added.
        assert_eq!(added.len(), 2);
        let a = new_index(&mapping, "a", 0).unwrap();
        assert_eq!(added[a as usize], ("a".to_string(), 0));
        assert_eq!(new_index(&mapping, "b", 0), Some(a));
        assert_eq!(new_index(&mapping, "c", 0), Some(a));
        let run = new_index(&mapping, "c", 1).unwrap();
        assert_ne!(run, a);
        // Only `run` stays exported.
        assert_eq!(exports, vec![("run".to_string(), run)]);
    }
}

/// A's function calls what it imports from indirect_fib, which re-exports
/// A's function: the import lands on A's own function.
#[test]
fn test_cross_module_recursion_resolves_to_definition() {
    let mut a = empty_module();
    a.imports.push(import("indirect_fib", "indirect_fib", 0));
    a.functions.push(imported());
    a.functions.push(local());
    a.exports.push(export("fib", 1));
    let mut b = empty_module();
    b.imports.push(import("A", "fib", 0));
    b.functions.push(imported());
    b.exports.push(export("indirect_fib", 0));
    let a = NamedModule::new("A", a);
    let b = NamedModule::new("indirect_fib", b);
    let mut keep = KeepExports::new();
    keep.keep_function(IdentifierModule::new("A".to_string()), "fib".to_string());
    let options = MergeOptions {
        keep_exports: Some(keep),
        resolved_exports: ResolvedExports::Keep,
        ..MergeOptions::default()
    };
    let resolved = resolve(&[&a, &b], &options).unwrap();
    let (mapping, added, exports) = joined(resolved);
    assert_eq!(added, vec![("A".to_string(), 1)]);
    assert_eq!(new_index(&mapping, "A", 0), Some(0));
    assert_eq!(new_index(&mapping, "A", 1), Some(0));
    assert_eq!(new_index(&mapping, "indirect_fib", 0), Some(0));
    // The kept export stays, the re-export used by A does not.
    assert_eq!(exports, vec![("fib".to_string(), 0)]);
}

/// Two modules that only re-export what they import from each other define
/// nothing: resolution reports the cycle.
#[test]
fn test_mutual_re_exports_are_a_cycle() {
    let mut a = empty_module();
    a.imports.push(import("WAT_MOD_B", "func_b", 0));
    a.functions.push(imported());
    a.exports.push(export("func_a", 0));
    let mut b = empty_module();
    b.imports.push(import("WAT_MOD_A", "func_a", 0));
    b.functions.push(imported());
    b.exports.push(export("func_b", 0));
    let a = NamedModule::new("WAT_MOD_A", a);
    let b = NamedModule::new("WAT_MOD_B", b);
    assert!(matches!(
        resolve(&[&a, &b], &MergeOptions::default()),
        Err(Error::ImportCycle)
    ));
}

/// A exports a function "x", B a global "x": the names clash, unless C
/// imports B's global, which then is no longer exported.
#[test]
fn test_clash_across_kinds_avoided_by_import() {
    let mut a = empty_module();
    a.functions.push(ParsedFunction {
        ty: FuncType {
            params: vec![],
            results: vec![],
        },
        kind: ParsedFunctionKind::Local(vec![]),
    });
    a.exports.push(export("x", 0));
    let mut b = empty_module();
    b.globals.push(ParsedGlobal {
        ty: ValType::I32,
        mutable: false,
        shared: false,
        imported: false,
    });
    b.exports.push(ParsedExport {
        name: "x".to_string(),
        item: ExportedItem::Global(0),
    });
    let mut c = empty_module();
    c.imports.push(ParsedImport {
        module: "B".to_string(),
        name: "x".to_string(),
        item: ImportedItem::Global(0),
    });
    c.globals.push(ParsedGlobal {
        ty: ValType::I32,
        mutable: false,
        shared: false,
        imported: true,
    });
    let a = NamedModule::new("A", a);
    let b = NamedModule::new("B", b);
    let c = NamedModule::new("C", c);
    assert!(matches!(
        resolve(&[&a, &b], &MergeOptions::default()),
        Err(Error::ExportNameClash(_))
    ));
    let resolved = resolve(&[&a, &b, &c], &MergeOptions::default()).unwrap();
    assert_eq!(resolved.all_reduced.functions.remaining_exports.len(), 1);
    assert!(resolved.all_reduced.globals.remaining_exports.is_empty());
    assert!(resolved.all_reduced.globals.remaining_imports.is_empty());
}
