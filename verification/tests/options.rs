use wasm_mergers::error::{ConcreteExport, Error};
use wasm_mergers::kinds::{
    ExportKind, FuncType, Function, IdentifierItem, IdentifierModule, ValType,
};
use wasm_mergers::merge_builder::{AllReducedDependencies, MergeRenamer, Resolver};
use wasm_mergers::merge_options::{
    default_rename, default_renamer, ClashingExports, KeepExports, LinkTypeMismatch, Renamer,
    ResolvedExports,
};
use wasm_mergers::resolver::dependency_reduction::ReducedDependencies;
use wasm_mergers::resolver::{Export, ItemType};
use wasm_mergers::{MergeConfiguration, MergeOptions, NamedBufferModule, NamedModule};

fn module(name: &str) -> IdentifierModule {
    IdentifierModule::new(name.to_string())
}

fn export(m: &str, name: &str, ty: ItemType) -> Export {
    Export {
        module: module(m),
        identifier: name.to_string(),
        index: 0,
        ty,
    }
}

fn reduced(exports: Vec<Export>) -> ReducedDependencies {
    ReducedDependencies {
        reduction_map: vec![],
        remaining_imports: vec![],
        remaining_exports: exports,
        clashing_exports: vec![],
    }
}

#[test]
fn test_default_rename() {
    let renamed = default_rename(&module("A"), IdentifierItem::<Function>::new("f".to_string()));
    assert_eq!(renamed.identifier(), "A:f");
    let renamed = Renamer::JoinWithModule.rename(&module(""), IdentifierItem::<()>::new("".to_string()));
    assert_eq!(renamed.identifier(), ":");
}

#[test]
fn test_default_renamer() {
    let strategy = default_renamer();
    assert!(strategy.first_occurrence);
    assert_eq!(*strategy.functions(), Renamer::JoinWithModule);
    assert_eq!(*strategy.tables(), Renamer::JoinWithModule);
    assert_eq!(*strategy.memories(), Renamer::JoinWithModule);
    assert_eq!(*strategy.globals(), Renamer::JoinWithModule);
    assert_eq!(*strategy.tags(), Renamer::JoinWithModule);
}

#[test]
fn test_default_options() {
    let options = MergeOptions::default();
    assert!(matches!(options.clashing_exports, ClashingExports::Signal));
    assert_eq!(options.link_type_mismatch, LinkTypeMismatch::Signal);
    assert_eq!(options.resolved_exports, ResolvedExports::Remove);
    assert!(options.keep_exports.is_none());
}

#[test]
fn test_keep_exports_once() {
    let mut keep = KeepExports::new();
    keep.keep_function(module("A"), "f".to_string());
    keep.keep_function(module("A"), "f".to_string());
    keep.keep_function(module("B"), "f".to_string());
    keep.keep_tables(module("A"), "t".to_string());
    keep.keep_memory(module("A"), "m".to_string());
    keep.keep_globals(module("A"), "g".to_string());
    assert_eq!(keep.functions().len(), 2);
    assert_eq!(keep.tables().len(), 1);
    assert_eq!(keep.memories().len(), 1);
    assert_eq!(keep.globals().len(), 1);
    assert!(keep.tags().is_empty());
    assert_eq!(keep.functions()[1].module.identifier(), "B");
    assert_eq!(keep.tables()[0].name.identifier(), "t");
}

#[test]
fn test_compute_export_name_renames_every_clashing_export() {
    let clashes = vec![(
        "f".to_string(),
        vec![
            ConcreteExport {
                kind: ExportKind::Function,
                exporting_module: "A".to_string(),
            },
            ConcreteExport {
                kind: ExportKind::Function,
                exporting_module: "B".to_string(),
            },
        ],
    )];
    let mut renamer = MergeRenamer::new(clashes, default_renamer());
    let mut a = export("A", "f", ItemType::Memory);
    let mut b = export("B", "f", ItemType::Memory);
    let mut c = export("C", "g", ItemType::Memory);
    renamer.compute_export_name(&mut a, ExportKind::Function);
    renamer.compute_export_name(&mut b, ExportKind::Function);
    renamer.compute_export_name(&mut c, ExportKind::Function);
    assert_eq!(a.identifier, "A:f");
    assert_eq!(b.identifier, "B:f");
    // Not clashing: kept.
    assert_eq!(c.identifier, "g");
    assert_eq!(renamer.rename_encountered, vec!["f".to_string()]);
}

#[test]
fn test_compute_export_name_keeps_first_occurrence() {
    let mut strategy = default_renamer();
    strategy.first_occurrence = false;
    let clashes = vec![("f".to_string(), vec![])];
    let mut renamer = MergeRenamer::new(clashes, strategy);
    let mut a = export("A", "f", ItemType::Memory);
    let mut b = export("B", "f", ItemType::Memory);
    renamer.compute_export_name(&mut a, ExportKind::Table);
    renamer.compute_export_name(&mut b, ExportKind::Table);
    assert_eq!(a.identifier, "f");
    assert_eq!(b.identifier, "B:f");
}

#[test]
fn test_no_clashes_renames_nothing() {
    let mut renamer = MergeRenamer::for_no_clashes_present();
    let mut a = export("A", "f", ItemType::Memory);
    renamer.compute_export_name(&mut a, ExportKind::Memory);
    assert_eq!(a.identifier, "f");
    assert!(renamer.clashes_map.is_empty());
}

#[test]
fn test_identify_clashes_across_kinds() {
    let all = AllReducedDependencies {
        functions: reduced(vec![
            export("A", "x", ItemType::Memory),
            export("A", "only", ItemType::Memory),
        ]),
        tables: reduced(vec![]),
        memories: reduced(vec![export("B", "x", ItemType::Memory)]),
        globals: reduced(vec![export("C", "y", ItemType::Global(ValType::I32))]),
    };
    let clashes = Resolver::identify_clashes(&all);
    assert_eq!(clashes.len(), 1);
    assert_eq!(clashes[0].0, "x");
    assert_eq!(clashes[0].1.len(), 2);
    assert_eq!(clashes[0].1[0].kind, ExportKind::Function);
    assert_eq!(clashes[0].1[0].exporting_module, "A");
    assert_eq!(clashes[0].1[1].kind, ExportKind::Memory);
    assert_eq!(clashes[0].1[1].exporting_module, "B");
}

#[test]
fn test_handle_clashes() {
    let no_clashes = ClashingExports::Signal.handle(vec![]).unwrap();
    assert!(no_clashes.clashes_map.is_empty());
    let clashes = || vec![("x".to_string(), vec![])];
    match ClashingExports::Signal.handle(clashes()) {
        Err(Error::ExportNameClash(c)) => assert_eq!(c[0].0, "x"),
        other => panic!("expected a clash error, got {other:?}"),
    }
    let renamer = ClashingExports::Rename(default_renamer()).handle(clashes()).unwrap();
    assert_eq!(renamer.clashes_map.len(), 1);
}

#[test]
fn test_owned_names() {
    let a_bytes: &[u8] = &[0, 97, 115, 109];
    let a: NamedBufferModule = NamedModule::new("A", a_bytes);
    let b: NamedBufferModule = NamedModule::new("B", a_bytes);
    let modules = [&a, &b];
    let config = MergeConfiguration::new(&modules, MergeOptions::default());
    let names: Vec<String> = config
        .owned_names()
        .iter()
        .map(|n| n.identifier().to_string())
        .collect();
    assert_eq!(names, vec!["A".to_string(), "B".to_string()]);
    assert_eq!(config.modules.len(), 2);
}

#[test]
fn test_func_type_equality() {
    let a = FuncType {
        params: vec![ValType::I32],
        results: vec![ValType::I64],
    };
    let b = a.duplicate();
    assert!(a.equals(&b));
    let c = FuncType {
        params: vec![ValType::I32],
        results: vec![],
    };
    assert!(!a.equals(&c));
    assert_eq!(a.params(), &[ValType::I32]);
    assert_eq!(a.results(), &[ValType::I64]);
}

#[test]
fn test_identifier_module() {
    let m = module("A");
    assert!(m.same(&m.duplicate()));
    assert!(!m.same(&module("B")));
    assert_eq!(m.identifier(), "A");
}

#[test]
fn test_try_parse() {
    let empty: &[u8] = &[0, 97, 115, 109, 1, 0, 0, 0];
    let garbage: &[u8] = &[1, 2, 3];
    let a: NamedBufferModule = NamedModule::new("A", empty);
    let b: NamedBufferModule = NamedModule::new("B", empty);
    let modules = [&a, &b];
    let config = MergeConfiguration::new(&modules, MergeOptions::default());
    let parsed = config.try_parse().unwrap();
    assert_eq!(parsed.len(), 2);
    assert_eq!(parsed[0].name, "A");
    assert_eq!(parsed[1].name, "B");
    assert!(parsed[0].module.module().funcs.iter().next().is_none());
    // Each name keeps the module parsed from its own bytes.
    assert_eq!(parsed[0].module.bytes(), empty);
    assert_eq!(parsed[1].module.bytes(), empty);

    let c: NamedBufferModule = NamedModule::new("C", garbage);
    let modules = [&a, &c];
    let config = MergeConfiguration::new(&modules, MergeOptions::default());
    match config.try_parse() {
        Err(Error::Parse(message)) => assert!(!message.is_empty()),
        other => panic!("expected a parse error, got {:?}", other.map(|v| v.len())),
    }
}

#[test]
fn test_try_parse_keeps_each_modules_bytes() {
    // An empty module, and one with a single (type) section.
    let empty: &[u8] = &[0, 97, 115, 109, 1, 0, 0, 0];
    let typed: &[u8] = &[0, 97, 115, 109, 1, 0, 0, 0, 1, 4, 1, 96, 0, 0];
    let a: NamedBufferModule = NamedModule::new("A", empty);
    let b: NamedBufferModule = NamedModule::new("B", typed);
    let modules = [&a, &b];
    let config = MergeConfiguration::new(&modules, MergeOptions::default());
    let parsed = config.try_parse().unwrap();
    assert_eq!(parsed[0].module.bytes(), empty);
    assert_eq!(parsed[1].module.bytes(), typed);
    assert_eq!(parsed[0].module.module().types.iter().count(), 0);
    assert!(parsed[1].module.module().types.iter().count() > 0);
}
