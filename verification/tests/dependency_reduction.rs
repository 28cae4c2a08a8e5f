use wasm_mergers::kinds::IdentifierModule;
use wasm_mergers::resolver::dependency_reduction::ReducedDependencies;
use wasm_mergers::resolver::{Export, Import, ImportData, ItemType, Local, Node, Resolver};

type TestResolver = Resolver;

fn module(name: &str) -> IdentifierModule {
    IdentifierModule::new(name.to_string())
}

fn create_import(exporting_module: &str, importing_module: &str, export_name: &str, index: u64) -> Import {
    Import {
        exporting_module: module(exporting_module),
        importing_module: module(importing_module),
        exporting_identifier: export_name.to_string(),
        imported_index: index,
        ty: ItemType::Memory,
        data: ImportData::Plain,
    }
}

fn create_local(module_name: &str, index: u64) -> Local {
    Local {
        module: module(module_name),
        index,
        ty: ItemType::Memory,
        data: Vec::new(),
    }
}

fn create_export(module_name: &str, export_name: &str, index: u64) -> Export {
    Export {
        module: module(module_name),
        identifier: export_name.to_string(),
        index,
        ty: ItemType::Memory,
    }
}

#[test]
fn test_no_dependencies() {
    // [Local]   A : @ 1  ->  [Export]  A : "standalone" @ 1
    let mut resolver = TestResolver::new();

    resolver.add_local(create_local("A", 1));
    resolver.add_export(create_export("A", "standalone", 1));

    let linked = resolver.link_nodes().unwrap();
    linked.type_check_mismatch_signal().unwrap();
    linked.type_check_mismatch_signal().unwrap();

    let ReducedDependencies {
        remaining_imports,
        remaining_exports,
        reduction_map,
        clashing_exports,
    } = linked.reduce_dependencies::<()>(None);

    // Nothing should remain since export is backed by local
    assert!(clashing_exports.is_empty(), "No exports should clash");
    assert!(remaining_imports.is_empty(), "No imports should be present");
    assert!(remaining_exports.len() == 1, "Export should remain");

    let _ = reduction_map;
}

#[test]
fn test_isolated_imports() {
    // Imports that have no corresponding exports anywhere
    let mut resolver = TestResolver::new();

    resolver.add_import(create_import("NonExistent", "A", "func1", 0));
    resolver.add_import(create_import("NonExistent", "A", "func2", 1));
    resolver.add_import(create_import("AnotherMissing", "B", "func3", 0));

    let linked = resolver.link_nodes().unwrap();
    linked.type_check_mismatch_signal().unwrap();

    let ReducedDependencies {
        remaining_imports,
        remaining_exports,
        reduction_map,
        clashing_exports,
    } = linked.reduce_dependencies::<()>(None);

    // All imports should remain since none have exports
    assert!(clashing_exports.is_empty(), "No exports should clash");
    assert_eq!(remaining_imports.len(), 3, "All imports should remain");
    assert!(remaining_exports.is_empty(), "No exports should be present");

    let _ = reduction_map;
}

#[test]
fn test_unresolved_import() {
    // Module A imports something that doesn't exist
    let mut resolver = TestResolver::new();

    resolver.add_import(create_import("B", "A", "missing", 0));
    resolver.add_local(create_local("A", 1));
    resolver.add_export(create_export("A", "existing", 1));

    let linked = resolver.link_nodes().unwrap();
    linked.type_check_mismatch_signal().unwrap();

    let ReducedDependencies {
        remaining_imports,
        remaining_exports,
        reduction_map,
        clashing_exports,
    } = linked.reduce_dependencies::<()>(None);

    // The import & export should remain
    assert!(clashing_exports.is_empty(), "No exports should clash");
    assert_eq!(remaining_imports.len(), 1, "Should have one import");
    assert_eq!(remaining_exports.len(), 1, "Export should remain local");

    let unresolved_import = remaining_imports.iter().next().unwrap();
    assert_eq!(unresolved_import.exporting_identifier(), "missing");

    let _ = reduction_map;
}

#[test]
fn test_unresolved_export() {
    // [Import]  B -> A : "func" @ 0  ->  [Export]  A : "func" @ 0
    let mut resolver = TestResolver::new();
    resolver.add_import(create_import("B", "A", "func", 0));
    resolver.add_export(create_export("A", "func", 0));

    let linked = resolver.link_nodes().unwrap();
    linked.type_check_mismatch_signal().unwrap();

    let ReducedDependencies {
        remaining_imports,
        remaining_exports,
        reduction_map,
        clashing_exports,
    } = linked.reduce_dependencies::<()>(None);

    // Both should remain since there's no local to resolve them
    assert!(clashing_exports.is_empty(), "No exports should clash");
    assert_eq!(remaining_imports.len(), 1, "Import should remain");
    assert_eq!(remaining_exports.len(), 1, "Export should remain");

    let _ = reduction_map;
}

#[test]
fn test_multiple_locals_same_module() {
    // Module with multiple locals, some exports resolve, others don't
    let mut resolver = TestResolver::new();

    resolver.add_local(create_local("A", 1));
    resolver.add_local(create_local("A", 2));

    resolver.add_export(create_export("A", "func1", 1));
    resolver.add_export(create_export("A", "func2", 2));

    resolver.add_import(create_import("B", "A", "missing", 0));
    resolver.add_export(create_export("A", "broken", 0));

    let linked = resolver.link_nodes().unwrap();
    linked.type_check_mismatch_signal().unwrap();

    let ReducedDependencies {
        remaining_imports,
        remaining_exports,
        reduction_map,
        clashing_exports,
    } = linked.reduce_dependencies::<()>(None);

    assert!(clashing_exports.is_empty(), "No exports should clash");
    assert_eq!(remaining_imports.len(), 1, "Unresolved import remains");
    assert_eq!(remaining_exports.len(), 3, "All exporst should remain");

    let _ = reduction_map;
}

#[test]
fn test_partial_resolution() {
    // Some imports/exports resolve, others don't
    let mut resolver = TestResolver::new();

    resolver.add_local(create_local("A", 1));
    resolver.add_export(create_export("A", "resolved", 1));
    resolver.add_export(create_export("A", "unresolved", 0));
    resolver.add_import(create_import("B", "A", "missing", 0));

    let linked = resolver.link_nodes().unwrap();
    linked.type_check_mismatch_signal().unwrap();

    let ReducedDependencies {
        remaining_imports,
        remaining_exports,
        reduction_map,
        clashing_exports,
    } = linked.reduce_dependencies::<()>(None);

    assert!(clashing_exports.is_empty(), "No exports should clash");
    assert_eq!(remaining_imports.len(), 1, "One import should remain");
    assert_eq!(remaining_exports.len(), 2, "One export should remain");

    let _ = reduction_map;
}

#[test]
fn test_with_locals() {
    // EXTERNAL -> A : "value" @ 0 ; A local @ 1 exported as "processed";
    // B imports "processed" @ 2 and exports it as "final".
    let mut resolver = TestResolver::new();

    let external_import = create_import("EXTERNAL", "A", "value", 0);
    resolver.add_import(external_import.duplicate());

    let local_a = create_local("A", 1);
    resolver.add_local(local_a.duplicate());

    let export_to_b = create_export("A", "processed", 1);
    resolver.add_export(export_to_b.duplicate());

    let import_from_a = create_import("A", "B", "processed", 2);
    resolver.add_import(import_from_a.duplicate());

    let final_export = create_export("B", "final", 2);
    resolver.add_export(final_export.duplicate());

    let linked = resolver.link_nodes().unwrap();
    linked.type_check_mismatch_signal().unwrap();
    let reduced_dependencies = linked.reduce_dependencies::<()>(None);

    assert!(
        reduced_dependencies.clashing_exports.is_empty(),
        "No exports should clash"
    );

    // Should have one external import and one external export
    assert_eq!(reduced_dependencies.remaining_imports.len(), 1);
    assert_eq!(reduced_dependencies.remaining_exports.len(), 1);

    // The external import should reduce to itself
    assert_eq!(
        reduced_dependencies.get(&Node::Import(external_import.duplicate())),
        Some(&Node::Import(external_import.duplicate()))
    );

    // The local should reduce to itself
    assert_eq!(
        reduced_dependencies.get(&Node::Local(local_a.duplicate())),
        Some(&Node::Local(local_a.duplicate()))
    );

    // The exports should reduce to their source definition
    assert_eq!(
        reduced_dependencies.get(&Node::Export(export_to_b.duplicate())),
        Some(&Node::Local(local_a.duplicate()))
    );

    assert_eq!(
        reduced_dependencies.get(&Node::Export(final_export.duplicate())),
        Some(&Node::Local(local_a.duplicate()))
    );

    // The resolved import should reduce to the local
    assert_eq!(
        reduced_dependencies.get(&Node::Import(import_from_a.duplicate())),
        Some(&Node::Local(local_a.duplicate()))
    );
}

#[test]
fn test_chain_resolution() {
    // Long chain A -> B -> C -> local
    let mut resolver = TestResolver::new();

    resolver.add_local(create_local("C", 1));
    resolver.add_export(create_export("C", "base", 1));

    resolver.add_import(create_import("C", "B", "base", 0));
    resolver.add_export(create_export("B", "intermediate", 0));

    resolver.add_import(create_import("B", "A", "intermediate", 0));
    resolver.add_export(create_export("A", "final", 0));

    let linked = resolver.link_nodes().unwrap();
    linked.type_check_mismatch_signal().unwrap();

    let ReducedDependencies {
        remaining_imports,
        remaining_exports,
        reduction_map,
        clashing_exports,
    } = linked.reduce_dependencies::<()>(None);

    // Everything should resolve since it traces back to C's local
    assert!(clashing_exports.is_empty(), "No exports should clash");
    assert!(remaining_imports.is_empty(), "All imports should resolve");
    assert_eq!(remaining_exports.len(), 1, "The final export remains");

    let _ = reduction_map;
}

#[test]
fn test_chain_of_imports() {
    // FOREIGN -> A : "foreign" @ 0 exported as "a"; B imports "a" @ 1 and
    // exports "b"; C imports "b" @ 2 and exports "c".
    let mut resolver = TestResolver::new();

    let a_index = 0;
    let import_foreign = create_import("FOREIGN", "A", "foreign", a_index);
    resolver.add_import(import_foreign.duplicate());
    let export_a = create_export("A", "a", a_index);
    resolver.add_export(export_a.duplicate());

    let b_index = 1;
    let import_a = create_import("A", "B", "a", b_index);
    resolver.add_import(import_a.duplicate());
    let export_b = create_export("B", "b", b_index);
    resolver.add_export(export_b.duplicate());

    let c_index = 2;
    let import_b = create_import("B", "C", "b", c_index);
    resolver.add_import(import_b.duplicate());
    let export_foreign = create_export("C", "c", c_index);
    resolver.add_export(export_foreign.duplicate());

    let linked = resolver.link_nodes().unwrap();
    linked.type_check_mismatch_signal().unwrap();
    let reduced_dependencies = linked.reduce_dependencies::<()>(None);

    assert!(
        reduced_dependencies.clashing_exports.is_empty(),
        "No exports should clash"
    );

    // Verify the external boundary
    assert_eq!(reduced_dependencies.remaining_imports.len(), 1);
    assert_eq!(reduced_dependencies.remaining_exports.len(), 1);
    assert!(reduced_dependencies.remaining_imports.contains(&import_foreign));
    assert!(reduced_dependencies.remaining_exports.contains(&export_foreign));

    // All internal imports should reduce to the foreign import
    assert_eq!(
        reduced_dependencies.get(&Node::Import(import_foreign.duplicate())),
        Some(&Node::Import(import_foreign.duplicate()))
    );
    assert_eq!(
        reduced_dependencies.get(&Node::Import(import_a.duplicate())),
        Some(&Node::Import(import_foreign.duplicate()))
    );
    assert_eq!(
        reduced_dependencies.get(&Node::Import(import_b.duplicate())),
        Some(&Node::Import(import_foreign.duplicate()))
    );

    // All exports should also trace back to the foreign import
    assert_eq!(
        reduced_dependencies.get(&Node::Export(export_a.duplicate())),
        Some(&Node::Import(import_foreign.duplicate()))
    );
    assert_eq!(
        reduced_dependencies.get(&Node::Export(export_b.duplicate())),
        Some(&Node::Import(import_foreign.duplicate()))
    );
    assert_eq!(
        reduced_dependencies.get(&Node::Export(export_foreign.duplicate())),
        Some(&Node::Import(import_foreign.duplicate()))
    );
}

#[test]
fn test_circular_dependency_resolution() {
    // Module A imports "ind_fib" from B, exports "fib"
    // Module B imports "fib" from A, exports "ind_fib"
    // Both should resolve since A has a local for "fib"
    let mut resolver = TestResolver::new();

    resolver.add_import(create_import("B", "A", "ind_fib", 0));
    resolver.add_local(create_local("A", 1));
    resolver.add_export(create_export("A", "fib", 1));
    resolver.add_import(create_import("A", "B", "fib", 0));
    resolver.add_export(create_export("B", "ind_fib", 0));

    let linked = resolver.link_nodes().unwrap();
    linked.type_check_mismatch_signal().unwrap();

    let ReducedDependencies {
        remaining_imports,
        remaining_exports,
        reduction_map,
        clashing_exports,
    } = linked.reduce_dependencies::<()>(None);

    assert!(clashing_exports.is_empty(), "No exports should clash");

    // Both imports should be resolved since they eventually trace back to A's local
    assert!(
        remaining_imports.is_empty(),
        "Expected all imports to be resolved"
    );
    assert!(
        remaining_exports.is_empty(),
        "Expected all exports to be resolved"
    );

    let _ = reduction_map;
}
