# wasm_mergers

Merges WebAssembly modules into one: an import of one module that another
module exports is linked to that export, and the merged module calls the
definition behind it directly.

## Layout

- `src/` — the verified library (Verus).
  - `named_module.rs`, `merge_configuration.rs`, `merge_options.rs`, `kinds.rs`:
    the inputs and options of a merge, and what resolution reads of a parsed
    module (`ParsedModule`).
  - `graph.rs`: the dependency graph, a `petgraph` acyclic graph behind
    trusted wrappers, with paths, reachability and cycles defined over its edges.
  - `resolver/`: one kind of item at a time — linking imports to exports and
    exports to definitions (`link_nodes`), type checking the links, and
    reducing every node to the definition it stands for
    (`reduce_dependencies`); `order.rs` shows that the outcome depends on the
    nodes, not on their order.
  - `merge_builder.rs`: the first pass over all modules (`consider`), the
    resolution of all kinds, and the detection and handling of clashing
    export names.
  - `merger/`: the bookkeeping of the second pass — which functions the merged
    module gets, where every item of an input module goes (`Mapping`), the
    inclusion of a module (`inclusion.rs`: `plan_inclusion` gives every
    global, memory, data segment, table and element segment a fresh index and
    carries every reference over; `include_exports` decides the exports of
    tables, memories and globals and their names), the name of the merged
    module, and the stack of open instruction sequences used while copying a
    function body.
  - `module_order.rs`: resolution does not depend on the order of the modules.
- `app/` — the walrus side: reading a parsed walrus module into the
  library's plain values (`ParsedModule`, `InclusionInput`); creating the
  walrus items that the library's plan lists, checking that each gets the
  planned index; copying function bodies; and the `Merge` trait that turns a
  `MergeConfiguration` into bytes.
- `tests/` — the tests of the library.
