//! The errors of a merge.
use crate::kinds::ExportKind;
use crate::resolver::Node;
use vstd::prelude::*;

verus! {

/// An export as it takes part in a name clash: its kind and its module.
#[derive(Debug, Clone)]
pub struct ConcreteExport {
    pub kind: ExportKind,
    pub exporting_module: String,
}

/// The abstract view of a [`ConcreteExport`].
pub struct ConcreteExportView {
    pub kind: ExportKind,
    pub exporting_module: Seq<char>,
}

impl View for ConcreteExport {
    type V = ConcreteExportView;

    open spec fn view(&self) -> ConcreteExportView {
        ConcreteExportView { kind: self.kind, exporting_module: self.exporting_module@ }
    }
}

impl ConcreteExport {
    /// A copy of the export.
    pub fn duplicate(&self) -> (r: ConcreteExport)
        ensures
            r@ == self@,
    {
        ConcreteExport { kind: self.kind, exporting_module: self.exporting_module.clone() }
    }
}

/// Every export name that more than one remaining export carries, with
/// those exports.
pub type ClashesMap = Vec<(String, Vec<ConcreteExport>)>;

#[derive(Debug)]
pub enum Error {
    /// When parsing of a WebAssembly module failed.
    ///
    /// Since parsing can fail in multiple ways,
    /// this variant carries the message of the failure.
    Parse(String),

    /// Infinite Import Cycle
    ///
    /// This occurs when two or more modules import from each other
    /// without any of them providing a concrete definition.
    ///
    /// Eg.
    /// ```wat
    /// (module "A" (import "b")
    ///             (export "a" $b))
    /// (module "B" (import "a")
    ///             (export "b" $a))
    /// ```
    /// Here, `A`'s `"a"` is just `B`'s `"b"`, and `B`'s `"b"` is just `A`'s `"a"`.
    /// No actual function is defined anywhere, so resolution is not possible.
    ImportCycle,

    /// Types Mismatch: the pairs (import, export) linked with different types.
    ///
    /// Eg.
    /// ```wat
    /// (module "A" (export "f" (result i32)))
    /// (module "B" (import "A" "f" (result i64)))
    /// (module "C" (import "A" "f" (result f64)))
    /// ```
    TypeMismatch(Vec<(Node, Node)>),

    /// Name Clashes
    ///
    /// Eg.
    /// ```wat
    /// (module "A" (export "f")) ;; (a)
    /// (module "B" (export "f")) ;; (b)
    /// ;; ==>
    /// (module "M" (export "f")) ;; (a) or (b) ?
    /// ```
    ///
    /// If no other module imports `"f"`, the clash is reported as
    /// `[("f", [A:f, B:f])]`.
    ExportNameClash(ClashesMap),
}

} // verus!
