//! Named modules, and the parts of a parsed WebAssembly module that
//! resolution reads.
use crate::kinds::{FuncType, RefType, ValType};
use vstd::prelude::*;

verus! {

/// A named WebAssembly module.
/// The name will be used to resolve function name lookup.
#[derive(Debug)]
pub struct NamedModule<'a, M> {
    pub name: &'a str,
    pub module: M,
}

impl<'a, T> NamedModule<'a, T> {
    /// Names a module.
    pub fn new(name: &'a str, module: T) -> (r: Self)
        ensures
            r.name == name,
            r.module == module,
    {
        Self { name, module }
    }
}

/// A named module that points to a byte-buffer
pub type NamedBufferModule<'a> = NamedModule<'a, &'a [u8]>;

/// A named module that points to the parts of a parsed module that
/// resolution reads.
pub type NamedParsedModule<'a> = NamedModule<'a, ParsedModule>;

/// What an import brings in: the item of the importing module, by index.
#[derive(Debug, Clone, Copy, PartialEq, Eq, Structural)]
pub enum ImportedItem {
    Function(u64),
    Table(u64),
    Memory(u64),
    Global(u64),
}

/// An import of a parsed module.
#[derive(Debug)]
pub struct ParsedImport {
    /// The module imported from.
    pub module: String,
    /// The name imported.
    pub name: String,
    pub item: ImportedItem,
}

/// How a function of a parsed module is defined.
#[derive(Debug)]
pub enum ParsedFunctionKind {
    /// Defined in the module, with its typed argument locals.
    Local(Vec<(u64, ValType)>),
    /// Imported.
    Import,
    /// Left uninitialized by the parser.
    Uninitialized,
}

/// A function of a parsed module.
#[derive(Debug)]
pub struct ParsedFunction {
    pub ty: FuncType,
    pub kind: ParsedFunctionKind,
}

/// A global of a parsed module.
#[derive(Debug, Clone, Copy)]
pub struct ParsedGlobal {
    pub ty: ValType,
    pub mutable: bool,
    pub shared: bool,
    pub imported: bool,
}

/// A memory of a parsed module.
#[derive(Debug, Clone, Copy)]
pub struct ParsedMemory {
    pub imported: bool,
}

/// A table of a parsed module.
#[derive(Debug, Clone, Copy)]
pub struct ParsedTable {
    pub element_ty: RefType,
    pub imported: bool,
}

/// What an export makes visible: an item of the module, by index.
#[derive(Debug, Clone, Copy, PartialEq, Eq, Structural)]
pub enum ExportedItem {
    Function(u64),
    Table(u64),
    Memory(u64),
    Global(u64),
}

/// An export of a parsed module.
#[derive(Debug)]
pub struct ParsedExport {
    pub name: String,
    pub item: ExportedItem,
}

/// The parts of a parsed module that resolution reads. Functions, globals,
/// memories and tables are listed by index: item `k` is at position `k`.
#[derive(Debug)]
pub struct ParsedModule {
    pub imports: Vec<ParsedImport>,
    pub functions: Vec<ParsedFunction>,
    pub globals: Vec<ParsedGlobal>,
    pub memories: Vec<ParsedMemory>,
    pub tables: Vec<ParsedTable>,
    pub exports: Vec<ParsedExport>,
}

impl ParsedModule {
    /// Every index that an import or an export names exists, and every item
    /// marked as imported is brought in by an import.
    pub open spec fn wf(&self) -> bool {
        &&& forall|j: int|
            0 <= j < self.imports@.len() ==> match (#[trigger] self.imports@[j]).item {
                ImportedItem::Function(k) => k < self.functions@.len(),
                ImportedItem::Table(k) => k < self.tables@.len(),
                ImportedItem::Memory(k) => k < self.memories@.len(),
                ImportedItem::Global(k) => k < self.globals@.len(),
            }
        &&& forall|j: int|
            0 <= j < self.exports@.len() ==> match (#[trigger] self.exports@[j]).item {
                ExportedItem::Function(k) => k < self.functions@.len(),
                ExportedItem::Table(k) => k < self.tables@.len(),
                ExportedItem::Memory(k) => k < self.memories@.len(),
                ExportedItem::Global(k) => k < self.globals@.len(),
            }
        &&& forall|k: int|
            0 <= k < self.functions@.len() && (#[trigger] self.functions@[k]).kind is Import ==> exists|j: int|
                0 <= j < self.imports@.len() && (#[trigger] self.imports@[j]).item
                    == ImportedItem::Function(k as u64)
        &&& forall|k: int|
            0 <= k < self.globals@.len() && (#[trigger] self.globals@[k]).imported ==> exists|j: int|
                0 <= j < self.imports@.len() && (#[trigger] self.imports@[j]).item == ImportedItem::Global(
                    k as u64,
                )
        &&& forall|k: int|
            0 <= k < self.memories@.len() && (#[trigger] self.memories@[k]).imported ==> exists|j: int|
                0 <= j < self.imports@.len() && (#[trigger] self.imports@[j]).item == ImportedItem::Memory(
                    k as u64,
                )
        &&& forall|k: int|
            0 <= k < self.tables@.len() && (#[trigger] self.tables@[k]).imported ==> exists|j: int|
                0 <= j < self.imports@.len() && (#[trigger] self.imports@[j]).item == ImportedItem::Table(
                    k as u64,
                )
        &&& self.functions@.len() <= u64::MAX
        &&& self.globals@.len() <= u64::MAX
        &&& self.memories@.len() <= u64::MAX
        &&& self.tables@.len() <= u64::MAX
    }

    /// Imports bring in only items marked as imported, and no two imports
    /// bring in the same item, as in every module that a parser produces.
    pub open spec fn imports_exclusive(&self) -> bool {
        &&& forall|j: int|
            0 <= j < self.imports@.len() ==> match (#[trigger] self.imports@[j]).item {
                ImportedItem::Function(k) => self.functions@[k as int].kind is Import,
                ImportedItem::Table(k) => self.tables@[k as int].imported,
                ImportedItem::Memory(k) => self.memories@[k as int].imported,
                ImportedItem::Global(k) => self.globals@[k as int].imported,
            }
        &&& forall|j1: int, j2: int|
            0 <= j1 < self.imports@.len() && 0 <= j2 < self.imports@.len() && j1 != j2
                ==> (#[trigger] self.imports@[j1]).item != (#[trigger] self.imports@[j2]).item
    }

    /// No two exports of the module share a name.
    pub open spec fn exports_named_uniquely(&self) -> bool {
        forall|j1: int, j2: int|
            0 <= j1 < self.exports@.len() && 0 <= j2 < self.exports@.len() && j1 != j2
                ==> (#[trigger] self.exports@[j1]).name@ != (#[trigger] self.exports@[j2]).name@
    }

    /// The number of parts that resolution turns into nodes, at most.
    pub open spec fn size(&self) -> nat {
        self.imports@.len() + self.functions@.len() + self.globals@.len() + self.memories@.len()
            + self.tables@.len() + self.exports@.len()
    }
}


impl ParsedModule {
    /// Whether the module is well formed, see [`ParsedModule::wf`].
    pub fn is_well_formed(&self) -> (r: bool)
        ensures
            r == self.wf(),
    {
        let nf = self.functions.len();
        let nt = self.tables.len();
        let nm = self.memories.len();
        let ng = self.globals.len();
        if nf as u128 > u64::MAX as u128 || nt as u128 > u64::MAX as u128 || nm as u128 > u64::MAX as u128
            || ng as u128 > u64::MAX as u128 {
            return false;
        }
        // Mark the items that imports bring in, checking their indices.
        let mut f_marks: Vec<bool> = Vec::new();
        let mut t_marks: Vec<bool> = Vec::new();
        let mut m_marks: Vec<bool> = Vec::new();
        let mut g_marks: Vec<bool> = Vec::new();
        let mut x: usize = 0;
        while x < nf
            invariant x <= nf, f_marks@.len() == x, forall|y: int| 0 <= y < x ==> !f_marks@[y],
            decreases nf - x,
        {
            f_marks.push(false);
            x = x + 1;
        }
        x = 0;
        while x < nt
            invariant x <= nt, t_marks@.len() == x, forall|y: int| 0 <= y < x ==> !t_marks@[y],
            decreases nt - x,
        {
            t_marks.push(false);
            x = x + 1;
        }
        x = 0;
        while x < nm
            invariant x <= nm, m_marks@.len() == x, forall|y: int| 0 <= y < x ==> !m_marks@[y],
            decreases nm - x,
        {
            m_marks.push(false);
            x = x + 1;
        }
        x = 0;
        while x < ng
            invariant x <= ng, g_marks@.len() == x, forall|y: int| 0 <= y < x ==> !g_marks@[y],
            decreases ng - x,
        {
            g_marks.push(false);
            x = x + 1;
        }
        let mut j: usize = 0;
        while j < self.imports.len()
            invariant
                nf == self.functions@.len(),
                nt == self.tables@.len(),
                nm == self.memories@.len(),
                ng == self.globals@.len(),
                j <= self.imports@.len(),
                f_marks@.len() == nf,
                t_marks@.len() == nt,
                m_marks@.len() == nm,
                g_marks@.len() == ng,
                forall|i: int| 0 <= i < j ==> match (#[trigger] self.imports@[i]).item {
                    ImportedItem::Function(k) => k < nf,
                    ImportedItem::Table(k) => k < nt,
                    ImportedItem::Memory(k) => k < nm,
                    ImportedItem::Global(k) => k < ng,
                },
                forall|k: int| 0 <= k < nf ==> (#[trigger] f_marks@[k] <==> exists|i: int|
                    0 <= i < j && (#[trigger] self.imports@[i]).item == ImportedItem::Function(k as u64)),
                forall|k: int| 0 <= k < nt ==> (#[trigger] t_marks@[k] <==> exists|i: int|
                    0 <= i < j && (#[trigger] self.imports@[i]).item == ImportedItem::Table(k as u64)),
                forall|k: int| 0 <= k < nm ==> (#[trigger] m_marks@[k] <==> exists|i: int|
                    0 <= i < j && (#[trigger] self.imports@[i]).item == ImportedItem::Memory(k as u64)),
                forall|k: int| 0 <= k < ng ==> (#[trigger] g_marks@[k] <==> exists|i: int|
                    0 <= i < j && (#[trigger] self.imports@[i]).item == ImportedItem::Global(k as u64)),
            decreases self.imports@.len() - j,
        {
            match self.imports[j].item {
                ImportedItem::Function(k) => {
                    if k as u128 >= nf as u128 {
                        return false;
                    }
                    f_marks.set(k as usize, true);
                },
                ImportedItem::Table(k) => {
                    if k as u128 >= nt as u128 {
                        return false;
                    }
                    t_marks.set(k as usize, true);
                },
                ImportedItem::Memory(k) => {
                    if k as u128 >= nm as u128 {
                        return false;
                    }
                    m_marks.set(k as usize, true);
                },
                ImportedItem::Global(k) => {
                    if k as u128 >= ng as u128 {
                        return false;
                    }
                    g_marks.set(k as usize, true);
                },
            }
            proof {
                assert forall|k: int| 0 <= k < nf implies (#[trigger] f_marks@[k] <==> exists|i: int|
                    0 <= i < j + 1 && (#[trigger] self.imports@[i]).item == ImportedItem::Function(k as u64)) by {
                    if f_marks@[k] && self.imports@[j as int].item != ImportedItem::Function(k as u64) {
                        let i = choose|i: int| 0 <= i < j && (#[trigger] self.imports@[i]).item == ImportedItem::Function(k as u64);
                    }
                    if exists|i: int| 0 <= i < j + 1 && (#[trigger] self.imports@[i]).item == ImportedItem::Function(k as u64) {
                        let i = choose|i: int| 0 <= i < j + 1 && (#[trigger] self.imports@[i]).item == ImportedItem::Function(k as u64);
                        if i < j {} else {}
                    }
                }
                assert forall|k: int| 0 <= k < nt implies (#[trigger] t_marks@[k] <==> exists|i: int|
                    0 <= i < j + 1 && (#[trigger] self.imports@[i]).item == ImportedItem::Table(k as u64)) by {
                    if t_marks@[k] && self.imports@[j as int].item != ImportedItem::Table(k as u64) {
                        let i = choose|i: int| 0 <= i < j && (#[trigger] self.imports@[i]).item == ImportedItem::Table(k as u64);
                    }
                    if exists|i: int| 0 <= i < j + 1 && (#[trigger] self.imports@[i]).item == ImportedItem::Table(k as u64) {
                        let i = choose|i: int| 0 <= i < j + 1 && (#[trigger] self.imports@[i]).item == ImportedItem::Table(k as u64);
                        if i < j {} else {}
                    }
                }
                assert forall|k: int| 0 <= k < nm implies (#[trigger] m_marks@[k] <==> exists|i: int|
                    0 <= i < j + 1 && (#[trigger] self.imports@[i]).item == ImportedItem::Memory(k as u64)) by {
                    if m_marks@[k] && self.imports@[j as int].item != ImportedItem::Memory(k as u64) {
                        let i = choose|i: int| 0 <= i < j && (#[trigger] self.imports@[i]).item == ImportedItem::Memory(k as u64);
                    }
                    if exists|i: int| 0 <= i < j + 1 && (#[trigger] self.imports@[i]).item == ImportedItem::Memory(k as u64) {
                        let i = choose|i: int| 0 <= i < j + 1 && (#[trigger] self.imports@[i]).item == ImportedItem::Memory(k as u64);
                        if i < j {} else {}
                    }
                }
                assert forall|k: int| 0 <= k < ng implies (#[trigger] g_marks@[k] <==> exists|i: int|
                    0 <= i < j + 1 && (#[trigger] self.imports@[i]).item == ImportedItem::Global(k as u64)) by {
                    if g_marks@[k] && self.imports@[j as int].item != ImportedItem::Global(k as u64) {
                        let i = choose|i: int| 0 <= i < j && (#[trigger] self.imports@[i]).item == ImportedItem::Global(k as u64);
                    }
                    if exists|i: int| 0 <= i < j + 1 && (#[trigger] self.imports@[i]).item == ImportedItem::Global(k as u64) {
                        let i = choose|i: int| 0 <= i < j + 1 && (#[trigger] self.imports@[i]).item == ImportedItem::Global(k as u64);
                        if i < j {} else {}
                    }
                }
            }
            j = j + 1;
        }
        // Exports name existing items.
        let mut e: usize = 0;
        while e < self.exports.len()
            invariant
                nf == self.functions@.len(),
                nt == self.tables@.len(),
                nm == self.memories@.len(),
                ng == self.globals@.len(),
                e <= self.exports@.len(),
                forall|i: int| 0 <= i < e ==> match (#[trigger] self.exports@[i]).item {
                    ExportedItem::Function(k) => k < nf,
                    ExportedItem::Table(k) => k < nt,
                    ExportedItem::Memory(k) => k < nm,
                    ExportedItem::Global(k) => k < ng,
                },
            decreases self.exports@.len() - e,
        {
            let ok = match self.exports[e].item {
                ExportedItem::Function(k) => (k as u128) < (nf as u128),
                ExportedItem::Table(k) => (k as u128) < (nt as u128),
                ExportedItem::Memory(k) => (k as u128) < (nm as u128),
                ExportedItem::Global(k) => (k as u128) < (ng as u128),
            };
            if !ok {
                return false;
            }
            e = e + 1;
        }
        // Items marked as imported are brought in by an import.
        let mut k: usize = 0;
        while k < nf
            invariant
                nf == self.functions@.len(),
                f_marks@.len() == nf,
                k <= nf,
                forall|q: int| 0 <= q < nf ==> (#[trigger] f_marks@[q] <==> exists|i: int|
                    0 <= i < self.imports@.len() && (#[trigger] self.imports@[i]).item == ImportedItem::Function(q as u64)),
                forall|q: int| 0 <= q < k && (#[trigger] self.functions@[q]).kind is Import ==> f_marks@[q],
            decreases nf - k,
        {
            if matches!(self.functions[k].kind, ParsedFunctionKind::Import) && !f_marks[k] {
                return false;
            }
            k = k + 1;
        }
        k = 0;
        while k < nt
            invariant
                nt == self.tables@.len(),
                t_marks@.len() == nt,
                k <= nt,
                forall|q: int| 0 <= q < nt ==> (#[trigger] t_marks@[q] <==> exists|i: int|
                    0 <= i < self.imports@.len() && (#[trigger] self.imports@[i]).item == ImportedItem::Table(q as u64)),
                forall|q: int| 0 <= q < k && (#[trigger] self.tables@[q]).imported ==> t_marks@[q],
            decreases nt - k,
        {
            if self.tables[k].imported && !t_marks[k] {
                return false;
            }
            k = k + 1;
        }
        k = 0;
        while k < nm
            invariant
                nm == self.memories@.len(),
                m_marks@.len() == nm,
                k <= nm,
                forall|q: int| 0 <= q < nm ==> (#[trigger] m_marks@[q] <==> exists|i: int|
                    0 <= i < self.imports@.len() && (#[trigger] self.imports@[i]).item == ImportedItem::Memory(q as u64)),
                forall|q: int| 0 <= q < k && (#[trigger] self.memories@[q]).imported ==> m_marks@[q],
            decreases nm - k,
        {
            if self.memories[k].imported && !m_marks[k] {
                return false;
            }
            k = k + 1;
        }
        k = 0;
        while k < ng
            invariant
                ng == self.globals@.len(),
                g_marks@.len() == ng,
                k <= ng,
                forall|q: int| 0 <= q < ng ==> (#[trigger] g_marks@[q] <==> exists|i: int|
                    0 <= i < self.imports@.len() && (#[trigger] self.imports@[i]).item == ImportedItem::Global(q as u64)),
                forall|q: int| 0 <= q < k && (#[trigger] self.globals@[q]).imported ==> g_marks@[q],
            decreases ng - k,
        {
            if self.globals[k].imported && !g_marks[k] {
                return false;
            }
            k = k + 1;
        }
        true
    }
}

} // verus!
