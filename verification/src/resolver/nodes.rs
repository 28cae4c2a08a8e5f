//! The nodes of the dependency graph: imports, locally defined items and
//! exports, together with their abstract views.
use crate::kinds::{FuncType, FuncTypeView, IdentifierModule, RefType, ValType};
use vstd::prelude::*;

verus! {

/// The type of an item: a function signature, the element type of a table,
/// nothing for a memory, the value type of a global.
#[derive(Debug)]
pub enum ItemType {
    Function(FuncType),
    Table(RefType),
    Memory,
    Global(ValType),
}

/// The abstract view of an [`ItemType`].
pub enum ItemTypeView {
    Function(FuncTypeView),
    Table(RefType),
    Memory,
    Global(ValType),
}

impl View for ItemType {
    type V = ItemTypeView;

    open spec fn view(&self) -> ItemTypeView {
        match self {
            ItemType::Function(f) => ItemTypeView::Function(f@),
            ItemType::Table(r) => ItemTypeView::Table(*r),
            ItemType::Memory => ItemTypeView::Memory,
            ItemType::Global(v) => ItemTypeView::Global(*v),
        }
    }
}

impl ItemType {
    /// Whether two item types are equal.
    pub fn equals(&self, other: &ItemType) -> (r: bool)
        ensures
            r == (self@ == other@),
    {
        match (self, other) {
            (ItemType::Function(a), ItemType::Function(b)) => a.equals(b),
            (ItemType::Table(a), ItemType::Table(b)) => *a == *b,
            (ItemType::Memory, ItemType::Memory) => true,
            (ItemType::Global(a), ItemType::Global(b)) => *a == *b,
            _ => false,
        }
    }

    /// A copy of the item type.
    pub fn duplicate(&self) -> (r: ItemType)
        ensures
            r@ == self@,
    {
        match self {
            ItemType::Function(f) => ItemType::Function(f.duplicate()),
            ItemType::Table(r) => ItemType::Table(*r),
            ItemType::Memory => ItemType::Memory,
            ItemType::Global(v) => ItemType::Global(*v),
        }
    }
}

/// Extra information carried by an import: for an imported global its
/// mutability and sharedness.
#[derive(Debug, Clone, Copy, PartialEq, Eq, Structural)]
pub enum ImportData {
    Plain,
    Global { mutable: bool, shared: bool },
}

/// An item imported by `importing_module` from `exporting_module` under the
/// name `exporting_identifier`, at index `imported_index` of the importing module.
#[derive(Debug)]
pub struct Import {
    pub exporting_module: IdentifierModule,
    pub importing_module: IdentifierModule,
    pub exporting_identifier: String,
    pub imported_index: u64,
    pub ty: ItemType,
    pub data: ImportData,
}

/// The abstract view of an [`Import`].
pub struct ImportView {
    pub exporting_module: Seq<char>,
    pub importing_module: Seq<char>,
    pub exporting_identifier: Seq<char>,
    pub imported_index: u64,
    pub ty: ItemTypeView,
    pub data: ImportData,
}

impl View for Import {
    type V = ImportView;

    open spec fn view(&self) -> ImportView {
        ImportView {
            exporting_module: self.exporting_module@,
            importing_module: self.importing_module@,
            exporting_identifier: self.exporting_identifier@,
            imported_index: self.imported_index,
            ty: self.ty@,
            data: self.data,
        }
    }
}

/// An item defined in `module` at `index`; a function carries its argument
/// locals (local index and type).
#[derive(Debug)]
pub struct Local {
    pub module: IdentifierModule,
    pub index: u64,
    pub ty: ItemType,
    pub data: Vec<(u64, ValType)>,
}

/// The abstract view of a [`Local`].
pub struct LocalView {
    pub module: Seq<char>,
    pub index: u64,
    pub ty: ItemTypeView,
    pub data: Seq<(u64, ValType)>,
}

impl View for Local {
    type V = LocalView;

    open spec fn view(&self) -> LocalView {
        LocalView { module: self.module@, index: self.index, ty: self.ty@, data: self.data@ }
    }
}

/// The item at `index` of `module`, exported under the name `identifier`.
#[derive(Debug)]
pub struct Export {
    pub module: IdentifierModule,
    pub identifier: String,
    pub index: u64,
    pub ty: ItemType,
}

/// The abstract view of an [`Export`].
pub struct ExportView {
    pub module: Seq<char>,
    pub identifier: Seq<char>,
    pub index: u64,
    pub ty: ItemTypeView,
}

impl View for Export {
    type V = ExportView;

    open spec fn view(&self) -> ExportView {
        ExportView {
            module: self.module@,
            identifier: self.identifier@,
            index: self.index,
            ty: self.ty@,
        }
    }
}

/// A node of the dependency graph.
#[derive(Debug)]
pub enum Node {
    Import(Import),
    Local(Local),
    Export(Export),
}

/// The abstract view of a [`Node`].
pub enum NodeView {
    Import(ImportView),
    Local(LocalView),
    Export(ExportView),
}

impl View for Node {
    type V = NodeView;

    open spec fn view(&self) -> NodeView {
        match self {
            Node::Import(i) => NodeView::Import(i@),
            Node::Local(l) => NodeView::Local(l@),
            Node::Export(e) => NodeView::Export(e@),
        }
    }
}

/// The type of the item a node stands for.
pub open spec fn node_type(n: NodeView) -> ItemTypeView {
    match n {
        NodeView::Import(i) => i.ty,
        NodeView::Local(l) => l.ty,
        NodeView::Export(e) => e.ty,
    }
}

/// Whether two sequences of typed locals are equal.
pub fn locals_equal(a: &Vec<(u64, ValType)>, b: &Vec<(u64, ValType)>) -> (r: bool)
    ensures
        r == (a@ == b@),
{
    if a.len() != b.len() {
        return false;
    }
    let mut i: usize = 0;
    while i < a.len()
        invariant
            a.len() == b.len(),
            i <= a.len(),
            forall|j: int| 0 <= j < i ==> a@[j] == b@[j],
        decreases a.len() - i,
    {
        let (x0, x1) = a[i];
        let (y0, y1) = b[i];
        if x0 != y0 || x1 != y1 {
            return false;
        }
        i = i + 1;
    }
    assert(a@ =~= b@);
    true
}

/// A copy of a sequence of typed locals.
pub fn copy_locals(a: &Vec<(u64, ValType)>) -> (r: Vec<(u64, ValType)>)
    ensures
        r@ == a@,
{
    let mut r: Vec<(u64, ValType)> = Vec::new();
    let mut i: usize = 0;
    while i < a.len()
        invariant
            i <= a.len(),
            r@ == a@.take(i as int),
        decreases a.len() - i,
    {
        let (x0, x1) = a[i];
        r.push((x0, x1));
        i = i + 1;
        assert(r@ =~= a@.take(i as int));
    }
    assert(a@.take(a.len() as int) =~= a@);
    r
}

impl Import {
    /// The module that exports the imported item.
    pub fn exporting_module(&self) -> (r: &IdentifierModule)
        ensures
            r@ == self@.exporting_module,
    {
        &self.exporting_module
    }

    /// The module that imports the item.
    pub fn importing_module(&self) -> (r: &IdentifierModule)
        ensures
            r@ == self@.importing_module,
    {
        &self.importing_module
    }

    /// The name under which the item is imported.
    pub fn exporting_identifier(&self) -> (r: &String)
        ensures
            r@ == self@.exporting_identifier,
    {
        &self.exporting_identifier
    }

    /// The index of the import in the importing module.
    pub fn imported_index(&self) -> (r: u64)
        ensures
            r == self.imported_index,
    {
        self.imported_index
    }

    /// The type of the imported item.
    pub fn ty(&self) -> (r: &ItemType)
        ensures
            r@ == self@.ty,
    {
        &self.ty
    }

    /// For an imported global, whether it is mutable.
    pub fn mutable(&self) -> (r: bool)
        ensures
            r == (self.data matches ImportData::Global { mutable, .. } && mutable),
    {
        match self.data {
            ImportData::Global { mutable, .. } => mutable,
            ImportData::Plain => false,
        }
    }

    /// For an imported global, whether it is shared.
    pub fn shared(&self) -> (r: bool)
        ensures
            r == (self.data matches ImportData::Global { shared, .. } && shared),
    {
        match self.data {
            ImportData::Global { shared, .. } => shared,
            ImportData::Plain => false,
        }
    }

    /// Whether two imports are equal.
    pub fn equals(&self, other: &Import) -> (r: bool)
        ensures
            r == (self@ == other@),
    {
        let a = self.exporting_module.same(&other.exporting_module);
        let b = self.importing_module.same(&other.importing_module);
        let c = self.exporting_identifier == other.exporting_identifier;
        let d = self.ty.equals(&other.ty);
        a && b && c && self.imported_index == other.imported_index && d && self.data == other.data
    }

    /// A copy of the import.
    pub fn duplicate(&self) -> (r: Import)
        ensures
            r@ == self@,
    {
        Import {
            exporting_module: self.exporting_module.duplicate(),
            importing_module: self.importing_module.duplicate(),
            exporting_identifier: self.exporting_identifier.clone(),
            imported_index: self.imported_index,
            ty: self.ty.duplicate(),
            data: self.data,
        }
    }
}

impl Local {
    /// The defining module.
    pub fn module(&self) -> (r: &IdentifierModule)
        ensures
            r@ == self@.module,
    {
        &self.module
    }

    /// The index of the item in its module.
    pub fn index(&self) -> (r: u64)
        ensures
            r == self.index,
    {
        self.index
    }

    /// The type of the item.
    pub fn ty(&self) -> (r: &ItemType)
        ensures
            r@ == self@.ty,
    {
        &self.ty
    }

    /// The typed argument locals of a function.
    pub fn data(&self) -> (r: &Vec<(u64, ValType)>)
        ensures
            r@ == self@.data,
    {
        &self.data
    }

    /// Whether two locally defined items are equal.
    pub fn equals(&self, other: &Local) -> (r: bool)
        ensures
            r == (self@ == other@),
    {
        let a = self.module.same(&other.module);
        let b = self.ty.equals(&other.ty);
        let c = locals_equal(&self.data, &other.data);
        a && self.index == other.index && b && c
    }

    /// A copy of the item.
    pub fn duplicate(&self) -> (r: Local)
        ensures
            r@ == self@,
    {
        Local {
            module: self.module.duplicate(),
            index: self.index,
            ty: self.ty.duplicate(),
            data: copy_locals(&self.data),
        }
    }
}

impl Export {
    /// The exporting module.
    pub fn module(&self) -> (r: &IdentifierModule)
        ensures
            r@ == self@.module,
    {
        &self.module
    }

    /// The name under which the item is exported.
    pub fn identifier(&self) -> (r: &String)
        ensures
            r@ == self@.identifier,
    {
        &self.identifier
    }

    /// The index of the exported item in its module.
    pub fn index(&self) -> (r: u64)
        ensures
            r == self.index,
    {
        self.index
    }

    /// Whether two exports are equal.
    pub fn equals(&self, other: &Export) -> (r: bool)
        ensures
            r == (self@ == other@),
    {
        let a = self.module.same(&other.module);
        let b = self.identifier == other.identifier;
        let c = self.ty.equals(&other.ty);
        a && b && self.index == other.index && c
    }

    /// A copy of the export.
    pub fn duplicate(&self) -> (r: Export)
        ensures
            r@ == self@,
    {
        Export {
            module: self.module.duplicate(),
            identifier: self.identifier.clone(),
            index: self.index,
            ty: self.ty.duplicate(),
        }
    }
}

impl Node {
    /// The locally defined item, if this node is one.
    pub fn as_local(&self) -> (r: Option<&Local>)
        ensures
            match self {
                Node::Local(l) => r == Some(l),
                _ => r is None,
            },
    {
        match self {
            Node::Local(local) => Some(local),
            Node::Import(_) | Node::Export(_) => None,
        }
    }

    /// The type of the item this node stands for.
    pub fn ty_(&self) -> (r: &ItemType)
        ensures
            r@ == node_type(self@),
    {
        match self {
            Node::Import(import) => &import.ty,
            Node::Local(local) => &local.ty,
            Node::Export(export) => &export.ty,
        }
    }

    /// Whether two nodes are equal.
    pub fn equals(&self, other: &Node) -> (r: bool)
        ensures
            r == (self@ == other@),
    {
        match (self, other) {
            (Node::Import(a), Node::Import(b)) => a.equals(b),
            (Node::Local(a), Node::Local(b)) => a.equals(b),
            (Node::Export(a), Node::Export(b)) => a.equals(b),
            _ => false,
        }
    }

    /// A copy of the node.
    pub fn duplicate(&self) -> (r: Node)
        ensures
            r@ == self@,
    {
        match self {
            Node::Import(i) => Node::Import(i.duplicate()),
            Node::Local(l) => Node::Local(l.duplicate()),
            Node::Export(e) => Node::Export(e.duplicate()),
        }
    }
}

impl PartialEq for Import {
    fn eq(&self, other: &Self) -> (r: bool) {
        self.equals(other)
    }
}

impl vstd::std_specs::cmp::PartialEqSpecImpl for Import {
    open spec fn obeys_eq_spec() -> bool {
        true
    }

    open spec fn eq_spec(&self, other: &Self) -> bool {
        self@ == other@
    }
}

impl PartialEq for Local {
    fn eq(&self, other: &Self) -> (r: bool) {
        self.equals(other)
    }
}

impl vstd::std_specs::cmp::PartialEqSpecImpl for Local {
    open spec fn obeys_eq_spec() -> bool {
        true
    }

    open spec fn eq_spec(&self, other: &Self) -> bool {
        self@ == other@
    }
}

impl PartialEq for Export {
    fn eq(&self, other: &Self) -> (r: bool) {
        self.equals(other)
    }
}

impl vstd::std_specs::cmp::PartialEqSpecImpl for Export {
    open spec fn obeys_eq_spec() -> bool {
        true
    }

    open spec fn eq_spec(&self, other: &Self) -> bool {
        self@ == other@
    }
}

impl PartialEq for Node {
    fn eq(&self, other: &Self) -> (r: bool) {
        self.equals(other)
    }
}

impl vstd::std_specs::cmp::PartialEqSpecImpl for Node {
    open spec fn obeys_eq_spec() -> bool {
        true
    }

    open spec fn eq_spec(&self, other: &Self) -> bool {
        self@ == other@
    }
}

} // verus!
