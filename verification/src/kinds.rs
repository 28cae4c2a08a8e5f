//! Kinds of WebAssembly items, their identifiers and their types.
use core::marker::PhantomData;
use vstd::prelude::*;

verus! {

// Supported kinds
/// The kind of functions.
#[derive(Debug, Clone, Hash, PartialEq, Eq, Default)]
pub struct Function;

/// The kind of tables.
#[derive(Debug, Clone, Hash, PartialEq, Eq, Default)]
pub struct Table;

/// The kind of memories.
#[derive(Debug, Clone, Hash, PartialEq, Eq, Default)]
pub struct Memory;

/// The kind of globals.
#[derive(Debug, Clone, Hash, PartialEq, Eq, Default)]
pub struct Global;

/// The kind of tags.
#[derive(Debug, Clone, Hash, PartialEq, Eq, Default)]
pub struct Tag;

/// The kind of an exported item, as a value.
#[derive(Debug, Clone, Copy, PartialEq, Eq, Structural)]
pub enum ExportKind {
    Function,
    Table,
    Memory,
    Global,
}

/// The name of an item of kind `Kind` (e.g. the name under which it is exported).
#[derive(Debug)]
pub struct IdentifierItem<Kind> {
    pub identifier: String,
    pub kind: PhantomData<Kind>,
}

impl<Kind> View for IdentifierItem<Kind> {
    type V = Seq<char>;

    open spec fn view(&self) -> Seq<char> {
        self.identifier@
    }
}

impl<Kind> IdentifierItem<Kind> {
    /// Wraps a name.
    pub fn new(identifier: String) -> (r: Self)
        ensures
            r@ == identifier@,
    {
        IdentifierItem { identifier, kind: PhantomData }
    }

    /// The name.
    pub fn identifier(&self) -> (r: &str)
        ensures
            r@ == self@,
    {
        self.identifier.as_str()
    }

    /// A copy of the name.
    pub fn duplicate(&self) -> (r: Self)
        ensures
            r@ == self@,
    {
        IdentifierItem { identifier: self.identifier.clone(), kind: PhantomData }
    }

    /// The name as a `String`.
    pub fn into_string(self) -> (r: String)
        ensures
            r@ == self@,
    {
        self.identifier
    }
}

/// The name of a module.
#[derive(Debug)]
pub struct IdentifierModule(pub String);

impl View for IdentifierModule {
    type V = Seq<char>;

    open spec fn view(&self) -> Seq<char> {
        self.0@
    }
}

impl IdentifierModule {
    /// Wraps a name.
    pub fn new(name: String) -> (r: Self)
        ensures
            r@ == name@,
    {
        IdentifierModule(name)
    }

    /// The name.
    pub fn identifier(&self) -> (r: &str)
        ensures
            r@ == self@,
    {
        self.0.as_str()
    }

    /// A copy of the name.
    pub fn duplicate(&self) -> (r: Self)
        ensures
            r@ == self@,
    {
        IdentifierModule(self.0.clone())
    }

    /// Whether both name the same module.
    pub fn same(&self, other: &Self) -> (r: bool)
        ensures
            r == (self@ == other@),
    {
        self.0 == other.0
    }
}

/// The heap types of the abstract kind.
#[derive(Debug, Clone, Copy, PartialEq, Eq, Structural)]
pub enum AbstractHeapType {
    Func,
    Extern,
    Any,
    NoneHeap,
    NoExtern,
    NoFunc,
    Eq,
    Struct,
    Array,
    I31,
    Exn,
    NoExn,
}

/// A heap type: abstract, or a defined type named by its type index.
#[derive(Debug, Clone, Copy, PartialEq, Eq, Structural)]
pub enum HeapType {
    Abstract(AbstractHeapType),
    Concrete(u64),
    Exact(u64),
}

/// A reference type.
#[derive(Debug, Clone, Copy, PartialEq, Eq, Structural)]
pub struct RefType {
    pub nullable: bool,
    pub heap_type: HeapType,
}

/// A value type.
#[derive(Debug, Clone, Copy, PartialEq, Eq, Structural)]
pub enum ValType {
    I32,
    I64,
    F32,
    F64,
    V128,
    Ref(RefType),
}

/// The signature of a function.
#[derive(Debug)]
pub struct FuncType {
    pub params: Vec<ValType>,
    pub results: Vec<ValType>,
}

/// The signature of a function, as sequences.
pub struct FuncTypeView {
    pub params: Seq<ValType>,
    pub results: Seq<ValType>,
}

impl View for FuncType {
    type V = FuncTypeView;

    open spec fn view(&self) -> FuncTypeView {
        FuncTypeView { params: self.params@, results: self.results@ }
    }
}

/// Whether two sequences of value types are equal.
pub fn val_types_equal(a: &Vec<ValType>, b: &Vec<ValType>) -> (r: bool)
    ensures
        r == (a@ == b@),
{
    if a.len() != b.len() {
        return false;
    }
    let mut i: usize = 0;
    while i < a.len()
        invariant
            a.len() == b.len(),
            i <= a.len(),
            forall|j: int| 0 <= j < i ==> a@[j] == b@[j],
        decreases a.len() - i,
    {
        if a[i] != b[i] {
            return false;
        }
        i = i + 1;
    }
    assert(a@ =~= b@);
    true
}

/// A copy of a sequence of value types.
pub fn copy_val_types(a: &Vec<ValType>) -> (r: Vec<ValType>)
    ensures
        r@ == a@,
{
    let mut r: Vec<ValType> = Vec::new();
    let mut i: usize = 0;
    while i < a.len()
        invariant
            i <= a.len(),
            r@ == a@.take(i as int),
        decreases a.len() - i,
    {
        r.push(a[i]);
        i = i + 1;
        assert(r@ =~= a@.take(i as int));
    }
    assert(a@.take(a.len() as int) =~= a@);
    r
}

impl FuncType {
    /// The parameter types.
    pub fn params(&self) -> (r: &[ValType])
        ensures
            r@ == self.params@,
    {
        self.params.as_slice()
    }

    /// The result types.
    pub fn results(&self) -> (r: &[ValType])
        ensures
            r@ == self.results@,
    {
        self.results.as_slice()
    }

    /// Whether two signatures are equal.
    pub fn equals(&self, other: &FuncType) -> (r: bool)
        ensures
            r == (self@ == other@),
    {
        let p = val_types_equal(&self.params, &other.params);
        let q = val_types_equal(&self.results, &other.results);
        p && q
    }

    /// A copy of the signature.
    pub fn duplicate(&self) -> (r: FuncType)
        ensures
            r@ == self@,
    {
        FuncType { params: copy_val_types(&self.params), results: copy_val_types(&self.results) }
    }
}

} // verus!
