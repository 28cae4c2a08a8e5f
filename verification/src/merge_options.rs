//! The options that steer a merge.
use crate::kinds::{Function, Global, IdentifierItem, IdentifierModule, Memory, Table, Tag};
use vstd::prelude::*;

verus! {

/// Whether exports that were resolved by an import of another merged
/// module remain exported from the merged module.
#[derive(Debug, PartialEq, Eq, Clone, Copy, Structural)]
pub enum ResolvedExports {
    Remove,
    Keep,
}

impl Default for ResolvedExports {
    fn default() -> (r: Self)
        ensures
            r == ResolvedExports::Remove,
    {
        ResolvedExports::Remove
    }
}

/// An export named by its module and its name.
#[derive(Debug)]
pub struct ExportIdentifier<KindName> {
    pub module: IdentifierModule,
    pub name: KindName,
}

impl<KindName: View> View for ExportIdentifier<KindName> {
    type V = (Seq<char>, KindName::V);

    open spec fn view(&self) -> (Seq<char>, KindName::V) {
        (self.module@, self.name@)
    }
}

pub type IdentifierFunction = IdentifierItem<Function>;

pub type IdentifierTable = IdentifierItem<Table>;

pub type IdentifierMemory = IdentifierItem<Memory>;

pub type IdentifierGlobal = IdentifierItem<Global>;

pub type IdentifierTag = IdentifierItem<Tag>;

/// How a clashing export name is turned into a new one.
#[derive(Debug, PartialEq, Eq, Clone, Copy, Structural)]
pub enum Renamer {
    /// The module name and the export name joined by `:` (see [`default_rename`]).
    JoinWithModule,
}

/// The rename strategy for exports, per kind of item.
#[derive(Debug, Clone, Copy)]
pub struct RenameStrategy {
    /// Whether the first of the clashing exports is renamed too.
    pub first_occurrence: bool,
    pub functions: Renamer,
    pub tables: Renamer,
    pub memories: Renamer,
    pub globals: Renamer,
    pub tags: Renamer,
}

impl RenameStrategy {
    /// The renamer for functions.
    pub fn functions(&self) -> (r: &Renamer)
        ensures
            *r == self.functions,
    {
        &self.functions
    }

    /// The renamer for tables.
    pub fn tables(&self) -> (r: &Renamer)
        ensures
            *r == self.tables,
    {
        &self.tables
    }

    /// The renamer for memories.
    pub fn memories(&self) -> (r: &Renamer)
        ensures
            *r == self.memories,
    {
        &self.memories
    }

    /// The renamer for globals.
    pub fn globals(&self) -> (r: &Renamer)
        ensures
            *r == self.globals,
    {
        &self.globals
    }

    /// The renamer for tags.
    pub fn tags(&self) -> (r: &Renamer)
        ensures
            *r == self.tags,
    {
        &self.tags
    }
}

/// What to do when two exports of the merged module would share a name.
#[derive(Debug, Clone, Copy)]
pub enum ClashingExports {
    Rename(RenameStrategy),
    Signal,
}

impl Default for ClashingExports {
    fn default() -> (r: Self)
        ensures
            r is Signal,
    {
        ClashingExports::Signal
    }
}

/// What to do when an import is linked to an export of another type.
#[derive(Debug, PartialEq, Eq, Clone, Copy, Structural)]
pub enum LinkTypeMismatch {
    Ignore,
    Signal,
}

impl Default for LinkTypeMismatch {
    fn default() -> (r: Self)
        ensures
            r == LinkTypeMismatch::Signal,
    {
        LinkTypeMismatch::Signal
    }
}

/// Exports that stay exported from the merged module even when another
/// merged module imports them.
#[derive(Debug)]
pub struct KeepExports {
    pub functions: Vec<ExportIdentifier<IdentifierFunction>>,
    pub tables: Vec<ExportIdentifier<IdentifierTable>>,
    pub memories: Vec<ExportIdentifier<IdentifierMemory>>,
    pub globals: Vec<ExportIdentifier<IdentifierGlobal>>,
    pub tags: Vec<ExportIdentifier<IdentifierTag>>,
}

/// The views of a sequence of export identifiers.
pub open spec fn identifier_views<Kind>(s: Seq<ExportIdentifier<IdentifierItem<Kind>>>) -> Seq<(Seq<char>, Seq<char>)> {
    s.map_values(|e: ExportIdentifier<IdentifierItem<Kind>>| e@)
}

/// Whether `list` names the export `name` of `module`.
pub fn contains_identifier<Kind>(
    list: &Vec<ExportIdentifier<IdentifierItem<Kind>>>,
    module: &IdentifierModule,
    name: &String,
) -> (r: bool)
    ensures
        r == identifier_views(list@).contains((module@, name@)),
{
    let mut i: usize = 0;
    while i < list.len()
        invariant
            i <= list@.len(),
            forall|j: int| 0 <= j < i ==> identifier_views(list@)[j] != (module@, name@),
        decreases list@.len() - i,
    {
        if list[i].module.same(module) && list[i].name.identifier == *name {
            assert(identifier_views(list@)[i as int] == (module@, name@));
            return true;
        }
        i = i + 1;
    }
    false
}

/// Adds an export identifier to a list unless it is already there.
pub fn insert_identifier<Kind>(list: &mut Vec<ExportIdentifier<IdentifierItem<Kind>>>, module: IdentifierModule, name: String)
    ensures
        identifier_views(final(list)@).to_set() == identifier_views(old(list)@).to_set().insert(
            (module@, name@),
        ),
        identifier_views(old(list)@).no_duplicates() ==> identifier_views(final(list)@).no_duplicates(),
{
    let present = contains_identifier(list, &module, &name);
    let ghost before = identifier_views(list@);
    if !present {
        let ghost item = (module@, name@);
        list.push(ExportIdentifier { module, name: IdentifierItem::new(name) });
        assert(identifier_views(list@) =~= before.push(item));
        proof {
            before.lemma_push_to_set_commute(item);
        }
    } else {
        assert(before.to_set() =~= before.to_set().insert((module@, name@)));
    }
}

impl KeepExports {
    /// An empty set of kept exports.
    pub fn new() -> (r: Self)
        ensures
            r.functions@.len() == 0,
            r.tables@.len() == 0,
            r.memories@.len() == 0,
            r.globals@.len() == 0,
            r.tags@.len() == 0,
    {
        KeepExports {
            functions: Vec::new(),
            tables: Vec::new(),
            memories: Vec::new(),
            globals: Vec::new(),
            tags: Vec::new(),
        }
    }

    /// The kept functions.
    pub fn functions(&self) -> (r: &Vec<ExportIdentifier<IdentifierFunction>>)
        ensures
            r == &self.functions,
    {
        &self.functions
    }

    /// The kept tables.
    pub fn tables(&self) -> (r: &Vec<ExportIdentifier<IdentifierTable>>)
        ensures
            r == &self.tables,
    {
        &self.tables
    }

    /// The kept memories.
    pub fn memories(&self) -> (r: &Vec<ExportIdentifier<IdentifierMemory>>)
        ensures
            r == &self.memories,
    {
        &self.memories
    }

    /// The kept globals.
    pub fn globals(&self) -> (r: &Vec<ExportIdentifier<IdentifierGlobal>>)
        ensures
            r == &self.globals,
    {
        &self.globals
    }

    /// The kept tags.
    pub fn tags(&self) -> (r: &Vec<ExportIdentifier<IdentifierTag>>)
        ensures
            r == &self.tags,
    {
        &self.tags
    }

    /// Keeps the function export `name` of `module`.
    pub fn keep_function(&mut self, module: IdentifierModule, name: String)
        ensures
            identifier_views(final(self).functions@).to_set() == identifier_views(
                old(self).functions@,
            ).to_set().insert((module@, name@)),
            identifier_views(old(self).functions@).no_duplicates() ==> identifier_views(
                final(self).functions@,
            ).no_duplicates(),
            final(self).tables == old(self).tables,
            final(self).memories == old(self).memories,
            final(self).globals == old(self).globals,
            final(self).tags == old(self).tags,
    {
        insert_identifier(&mut self.functions, module, name);
    }

    /// Keeps the table export `name` of `module`.
    pub fn keep_tables(&mut self, module: IdentifierModule, name: String)
        ensures
            identifier_views(final(self).tables@).to_set() == identifier_views(
                old(self).tables@,
            ).to_set().insert((module@, name@)),
            identifier_views(old(self).tables@).no_duplicates() ==> identifier_views(
                final(self).tables@,
            ).no_duplicates(),
            final(self).functions == old(self).functions,
            final(self).memories == old(self).memories,
            final(self).globals == old(self).globals,
            final(self).tags == old(self).tags,
    {
        insert_identifier(&mut self.tables, module, name);
    }

    /// Keeps the memory export `name` of `module`.
    pub fn keep_memory(&mut self, module: IdentifierModule, name: String)
        ensures
            identifier_views(final(self).memories@).to_set() == identifier_views(
                old(self).memories@,
            ).to_set().insert((module@, name@)),
            identifier_views(old(self).memories@).no_duplicates() ==> identifier_views(
                final(self).memories@,
            ).no_duplicates(),
            final(self).functions == old(self).functions,
            final(self).tables == old(self).tables,
            final(self).globals == old(self).globals,
            final(self).tags == old(self).tags,
    {
        insert_identifier(&mut self.memories, module, name);
    }

    /// Keeps the global export `name` of `module`.
    pub fn keep_globals(&mut self, module: IdentifierModule, name: String)
        ensures
            identifier_views(final(self).globals@).to_set() == identifier_views(
                old(self).globals@,
            ).to_set().insert((module@, name@)),
            identifier_views(old(self).globals@).no_duplicates() ==> identifier_views(
                final(self).globals@,
            ).no_duplicates(),
            final(self).functions == old(self).functions,
            final(self).tables == old(self).tables,
            final(self).memories == old(self).memories,
            final(self).tags == old(self).tags,
    {
        insert_identifier(&mut self.globals, module, name);
    }
}

/// The options of a merge.
#[derive(Debug)]
pub struct MergeOptions {
    pub clashing_exports: ClashingExports,
    pub link_type_mismatch: LinkTypeMismatch,
    pub resolved_exports: ResolvedExports,
    pub keep_exports: Option<KeepExports>,
}

impl Default for MergeOptions {
    fn default() -> (r: Self)
        ensures
            r.clashing_exports is Signal,
            r.link_type_mismatch == LinkTypeMismatch::Signal,
            r.resolved_exports == ResolvedExports::Remove,
            r.keep_exports is None,
    {
        MergeOptions {
            clashing_exports: ClashingExports::Signal,
            link_type_mismatch: LinkTypeMismatch::Signal,
            resolved_exports: ResolvedExports::Remove,
            keep_exports: None,
        }
    }
}

/// Default rename strategy provided by this library: rename each clashing
/// item, the first one included, by joining the module name and the export
/// name with `:` in between. See [`default_rename`].
pub fn default_renamer() -> (r: RenameStrategy)
    ensures
        r.first_occurrence,
        r.functions == Renamer::JoinWithModule,
        r.tables == Renamer::JoinWithModule,
        r.memories == Renamer::JoinWithModule,
        r.globals == Renamer::JoinWithModule,
        r.tags == Renamer::JoinWithModule,
{
    RenameStrategy {
        first_occurrence: true,
        functions: Renamer::JoinWithModule,
        tables: Renamer::JoinWithModule,
        memories: Renamer::JoinWithModule,
        globals: Renamer::JoinWithModule,
        tags: Renamer::JoinWithModule,
    }
}

/// The name that [`default_rename`] gives to export `v` of module `m`.
pub open spec fn spec_default_rename(m: Seq<char>, v: Seq<char>) -> Seq<char> {
    m + seq![':'] + v
}

/// Default rename strategy provided by this library is to rename duplicate
/// items by joining the namespace with the export name.
///
/// Eg. merging the following:
/// ```text
/// (mod "A" (export "f" x))
/// (mod "B" (export "f" y))
/// ```
/// yields:
/// ```text
/// (mod (export "A:f" x)
///      (export "B:f" y))
/// ```
pub fn default_rename<Kind>(m: &IdentifierModule, v: IdentifierItem<Kind>) -> (r: IdentifierItem<Kind>)
    ensures
        r@ == spec_default_rename(m@, v@),
{
    let mut joined = m.0.clone();
    proof {
        reveal_strlit(":");
    }
    joined.append(":");
    joined.append(v.identifier.as_str());
    assert(joined@ =~= spec_default_rename(m@, v@));
    IdentifierItem::new(joined)
}

/// Law: the default renaming gives exports of the same name from different
/// modules different names.
pub proof fn lemma_default_rename_distinguishes_modules(m1: Seq<char>, m2: Seq<char>, v: Seq<char>)
    requires
        m1 != m2,
    ensures
        spec_default_rename(m1, v) != spec_default_rename(m2, v),
{
    let r1 = spec_default_rename(m1, v);
    let r2 = spec_default_rename(m2, v);
    if r1 == r2 {
        assert(r1.len() == m1.len() + 1 + v.len());
        assert(r2.len() == m2.len() + 1 + v.len());
        assert(m1.len() == m2.len());
        assert(r1.subrange(0, m1.len() as int) =~= m1);
        assert(r2.subrange(0, m2.len() as int) =~= m2);
    }
}

impl Renamer {
    /// The new name of export `v` of module `m`.
    pub fn rename<Kind>(&self, m: &IdentifierModule, v: IdentifierItem<Kind>) -> (r: IdentifierItem<Kind>)
        ensures
            r@ == spec_default_rename(m@, v@),
    {
        match self {
            Renamer::JoinWithModule => default_rename(m, v),
        }
    }
}

} // verus!
