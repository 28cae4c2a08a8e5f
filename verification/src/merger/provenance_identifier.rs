//! Identifiers that record whether they belong to an input module or to the
//! merged module.
use core::marker::PhantomData;
use vstd::prelude::*;

verus! {

/// The origin of identifiers of an input module.
#[derive(Debug, Default, Clone, Copy, PartialEq, Eq, Hash)]
pub struct Old;

/// The origin of identifiers of the merged module.
#[derive(Debug, Default, Clone, Copy, PartialEq, Eq, Hash)]
pub struct New;

/// The index of an item, tagged with the module it comes from.
#[derive(Debug)]
pub struct Identifier<Origin> {
    pub id: u64,
    pub origin: PhantomData<Origin>,
}

impl<Origin> Identifier<Origin> {
    /// Tags an index.
    pub fn new(id: u64) -> (r: Self)
        ensures
            r.id == id,
    {
        Identifier { id, origin: PhantomData }
    }

    /// The index.
    pub fn id(&self) -> (r: u64)
        ensures
            r == self.id,
    {
        self.id
    }
}

} // verus!
