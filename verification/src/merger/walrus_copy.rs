//! Bookkeeping for copying a function body: the instruction sequences that
//! are open, and which new sequence each old sequence became.
use std::collections::HashMap;
use vstd::prelude::*;

verus! {

broadcast use vstd::std_specs::hash::group_hash_axioms;

/// The stack of open instruction sequences, old and new side by side, and
/// the sequence of the new function that each old sequence is copied to.
/// A sequence is known by its index.
#[derive(Debug)]
pub struct SequenceStack {
    old: Vec<u64>,
    new: Vec<u64>,
    id_mapping: HashMap<u64, u64>,
}

impl SequenceStack {
    /// The open old sequences, innermost last.
    pub closed spec fn old_stack(&self) -> Seq<u64> {
        self.old@
    }

    /// The open new sequences, innermost last.
    pub closed spec fn new_stack(&self) -> Seq<u64> {
        self.new@
    }

    /// Which new sequence each old sequence is copied to.
    pub closed spec fn id_map(&self) -> Map<u64, u64> {
        self.id_mapping@
    }

    /// Starts with the bodies of both functions open, the old one copied to the new one.
    pub fn new(old_id: u64, new_id: u64) -> (r: Self)
        ensures
            r.old_stack() == seq![old_id],
            r.new_stack() == seq![new_id],
            r.id_map() == Map::<u64, u64>::empty().insert(old_id, new_id),
    {
        let mut sequence_id_mapping: HashMap<u64, u64> = HashMap::new();
        sequence_id_mapping.insert(old_id, new_id);
        let r = SequenceStack { old: vec![old_id], new: vec![new_id], id_mapping: sequence_id_mapping };
        assert(r.old@ =~= seq![old_id]);
        assert(r.new@ =~= seq![new_id]);
        r
    }

    /// Opens a pair of sequences, the old one copied to the new one.
    pub fn push(&mut self, old_id: &u64, new_id: &u64)
        ensures
            final(self).old_stack() == old(self).old_stack().push(*old_id),
            final(self).new_stack() == old(self).new_stack().push(*new_id),
            final(self).id_map() == old(self).id_map().insert(*old_id, *new_id),
    {
        self.old.push(*old_id);
        self.new.push(*new_id);
        self.id_mapping.insert(*old_id, *new_id);
    }

    /// Closes the innermost pair of sequences, which must still be bound to each other.
    pub fn pop(&mut self) -> (r: (u64, u64))
        requires
            old(self).old_stack().len() > 0,
            old(self).new_stack().len() > 0,
            old(self).id_map().contains_key(old(self).old_stack().last()),
            old(self).id_map()[old(self).old_stack().last()] == old(self).new_stack().last(),
        ensures
            r == (old(self).old_stack().last(), old(self).new_stack().last()),
            final(self).old_stack() == old(self).old_stack().drop_last(),
            final(self).new_stack() == old(self).new_stack().drop_last(),
            final(self).id_map() == old(self).id_map(),
    {
        let old_id = self.old.pop().unwrap();
        let new_id = self.new.pop().unwrap();
        (old_id, new_id)
    }

    /// Records that an old sequence is copied to a new one.
    pub fn bind(&mut self, old_id: &u64, new_id: &u64)
        ensures
            final(self).old_stack() == old(self).old_stack(),
            final(self).new_stack() == old(self).new_stack(),
            final(self).id_map() == old(self).id_map().insert(*old_id, *new_id),
    {
        self.id_mapping.insert(*old_id, *new_id);
    }

    /// The new sequence that a bound old sequence is copied to.
    pub fn resolve(&self, old_id: &u64) -> (r: u64)
        requires
            self.id_map().contains_key(*old_id),
        ensures
            r == self.id_map()[*old_id],
    {
        *self.id_mapping.get(old_id).unwrap()
    }

    /// Whether an old sequence is bound to a new one.
    pub fn is_bound(&self, old_id: &u64) -> (r: bool)
        ensures
            r == self.id_map().contains_key(*old_id),
    {
        self.id_mapping.contains_key(old_id)
    }

    /// Whether the innermost pair of sequences can be closed: both stacks
    /// hold a sequence, and the innermost old one is bound to the innermost new one.
    pub fn can_pop(&self) -> (r: bool)
        ensures
            r == (self.old_stack().len() > 0 && self.new_stack().len() > 0 && self.id_map().contains_key(
                self.old_stack().last(),
            ) && self.id_map()[self.old_stack().last()] == self.new_stack().last()),
    {
        if self.old.len() == 0 || self.new.len() == 0 {
            return false;
        }
        let old_id = self.old[self.old.len() - 1];
        let new_id = self.new[self.new.len() - 1];
        match self.id_mapping.get(&old_id) {
            Some(bound) => *bound == new_id,
            None => false,
        }
    }

    /// The number of open new sequences.
    pub fn depth(&self) -> (r: usize)
        ensures
            r == self.new_stack().len(),
    {
        self.new.len()
    }

    /// The innermost open new sequence.
    pub fn last_new(&self) -> (r: u64)
        requires
            self.new_stack().len() > 0,
        ensures
            r == self.new_stack().last(),
    {
        *self.new.last().unwrap()
    }
}

} // verus!
