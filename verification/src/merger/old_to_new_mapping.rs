//! Where each item of an input module ends up in the merged module.
use crate::kinds::IdentifierModule;
use crate::merger::provenance_identifier::{Identifier, New, Old};
use vstd::prelude::*;

verus! {

/// The key of an entry: the module and the item's index in it.
pub open spec fn entry_key(e: (IdentifierModule, u64, u64)) -> (Seq<char>, u64) {
    (e.0@, e.1)
}

/// The map that a sequence of insertions builds: later entries win.
pub open spec fn entries_map(s: Seq<(IdentifierModule, u64, u64)>) -> Map<(Seq<char>, u64), u64>
    decreases s.len(),
{
    if s.len() == 0 {
        Map::empty()
    } else {
        entries_map(s.drop_last()).insert(entry_key(s.last()), s.last().2)
    }
}

/// Entries from position `n` on do not have key `k`: the map agrees with that of the first `n`.
proof fn lemma_entries_prefix(s: Seq<(IdentifierModule, u64, u64)>, k: (Seq<char>, u64), n: int)
    requires
        0 <= n <= s.len(),
        forall|j: int| n <= j < s.len() ==> entry_key(#[trigger] s[j]) != k,
    ensures
        entries_map(s).contains_key(k) == entries_map(s.take(n)).contains_key(k),
        entries_map(s).contains_key(k) ==> entries_map(s)[k] == entries_map(s.take(n))[k],
    decreases s.len() - n,
{
    if n < s.len() {
        assert(s.drop_last().take(n) =~= s.take(n));
        lemma_entries_prefix(s.drop_last(), k, n);
    } else {
        assert(s.take(n) =~= s);
    }
}

/// Entries with the same keys and values build the same map.
proof fn lemma_entries_same(a: Seq<(IdentifierModule, u64, u64)>, b: Seq<(IdentifierModule, u64, u64)>, n: nat)
    requires
        a.len() == b.len(),
        n <= a.len(),
        forall|j: int| 0 <= j < a.len() ==> entry_key(#[trigger] a[j]) == entry_key(b[j]) && a[j].2 == b[j].2,
    ensures
        entries_map(a.take(n as int)) == entries_map(b.take(n as int)),
    decreases n,
{
    if n > 0 {
        lemma_entries_same(a, b, (n - 1) as nat);
        assert(a.take(n as int).drop_last() =~= a.take(n - 1));
        assert(b.take(n as int).drop_last() =~= b.take(n - 1));
    }
    if n == a.len() {
        assert(a.take(n as int) =~= a);
        assert(b.take(n as int) =~= b);
    }
}

/// An old-to-new map of identifiers, for one kind of item.
#[derive(Debug)]
pub struct IdMap {
    entries: Vec<(IdentifierModule, u64, u64)>,
}

impl View for IdMap {
    type V = Map<(Seq<char>, u64), u64>;

    closed spec fn view(&self) -> Map<(Seq<char>, u64), u64> {
        entries_map(self.entries@)
    }
}

impl IdMap {
    /// The empty map.
    pub fn new() -> (r: Self)
        ensures
            r@ == Map::<(Seq<char>, u64), u64>::empty(),
    {
        IdMap { entries: Vec::new() }
    }

    /// Maps item `old` of `module` to `new`, replacing what it was mapped to.
    pub fn insert(&mut self, module: IdentifierModule, old_id: Identifier<Old>, new_id: Identifier<New>)
        ensures
            final(self)@ == old(self)@.insert((module@, old_id.id), new_id.id),
    {
        let ghost before = self.entries@;
        self.entries.push((module, old_id.id, new_id.id));
        assert(self.entries@.drop_last() =~= before);
    }

    /// A copy of the map.
    pub fn duplicate(&self) -> (r: Self)
        ensures
            r@ == self@,
    {
        let mut entries: Vec<(IdentifierModule, u64, u64)> = Vec::new();
        let mut i: usize = 0;
        while i < self.entries.len()
            invariant
                i <= self.entries@.len(),
                entries@.len() == i,
                forall|j: int| 0 <= j < i ==> entry_key(#[trigger] entries@[j]) == entry_key(self.entries@[j])
                    && entries@[j].2 == self.entries@[j].2,
            decreases self.entries@.len() - i,
        {
            let e = &self.entries[i];
            entries.push((e.0.duplicate(), e.1, e.2));
            i = i + 1;
        }
        proof {
            lemma_entries_same(entries@, self.entries@, entries@.len() as nat);
            assert(entries@.take(entries@.len() as int) =~= entries@);
            assert(self.entries@.take(entries@.len() as int) =~= self.entries@);
        }
        IdMap { entries }
    }

    /// What item `old` of `module` is mapped to, if anything.
    pub fn get(&self, module: &IdentifierModule, old_id: Identifier<Old>) -> (r: Option<Identifier<New>>)
        ensures
            r is Some <==> self@.contains_key((module@, old_id.id)),
            r matches Some(n) ==> n.id == self@[(module@, old_id.id)],
    {
        let ghost k = (module@, old_id.id);
        let mut i: usize = self.entries.len();
        while i > 0
            invariant
                i <= self.entries@.len(),
                k == (module@, old_id.id),
                forall|j: int| i <= j < self.entries@.len() ==> entry_key(#[trigger] self.entries@[j]) != k,
            decreases i,
        {
            let e = &self.entries[i - 1];
            if e.1 == old_id.id && module.same(&e.0) {
                proof {
                    let s = self.entries@;
                    lemma_entries_prefix(s, k, i as int);
                    assert(s.take(i as int).drop_last() =~= s.take(i - 1));
                    assert(s.take(i as int).last() == s[i - 1]);
                    assert(entry_key(s[i - 1]) == k);
                    assert(entries_map(s.take(i as int)) == entries_map(s.take(i - 1)).insert(k, s[i - 1].2));
                }
                return Some(Identifier::new(e.2));
            }
            i = i - 1;
        }
        proof {
            let s = self.entries@;
            lemma_entries_prefix(s, k, 0);
            assert(s.take(0) =~= Seq::<(IdentifierModule, u64, u64)>::empty());
        }
        None
    }

    /// Whether item `old` of `module` is mapped.
    pub fn contains_key(&self, module: &IdentifierModule, old_id: Identifier<Old>) -> (r: bool)
        ensures
            r == self@.contains_key((module@, old_id.id)),
    {
        self.get(module, old_id).is_some()
    }
}

/// Where the items of each kind went.
#[derive(Debug)]
pub struct Mapping {
    pub tables: IdMap,
    pub globals: IdMap,
    pub memories: IdMap,
    pub datas: IdMap,
    pub elements: IdMap,
    pub funcs: IdMap,
    pub locals: IdMap,
}

impl Mapping {
    /// Nothing mapped yet.
    pub fn new() -> (r: Self)
        ensures
            r.tables@ == Map::<(Seq<char>, u64), u64>::empty(),
            r.globals@ == Map::<(Seq<char>, u64), u64>::empty(),
            r.memories@ == Map::<(Seq<char>, u64), u64>::empty(),
            r.datas@ == Map::<(Seq<char>, u64), u64>::empty(),
            r.elements@ == Map::<(Seq<char>, u64), u64>::empty(),
            r.funcs@ == Map::<(Seq<char>, u64), u64>::empty(),
            r.locals@ == Map::<(Seq<char>, u64), u64>::empty(),
    {
        Mapping {
            tables: IdMap::new(),
            globals: IdMap::new(),
            memories: IdMap::new(),
            datas: IdMap::new(),
            elements: IdMap::new(),
            funcs: IdMap::new(),
            locals: IdMap::new(),
        }
    }
}

} // verus!
