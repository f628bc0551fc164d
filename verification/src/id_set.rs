//! A set of ids.

use vstd::hash_map::StringHashMap;
use vstd::prelude::*;

verus! {

/// A set of ids.
pub struct IdSet {
    members: StringHashMap<bool>,
}

impl View for IdSet {
    type V = Set<Seq<char>>;

    closed spec fn view(&self) -> Set<Seq<char>> {
        self.members@.dom()
    }
}

impl IdSet {
    /// The empty set.
    pub fn new() -> (set: IdSet)
        ensures
            set@ == Set::<Seq<char>>::empty(),
    {
        let set: IdSet = IdSet { members: StringHashMap::new() };
        assert(set@ =~= Set::empty());
        set
    }

    /// Whether `id` is in the set.
    pub fn contains(&self, id: &str) -> (found: bool)
        ensures
            found == self@.contains(id@),
    {
        self.members.contains_key(id)
    }

    /// Puts `id` into the set; false where it already was in it.
    pub fn insert(&mut self, id: &str) -> (added: bool)
        ensures
            final(self)@ == old(self)@.insert(id@),
            added == !old(self)@.contains(id@),
    {
        let added: bool = !self.members.contains_key(id);
        self.members.insert(id.to_owned(), true);
        assert(self@ =~= old(self)@.insert(id@));
        added
    }
}

} // verus!
