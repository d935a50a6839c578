//! Tables of names.

use vstd::prelude::*;

verus! {

/// What a table holds for a name: the last entry of the name counts.
pub open spec fn lookup<V>(table: Seq<(Seq<char>, V)>, name: Seq<char>) -> Option<V>
    decreases table.len(),
{
    if table.len() == 0 {
        None
    } else if table.last().0 == name {
        Some(table.last().1)
    } else {
        lookup(table.drop_last(), name)
    }
}

/// A table of names. Its view is the list of the entries, in the order of their insertion.
pub struct NameMap<V> {
    pairs: Vec<(String, V)>,
}

impl<V: View> View for NameMap<V> {
    type V = Seq<(Seq<char>, V::V)>;

    closed spec fn view(&self) -> Seq<(Seq<char>, V::V)> {
        self.pairs@.map_values(|pair: (String, V)| (pair.0@, pair.1@))
    }
}

/// A name that is found is the name of an entry.
pub proof fn lemma_lookup_found<V>(table: Seq<(Seq<char>, V)>, name: Seq<char>) -> (i: int)
    requires
        lookup(table, name) is Some,
    ensures
        0 <= i < table.len(),
        table[i].0 == name,
        lookup(table, name) == Some(table[i].1),
    decreases table.len(),
{
    if table.last().0 == name {
        table.len() - 1
    } else {
        lemma_lookup_found(table.drop_last(), name)
    }
}

impl<V: View> NameMap<V> {
    /// An empty table.
    pub fn new() -> (r: Self)
        ensures
            r@ == Seq::<(Seq<char>, V::V)>::empty(),
    {
        let r = NameMap { pairs: Vec::new() };
        assert(r@ =~= Seq::empty());
        r
    }

    /// Gives a name a value, in place of the one that it had before.
    pub fn insert(&mut self, name: String, value: V)
        ensures
            final(self)@ == old(self)@.push((name@, value@)),
    {
        self.pairs.push((name, value));
        assert(self@ =~= old(self)@.push((name@, value@)));
    }

    /// The value of a name.
    pub fn get(&self, name: &String) -> (r: Option<&V>)
        ensures
            match r {
                Some(value) => lookup(self@, name@) == Some(value@),
                None => lookup(self@, name@) is None,
            },
    {
        let ghost table = self@;
        let mut i: usize = self.pairs.len();
        assert(table.take(i as int) =~= table);
        while i > 0
            invariant
                i <= self.pairs@.len(),
                table == self@,
                lookup(table, name@) == lookup(table.take(i as int), name@),
            decreases i,
        {
            assert(table.take(i as int).drop_last() =~= table.take(i - 1));
            if self.pairs[i - 1].0 == *name {
                return Some(&self.pairs[i - 1].1);
            }
            i -= 1;
        }
        None
    }

    /// The number of entries.
    pub fn len(&self) -> (r: usize)
        ensures
            r == self@.len(),
    {
        self.pairs.len()
    }

    /// The value of the entry at a position.
    pub fn value_at(&self, i: usize) -> (r: &V)
        requires
            i < self@.len(),
        ensures
            r@ == self@[i as int].1,
    {
        &self.pairs[i].1
    }

    /// Whether the table has a value for a name.
    pub fn contains(&self, name: &String) -> (r: bool)
        ensures
            r == lookup(self@, name@) is Some,
    {
        self.get(name).is_some()
    }
}

} // verus!
