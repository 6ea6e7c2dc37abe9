//! Tables from text aliases to identifiers.
use vstd::prelude::*;

verus! {

/// The map that a list of (alias, id) registrations describes: a later
/// registration of an alias overrides an earlier one.
pub open spec fn alias_map(entries: Seq<(String, usize)>) -> Map<Seq<char>, usize>
    decreases entries.len(),
{
    if entries.len() == 0 {
        Map::empty()
    } else {
        alias_map(entries.drop_last()).insert(entries.last().0@, entries.last().1)
    }
}

/// `m` after registering each of `names`, in order, for `id`.
pub open spec fn with_aliases(m: Map<Seq<char>, usize>, names: Seq<String>, id: usize) -> Map<
    Seq<char>,
    usize,
>
    decreases names.len(),
{
    if names.len() == 0 {
        m
    } else {
        with_aliases(m, names.drop_last(), id).insert(names.last()@, id)
    }
}

/// A many-to-one table from text aliases to identifiers.
pub struct AliasTable {
    entries: Vec<(String, usize)>,
}

impl View for AliasTable {
    type V = Map<Seq<char>, usize>;

    closed spec fn view(&self) -> Map<Seq<char>, usize> {
        alias_map(self.entries@)
    }
}

impl AliasTable {
    pub fn new() -> (r: Self)
        ensures
            r@ == Map::<Seq<char>, usize>::empty(),
    {
        AliasTable { entries: Vec::new() }
    }

    /// Points `alias` at `id`, replacing what it pointed at before.
    pub fn insert(&mut self, alias: String, id: usize)
        ensures
            final(self)@ == old(self)@.insert(alias@, id),
    {
        let ghost before = self.entries@;
        self.entries.push((alias, id));
        assert(self.entries@.drop_last() == before);
    }

    /// Points each of `names`, in order, at `id`.
    pub fn insert_all(&mut self, names: &Vec<String>, id: usize)
        ensures
            final(self)@ == with_aliases(old(self)@, names@, id),
    {
        let mut i: usize = 0;
        while i < names.len()
            invariant
                i <= names.len(),
                self@ == with_aliases(old(self)@, names@.take(i as int), id),
            decreases names.len() - i,
        {
            assert(names@.take(i + 1).drop_last() == names@.take(i as int));
            self.insert(names[i].clone(), id);
            i = i + 1;
        }
        assert(names@.take(i as int) == names@);
    }

    pub fn get(&self, alias: &String) -> (r: Option<usize>)
        ensures
            r == if self@.contains_key(alias@) {
                Some(self@[alias@])
            } else {
                None
            },
    {
        let mut i = self.entries.len();
        assert(self.entries@.take(i as int) == self.entries@);
        while i > 0
            invariant
                i <= self.entries.len(),
                alias_map(self.entries@).contains_key(alias@) == alias_map(
                    self.entries@.take(i as int),
                ).contains_key(alias@),
                alias_map(self.entries@)[alias@] == alias_map(self.entries@.take(i as int))[alias@],
            decreases i,
        {
            assert(self.entries@.take(i as int).drop_last() == self.entries@.take(i - 1));
            if self.entries[i - 1].0 == *alias {
                return Some(self.entries[i - 1].1);
            }
            i = i - 1;
        }
        None
    }

    /// A table with the same aliases.
    pub fn duplicate(&self) -> (r: Self)
        ensures
            r@ == self@,
    {
        let mut entries: Vec<(String, usize)> = Vec::new();
        let mut i: usize = 0;
        while i < self.entries.len()
            invariant
                i <= self.entries.len(),
                entries@ == self.entries@.take(i as int),
            decreases self.entries.len() - i,
        {
            let name = self.entries[i].0.clone();
            entries.push((name, self.entries[i].1));
            i = i + 1;
        }
        assert(self.entries@.take(i as int) == self.entries@);
        AliasTable { entries }
    }

    pub fn clear(&mut self)
        ensures
            final(self)@ == Map::<Seq<char>, usize>::empty(),
    {
        self.entries.clear();
    }
}

} // verus!
