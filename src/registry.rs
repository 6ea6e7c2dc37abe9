//! Conversion factors, units, and the registry of units and their aliases.
use crate::aliases::{with_aliases, AliasTable};
use crate::algorithm::{adjacent, graph_wf, symmetric};
use crate::error::Error;
use crate::idgen::IDGenerator;
use crate::text::{chars_of, push_char};
use std::collections::HashMap;
use vstd::prelude::*;
use vstd::std_specs::iter::IteratorSpec;

verus! {

/// The factor of an edge: a value in the source unit times `numerator`,
/// divided by `denominator`, is the value in the destination unit.
#[derive(Clone, Copy)]
pub struct Conversion<N> {
    pub numerator: N,
    pub denominator: N,
}

impl<N: Copy> Conversion<N> {
    /// The factor of the opposite edge: numerator and denominator swapped.
    pub open spec fn inverted(self) -> Self {
        Conversion { numerator: self.denominator, denominator: self.numerator }
    }

    pub fn new(numerator: N, denominator: N) -> (r: Self)
        ensures
            r.numerator == numerator,
            r.denominator == denominator,
    {
        Conversion { numerator, denominator }
    }

    pub fn inverse(&self) -> (r: Self)
        ensures
            r == self.inverted(),
    {
        Conversion { numerator: self.denominator, denominator: self.numerator }
    }
}

/// A node of the unit graph: its display name, its identifier, and the
/// factors of its edges, keyed by the identifier of the unit at the other end.
pub struct Unit<N> {
    name: String,
    id: usize,
    edges: HashMap<usize, Conversion<N>>,
}

impl<N: Copy> Unit<N> {
    pub closed spec fn name_view(&self) -> Seq<char> {
        self.name@
    }

    pub closed spec fn id_view(&self) -> usize {
        self.id
    }

    pub closed spec fn edges_view(&self) -> Map<usize, Conversion<N>> {
        self.edges@
    }

    /// A unit with no edges, under the next identifier of `gen`.
    pub fn new(name: String, gen: &mut IDGenerator) -> (r: Self)
        requires
            old(gen).wf(),
            old(gen).upcoming() < usize::MAX,
        ensures
            r.name_view() == name@,
            r.id_view() == old(gen).upcoming(),
            r.edges_view() == Map::<usize, Conversion<N>>::empty(),
            final(gen).wf(),
            final(gen).upcoming() == old(gen).upcoming() + 1,
            final(gen).floor() == old(gen).floor(),
    {
        Unit { name, id: gen.next(), edges: HashMap::new() }
    }

    /// Sets the factor of the edge to `other_id`.
    pub fn push_edge(&mut self, other_id: usize, conversion: Conversion<N>)
        ensures
            final(self).edges_view() == old(self).edges_view().insert(other_id, conversion),
            final(self).name_view() == old(self).name_view(),
            final(self).id_view() == old(self).id_view(),
    {
        self.edges.insert(other_id, conversion);
    }

    pub fn contains_edge_to(&self, goal_id: usize) -> (r: bool)
        ensures
            r == self.edges_view().contains_key(goal_id),
    {
        self.edges.contains_key(&goal_id)
    }

    /// The identifiers of the units this one has an edge to, each once.
    pub fn connected_ids(&self) -> (r: Vec<usize>)
        ensures
            r@.to_set() == self.edges_view().dom(),
            r@.no_duplicates(),
    {
        let mut ids: Vec<usize> = Vec::new();
        let ghost keys = vstd::std_specs::hash::spec_keys_iter(&self.edges).remaining();
        for k in it: self.edges.keys()
            invariant
                it.seq() == keys,
                ids@ == keys.take(it.index() as int).map_values(|r: &usize| *r),
        {
            ids.push(*k);
        }
        proof {
            let ks = keys.map_values(|r: &usize| *r);
            assert(ids@ == ks);
            assert(keys.unref() == ks);
        }
        ids
    }

    /// The factor of the edge to `other_id`, if there is one.
    pub fn convert(&self, other_id: usize) -> (r: Option<Conversion<N>>)
        ensures
            r == if self.edges_view().contains_key(other_id) {
                Some(self.edges_view()[other_id])
            } else {
                None
            },
    {
        match self.edges.get(&other_id) {
            Some(c) => Some(*c),
            None => None,
        }
    }

    /// Stores this unit in `graph` under its identifier.
    pub fn insert_into(self, graph: &mut HashMap<usize, Unit<N>>)
        ensures
            final(graph)@ == old(graph)@.insert(self.id_view(), self),
    {
        graph.insert(self.id, self);
    }

    pub fn get_id(&self) -> (r: usize)
        ensures
            r == self.id_view(),
    {
        self.id
    }

    pub fn get_name(&self) -> (r: &str)
        ensures
            r@ == self.name_view(),
    {
        self.name.as_str()
    }
}

/// The string `prefix`, then `name`, then a closing bracket.
fn labelled(prefix: &str, name: &String) -> (r: String)
    ensures
        r@ == prefix@ + name@ + seq![']'],
{
    let mut out = String::new();
    let p = chars_of(prefix);
    let n = chars_of(name.as_str());
    let mut i: usize = 0;
    while i < p.len()
        invariant
            i <= p.len(),
            p@ == prefix@,
            out@ == p@.take(i as int),
        decreases p.len() - i,
    {
        push_char(&mut out, p[i]);
        i = i + 1;
    }
    let mut j: usize = 0;
    while j < n.len()
        invariant
            j <= n.len(),
            n@ == name@,
            out@ == p@ + n@.take(j as int),
        decreases n.len() - j,
    {
        push_char(&mut out, n[j]);
        j = j + 1;
    }
    push_char(&mut out, ']');
    assert(p@.take(p.len() as int) == p@);
    assert(n@.take(n.len() as int) == n@);
    out
}

/// The identifiers of the three units made for a chemical formula.
#[derive(Clone, Copy, Debug, PartialEq, Eq)]
pub struct ChemicalUnits {
    pub moles: usize,
    pub grams: usize,
    pub particles: usize,
}

/// Every registered unit with its edges, and the alias table that names them.
///
/// Identifiers run from 0 up to `next_id()`, each held by exactly one unit.
/// Edges come in pairs: an edge from `a` to `b` has an edge from `b` to `a`
/// with the inverted factor, and no unit has an edge to itself.
pub struct Registry<N> {
    units: HashMap<usize, Unit<N>>,
    aliases: AliasTable,
    generator: IDGenerator,
}

impl<N: Copy> Registry<N> {
    pub closed spec fn units_view(&self) -> Map<usize, Unit<N>> {
        self.units@
    }

    pub closed spec fn aliases_view(&self) -> Map<Seq<char>, usize> {
        self.aliases@
    }

    /// The identifier that the next unit will get; also the number of units.
    pub closed spec fn next_id(&self) -> nat {
        self.generator.upcoming()
    }

    pub closed spec fn inner_wf(&self) -> bool {
        &&& self.generator.wf()
        &&& self.generator.floor() == 0
        &&& forall|id: usize| #[trigger]
            self.units@.contains_key(id) ==> self.units@[id].id_view() == id
    }

    pub open spec fn has_unit(&self, id: usize) -> bool {
        self.units_view().contains_key(id)
    }

    pub open spec fn name_of(&self, id: usize) -> Seq<char> {
        self.units_view()[id].name_view()
    }

    /// There is an edge from `a` to `b`.
    pub open spec fn linked(&self, a: usize, b: usize) -> bool {
        self.has_unit(a) && self.units_view()[a].edges_view().contains_key(b)
    }

    /// The factor of the edge from `a` to `b`.
    pub open spec fn conv(&self, a: usize, b: usize) -> Conversion<N> {
        self.units_view()[a].edges_view()[b]
    }

    pub open spec fn wf(&self) -> bool {
        &&& self.inner_wf()
        &&& forall|id: usize| #[trigger] self.has_unit(id) <==> id < self.next_id()
        &&& forall|a: usize, b: usize| #[trigger]
            self.linked(a, b) ==> a != b && self.linked(b, a) && self.conv(b, a) == self.conv(
                a,
                b,
            ).inverted()
        &&& forall|k: Seq<char>| #[trigger]
            self.aliases_view().contains_key(k) ==> self.aliases_view()[k] < self.next_id()
    }

    /// An empty registry, whose first unit gets identifier 0.
    pub fn new() -> (r: Self)
        ensures
            r.wf(),
            r.next_id() == 0,
            r.units_view() == Map::<usize, Unit<N>>::empty(),
            r.aliases_view() == Map::<Seq<char>, usize>::empty(),
    {
        Registry { units: HashMap::new(), aliases: AliasTable::new(), generator: IDGenerator::new(0) }
    }

    /// Forgets every unit and alias, and starts the identifiers from 0 again.
    pub fn clear(&mut self)
        requires
            old(self).wf(),
        ensures
            final(self).wf(),
            final(self).next_id() == 0,
            final(self).units_view() == Map::<usize, Unit<N>>::empty(),
            final(self).aliases_view() == Map::<Seq<char>, usize>::empty(),
    {
        self.units.clear();
        self.aliases.clear();
        self.generator.clear();
    }

    /// Registers a unit named by the first of `names`, with every name of
    /// `names` as an alias of it, and returns its identifier.
    pub fn create_unit(&mut self, names: &Vec<String>) -> (r: Result<usize, Error>)
        requires
            old(self).wf(),
            old(self).next_id() < usize::MAX,
        ensures
            final(self).wf(),
            names.len() == 0 ==> r == Err::<usize, Error>(Error::EmptyAliasList) && *final(self)
                == *old(self),
            names.len() > 0 ==> {
                &&& r == Ok::<usize, Error>(old(self).next_id() as usize)
                &&& final(self).next_id() == old(self).next_id() + 1
                &&& final(self).units_view() == old(self).units_view().insert(
                    old(self).next_id() as usize,
                    final(self).units_view()[old(self).next_id() as usize],
                )
                &&& final(self).name_of(old(self).next_id() as usize) == names@[0]@
                &&& final(self).units_view()[old(self).next_id() as usize].edges_view()
                    == Map::<usize, Conversion<N>>::empty()
                &&& final(self).aliases_view() == with_aliases(
                    old(self).aliases_view(),
                    names@,
                    old(self).next_id() as usize,
                )
            },
    {
        if names.len() == 0 {
            return Err(Error::EmptyAliasList);
        }
        let ghost old_self = *self;
        let unit = Unit::new(names[0].clone(), &mut self.generator);
        let id = unit.get_id();
        unit.insert_into(&mut self.units);
        self.aliases.insert_all(names, id);
        proof {
            assert forall|x: usize| #[trigger]
                self.units@.contains_key(x) implies self.units@[x].id_view() == x by {
                if x != id {
                    assert(old_self.units@.contains_key(x));
                }
            }
            assert forall|x: usize| #[trigger] self.has_unit(x) <==> x < self.next_id() by {
                assert(old_self.has_unit(x) <==> x < old_self.next_id());
            }
            assert forall|k: Seq<char>| #[trigger]
                self.aliases_view().contains_key(k) implies self.aliases_view()[k] < self.next_id() by {
                lemma_with_aliases_bounded(old_self.aliases_view(), names@, id, k, self.next_id());
            }
            assert forall|a: usize, b: usize| #[trigger] self.linked(a, b) implies a != b && self.linked(
                b,
                a,
            ) && self.conv(b, a) == self.conv(a, b).inverted() by {
                assert(a != id);
                assert(old_self.linked(a, b));
            }
        }
        Ok(id)
    }

    /// The identifier that `alias` names.
    pub fn lookup(&self, alias: &String) -> (r: Result<usize, Error>)
        ensures
            self.aliases_view().contains_key(alias@) ==> r == Ok::<usize, Error>(
                self.aliases_view()[alias@],
            ),
            !self.aliases_view().contains_key(alias@) ==> (r matches Err(Error::UnknownAlias(s))
                && s@ == alias@),
    {
        match self.aliases.get(alias) {
            Some(id) => Ok(id),
            None => Err(Error::UnknownAlias(alias.clone())),
        }
    }

    /// Installs the edge from the unit that `alias_a` names to the one that
    /// `alias_b` names with `factor`, and the opposite edge with its inverse.
    pub fn register_conversion(
        &mut self,
        alias_a: &String,
        alias_b: &String,
        factor: Conversion<N>,
    ) -> (r: Result<(), Error>)
        requires
            old(self).wf(),
        ensures
            final(self).wf(),
            conversion_registered(*old(self), *final(self), alias_a@, alias_b@, factor, r),
    {
        let a = match self.aliases.get(alias_a) {
            Some(a) => a,
            None => return Err(Error::UnknownAlias(alias_a.clone())),
        };
        let b = match self.aliases.get(alias_b) {
            Some(b) => b,
            None => return Err(Error::UnknownAlias(alias_b.clone())),
        };
        if a == b {
            return Err(Error::SelfConversion);
        }
        let ghost old_self = *self;
        assert(self.aliases_view().contains_key(alias_a@) && self.aliases_view().contains_key(alias_b@));
        assert(self.has_unit(a) && self.has_unit(b));
        let mut unit_a = self.units.remove(&a).unwrap();
        let mut unit_b = self.units.remove(&b).unwrap();
        unit_b.push_edge(a, factor.inverse());
        unit_a.push_edge(b, factor);
        unit_a.insert_into(&mut self.units);
        unit_b.insert_into(&mut self.units);
        proof {
            assert forall|x: usize| #[trigger]
                self.units@.contains_key(x) implies self.units@[x].id_view() == x by {
                assert(old_self.units@.contains_key(x));
            }
            assert forall|x: usize| #[trigger] self.has_unit(x) <==> x < self.next_id() by {
                assert(old_self.has_unit(x) <==> x < self.next_id());
            }
            assert forall|x: usize, y: usize| #[trigger] self.linked(x, y) implies x != y && self.linked(
                y,
                x,
            ) && self.conv(y, x) == self.conv(x, y).inverted() by {
                if (x == a && y == b) || (x == b && y == a) {
                } else {
                    assert(old_self.linked(x, y));
                    assert(old_self.linked(y, x));
                }
            }
        }
        Ok(())
    }

    /// Every unit as (identifier, name), by increasing identifier.
    pub fn list_units(&self) -> (r: Vec<(usize, String)>)
        requires
            self.wf(),
        ensures
            r.len() == self.next_id(),
            forall|i: int| 0 <= i < r.len() ==> (#[trigger] r@[i]).0 == i && r@[i].1@ == self.name_of(
                i as usize,
            ),
    {
        let n = self.generator.peek();
        let mut out: Vec<(usize, String)> = Vec::new();
        let mut id: usize = 0;
        while id < n
            invariant
                self.wf(),
                n == self.next_id(),
                id <= n,
                out.len() == id,
                forall|i: int| 0 <= i < out.len() ==> (#[trigger] out@[i]).0 == i && out@[i].1@
                    == self.name_of(i as usize),
            decreases n - id,
        {
            assert(self.has_unit(id));
            let unit = self.units.get(&id).unwrap();
            out.push((id, unit.name.clone()));
            id = id + 1;
        }
        out
    }

    /// The adjacency lists of the unit graph: entry `id` lists the units that
    /// unit `id` has an edge to.
    pub fn generate_graph(&self) -> (g: Vec<Vec<usize>>)
        requires
            self.wf(),
        ensures
            g.len() == self.next_id(),
            graph_wf(g@),
            symmetric(g@),
            forall|a: usize, b: usize| #[trigger] adjacent(g@, a, b) <==> self.linked(a, b),
    {
        let n = self.generator.peek();
        let mut g: Vec<Vec<usize>> = Vec::new();
        let mut id: usize = 0;
        while id < n
            invariant
                self.wf(),
                n == self.next_id(),
                id <= n,
                g.len() == id,
                forall|u: int| 0 <= u < id ==> (#[trigger] g@[u])@.to_set() == self.units_view()[u as usize].edges_view().dom(),
            decreases n - id,
        {
            assert(self.has_unit(id));
            let unit = self.units.get(&id).unwrap();
            g.push(unit.connected_ids());
            id = id + 1;
        }
        proof {
            assert forall|a: usize, b: usize| #[trigger] adjacent(g@, a, b) <==> self.linked(a, b) by {
                if a < g.len() {
                    assert(g@[a as int]@.contains(b) <==> g@[a as int]@.to_set().contains(b));
                } else {
                    assert(!self.has_unit(a));
                }
            }
            assert forall|u: int, k: int| 0 <= u < g.len() && 0 <= k < g@[u]@.len() implies #[trigger] g@[u]@[k] < g.len() by {
                let b = g@[u]@[k];
                assert(g@[u]@.to_set().contains(b));
                assert(self.linked(u as usize, b));
                assert(self.linked(b, u as usize));
            }
            assert forall|a: usize, b: usize| #[trigger] adjacent(g@, a, b) implies adjacent(g@, b, a) by {
                assert(self.linked(a, b));
            }
        }
        g
    }

    pub fn aliases(&self) -> (r: &AliasTable)
        ensures
            r@ == self.aliases_view(),
    {
        &self.aliases
    }

    /// The unit with identifier `id`, if there is one.
    pub fn get_unit(&self, id: usize) -> (r: Option<&Unit<N>>)
        ensures
            match r {
                Some(u) => self.has_unit(id) && *u == self.units_view()[id],
                None => !self.has_unit(id),
            },
    {
        self.units.get(&id)
    }

    /// The factor of the edge from `a` to `b`, if there is such an edge.
    pub fn conversion_between(&self, a: usize, b: usize) -> (r: Option<Conversion<N>>)
        ensures
            r == if self.linked(a, b) {
                Some(self.conv(a, b))
            } else {
                None
            },
    {
        match self.units.get(&a) {
            Some(u) => u.convert(b),
            None => None,
        }
    }

    /// Adds the units "moles[name]", "grams[name]" and "particles[name]"
    /// for a chemical formula, with edges from moles to grams and from moles
    /// to particles (and back), and returns their identifiers.
    pub fn insert_chemical_units(
        &mut self,
        name: &String,
        moles_to_grams: Conversion<N>,
        moles_to_particles: Conversion<N>,
    ) -> (r: ChemicalUnits)
        requires
            old(self).wf(),
            old(self).next_id() + 3 <= usize::MAX,
        ensures
            final(self).wf(),
            r.moles == old(self).next_id(),
            r.grams == old(self).next_id() + 1,
            r.particles == old(self).next_id() + 2,
            final(self).next_id() == old(self).next_id() + 3,
            final(self).aliases_view() == old(self).aliases_view(),
            forall|x: usize| #[trigger]
                old(self).has_unit(x) ==> final(self).units_view()[x] == old(self).units_view()[x],
            final(self).name_of(r.moles) == "moles["@ + name@ + seq![']'],
            final(self).name_of(r.grams) == "grams["@ + name@ + seq![']'],
            final(self).name_of(r.particles) == "particles["@ + name@ + seq![']'],
            final(self).units_view()[r.moles].edges_view() == Map::<usize, Conversion<N>>::empty().insert(
                r.grams,
                moles_to_grams,
            ).insert(r.particles, moles_to_particles),
            final(self).units_view()[r.grams].edges_view() == Map::<usize, Conversion<N>>::empty().insert(
                r.moles,
                moles_to_grams.inverted(),
            ),
            final(self).units_view()[r.particles].edges_view() == Map::<
                usize,
                Conversion<N>,
            >::empty().insert(r.moles, moles_to_particles.inverted()),
    {
        let ghost old_self = *self;
        let mut moles = Unit::new(labelled("moles[", name), &mut self.generator);
        let mut grams = Unit::new(labelled("grams[", name), &mut self.generator);
        let mut particles = Unit::new(labelled("particles[", name), &mut self.generator);
        let ids = ChemicalUnits { moles: moles.get_id(), grams: grams.get_id(), particles: particles.get_id() };
        grams.push_edge(ids.moles, moles_to_grams.inverse());
        particles.push_edge(ids.moles, moles_to_particles.inverse());
        moles.push_edge(ids.grams, moles_to_grams);
        moles.push_edge(ids.particles, moles_to_particles);
        moles.insert_into(&mut self.units);
        grams.insert_into(&mut self.units);
        particles.insert_into(&mut self.units);
        proof {
            assert forall|x: usize| #[trigger]
                self.units@.contains_key(x) implies self.units@[x].id_view() == x by {
                if x < old_self.next_id() {
                    assert(old_self.has_unit(x));
                }
            }
            assert forall|x: usize| #[trigger] self.has_unit(x) <==> x < self.next_id() by {
                assert(old_self.has_unit(x) <==> x < old_self.next_id());
            }
            assert forall|x: usize, y: usize| #[trigger] self.linked(x, y) implies x != y && self.linked(
                y,
                x,
            ) && self.conv(y, x) == self.conv(x, y).inverted() by {
                if x < old_self.next_id() {
                    assert(old_self.linked(x, y));
                    assert(old_self.linked(y, x));
                    assert(y < old_self.next_id());
                }
            }
            assert forall|k: Seq<char>| #[trigger]
                self.aliases_view().contains_key(k) implies self.aliases_view()[k] < self.next_id() by {
                assert(old_self.aliases_view().contains_key(k));
            }
        }
        ids
    }
}

/// What registering a conversion from the unit named `a` to the one named
/// `b` with `factor` does: an error leaves the registry as it was; success
/// sets the factor of the edge from `a` to `b`, and its inverse on the edge
/// back, and changes nothing else.
pub open spec fn conversion_registered<N: Copy>(
    before: Registry<N>,
    after: Registry<N>,
    a: Seq<char>,
    b: Seq<char>,
    factor: Conversion<N>,
    r: Result<(), Error>,
) -> bool {
    &&& r.is_err() ==> after == before
    &&& !before.aliases_view().contains_key(a) ==> (r matches Err(Error::UnknownAlias(s)) && s@ == a)
    &&& before.aliases_view().contains_key(a) && !before.aliases_view().contains_key(b) ==> (r matches Err(
        Error::UnknownAlias(s),
    ) && s@ == b)
    &&& before.aliases_view().contains_key(a) && before.aliases_view().contains_key(b) ==> {
        let x = before.aliases_view()[a];
        let y = before.aliases_view()[b];
        &&& x == y ==> (r matches Err(Error::SelfConversion))
        &&& x != y ==> {
            &&& r is Ok
            &&& after.linked(x, y)
            &&& after.conv(x, y) == factor
            &&& after.conv(y, x) == factor.inverted()
            &&& after.next_id() == before.next_id()
            &&& after.aliases_view() == before.aliases_view()
            &&& forall|u: usize| #[trigger] after.has_unit(u) ==> after.name_of(u) == before.name_of(u)
            &&& forall|u: usize, v: usize|
                !((u == x && v == y) || (u == y && v == x)) ==> (#[trigger] after.linked(u, v)
                    == before.linked(u, v) && after.conv(u, v) == before.conv(u, v))
        }
    }
}

proof fn lemma_with_aliases_bounded(
    m: Map<Seq<char>, usize>,
    names: Seq<String>,
    id: usize,
    k: Seq<char>,
    bound: nat,
)
    requires
        forall|j: Seq<char>| #[trigger] m.contains_key(j) ==> m[j] < bound,
        id < bound,
        with_aliases(m, names, id).contains_key(k),
    ensures
        with_aliases(m, names, id)[k] < bound,
    decreases names.len(),
{
    if names.len() > 0 && names.last()@ != k {
        lemma_with_aliases_bounded(m, names.drop_last(), id, k, bound);
    }
}

} // verus!
