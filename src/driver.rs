//! Turning a conversion request into the steps that perform it, loading
//! definitions, and the laws that conversions obey.
use crate::algorithm::{
    adjacent, find_paths_between, is_shortest_walk, lemma_matching_none, lemma_same_edges,
    lemma_shortest_walk_symmetric, matching, walk_between,
    reachable, symmetric,
};
use crate::error::Error;
use crate::parse::{
    clause, clauses, extract_value_and_units, fault_matches, next_stop, parse_conversion,
    request_of, unit_token, Request, RequestModel, Side, conversion_line,
};
use crate::aliases::with_aliases;
use crate::registry::{conversion_registered, ChemicalUnits, Conversion, Registry};
use vstd::prelude::*;

verus! {

/// One elementary conversion, as the fraction `top / bottom` that the value
/// is multiplied by, with the unit of each part.
#[derive(Clone, Copy)]
pub struct Step<N> {
    pub top_value: N,
    pub top_id: usize,
    pub bottom_value: N,
    pub bottom_id: usize,
}

/// The step that applies `c` to go from unit `from` to unit `to`.
pub open spec fn step_of<N>(c: Conversion<N>, from: usize, to: usize) -> Step<N> {
    Step { top_value: c.numerator, top_id: to, bottom_value: c.denominator, bottom_id: from }
}

impl<N: Copy> Step<N> {
    pub fn of(conversion: &Conversion<N>, from_id: usize, to_id: usize) -> (r: Self)
        ensures
            r == step_of(*conversion, from_id, to_id),
    {
        Step {
            top_value: conversion.numerator,
            bottom_value: conversion.denominator,
            top_id: to_id,
            bottom_id: from_id,
        }
    }

    /// The value of the top of the fraction and the name of its unit.
    pub fn get_top(&self, units: &Registry<N>) -> (r: Option<(N, String)>)
        ensures
            match r {
                Some((v, s)) => units.has_unit(self.top_id) && v == self.top_value && s@
                    == units.name_of(self.top_id),
                None => !units.has_unit(self.top_id),
            },
    {
        match units.get_unit(self.top_id) {
            Some(u) => Some((self.top_value, u.get_name().to_owned())),
            None => None,
        }
    }

    /// The value of the bottom of the fraction and the name of its unit.
    pub fn get_bottom(&self, units: &Registry<N>) -> (r: Option<(N, String)>)
        ensures
            match r {
                Some((v, s)) => units.has_unit(self.bottom_id) && v == self.bottom_value && s@
                    == units.name_of(self.bottom_id),
                None => !units.has_unit(self.bottom_id),
            },
    {
        match units.get_unit(self.bottom_id) {
            Some(u) => Some((self.bottom_value, u.get_name().to_owned())),
            None => None,
        }
    }
}

/// The step for the edge from `a` to `b` of a path. A path of the
/// denominators is walked with inverted factors, and its step is recorded
/// from `b` to `a`.
pub open spec fn edge_step<N: Copy>(reg: Registry<N>, a: usize, b: usize, inverse: bool) -> Step<N> {
    if inverse {
        step_of(reg.conv(a, b).inverted(), b, a)
    } else {
        step_of(reg.conv(a, b), a, b)
    }
}

/// The steps along a path, one for each of its edges.
pub open spec fn path_steps<N: Copy>(reg: Registry<N>, p: Seq<usize>, inverse: bool) -> Seq<Step<N>> {
    if p.len() == 0 {
        Seq::empty()
    } else {
        Seq::new((p.len() - 1) as nat, |i: int| edge_step(reg, p[i], p[i + 1], inverse))
    }
}

/// The steps along each of `paths`, in order.
pub open spec fn paths_steps<N: Copy>(reg: Registry<N>, paths: Seq<Seq<usize>>, inverse: bool) -> Seq<
    Step<N>,
>
    decreases paths.len(),
{
    if paths.len() == 0 {
        Seq::empty()
    } else {
        paths_steps(reg, paths.drop_last(), inverse) + path_steps(reg, paths.last(), inverse)
    }
}

/// `g` is an adjacency list of the unit graph of `reg`.
pub open spec fn represents<N: Copy>(g: Seq<Vec<usize>>, reg: Registry<N>) -> bool {
    &&& g.len() == reg.next_id()
    &&& forall|a: usize, b: usize| #[trigger] adjacent(g, a, b) <==> reg.linked(a, b)
}

/// `paths` holds one shortest walk for each (start, end) pair of `pairs`.
pub open spec fn routes(g: Seq<Vec<usize>>, paths: Seq<Seq<usize>>, pairs: Seq<(usize, usize)>) -> bool {
    &&& paths.len() == pairs.len()
    &&& forall|i: int|
        0 <= i < paths.len() ==> is_shortest_walk(g, #[trigger] paths[i], pairs[i].0, pairs[i].1)
}

pub open spec fn no_units<N>(m: RequestModel<N>) -> bool {
    m.starting_numers.len() == 0 && m.starting_denoms.len() == 0 && m.ending_numers.len() == 0
        && m.ending_denoms.len() == 0
}

/// What a conversion with the numerator paths `np` and the denominator paths
/// `dp` gives: its steps, unless there are none and either the request names
/// no unit or some starting unit found no ending unit.
pub open spec fn outcome_of<N: Copy>(
    reg: Registry<N>,
    m: RequestModel<N>,
    np: Seq<Seq<usize>>,
    dp: Seq<Seq<usize>>,
    r: Result<Vec<Step<N>>, Error>,
) -> bool {
    let steps = paths_steps(reg, np, false) + paths_steps(reg, dp, true);
    if steps.len() == 0 && (no_units(m) || np.len() < m.starting_numers.len() || dp.len()
        < m.starting_denoms.len()) {
        r matches Err(Error::ImpossibleConversion)
    } else {
        r matches Ok(v) && v@ == steps
    }
}

/// What converting the request `m` in `reg` gives: the two sides must have
/// as many numerator units, and as many denominator units; then each side's
/// units are matched one to one through shortest paths. Any adjacency list of
/// the unit graph gives the same matchings and shortest walks
/// (`lemma_same_edges`).
pub open spec fn plan_outcome<N: Copy>(
    reg: Registry<N>,
    m: RequestModel<N>,
    r: Result<Vec<Step<N>>, Error>,
) -> bool {
    if m.starting_numers.len() != m.ending_numers.len() || m.starting_denoms.len()
        != m.ending_denoms.len() {
        r matches Err(Error::MismatchedQuantityShape)
    } else {
        exists|g: Seq<Vec<usize>>, np: Seq<Seq<usize>>, dp: Seq<Seq<usize>>|
            represents(g, reg) && #[trigger] routes(g, np, matching(g, m.starting_numers, m.ending_numers))
                && #[trigger] routes(g, dp, matching(g, m.starting_denoms, m.ending_denoms))
                && outcome_of(reg, m, np, dp, r)
    }
}

pub open spec fn seq_below(s: Seq<usize>, n: nat) -> bool {
    forall|i: int| 0 <= i < s.len() ==> #[trigger] s[i] < n
}

/// Every unit a request names is below `n`.
pub open spec fn ids_below<N>(m: RequestModel<N>, n: nat) -> bool {
    &&& seq_below(m.starting_numers, n)
    &&& seq_below(m.starting_denoms, n)
    &&& seq_below(m.ending_numers, n)
    &&& seq_below(m.ending_denoms, n)
}

fn add_steps<N: Copy>(path: &Vec<usize>, registry: &Registry<N>, inverse: bool, steps: &mut Vec<Step<N>>)
    requires
        registry.wf(),
        forall|i: int| 0 <= i < path.len() - 1 ==> #[trigger] registry.linked(path@[i], path@[i + 1]),
    ensures
        final(steps)@ == old(steps)@ + path_steps(*registry, path@, inverse),
{
    if path.len() == 0 {
        assert(old(steps)@ + Seq::<Step<N>>::empty() == old(steps)@);
        return;
    }
    let mut k: usize = 0;
    while k + 1 < path.len()
        invariant
            registry.wf(),
            k < path.len(),
            forall|i: int| 0 <= i < path.len() - 1 ==> #[trigger] registry.linked(path@[i], path@[i + 1]),
            steps@ == old(steps)@ + path_steps(*registry, path@, inverse).take(k as int),
        decreases path.len() - k,
    {
        let a = path[k];
        let b = path[k + 1];
        assert(registry.linked(path@[k as int], path@[k + 1]));
        let conversion = registry.conversion_between(a, b).unwrap();
        if inverse {
            steps.push(Step::of(&conversion.inverse(), b, a));
        } else {
            steps.push(Step::of(&conversion, a, b));
        }
        assert(path_steps(*registry, path@, inverse).take(k + 1) == path_steps(
            *registry,
            path@,
            inverse,
        ).take(k as int).push(edge_step(*registry, a, b, inverse)));
        k = k + 1;
    }
    assert(path_steps(*registry, path@, inverse).take(k as int) == path_steps(*registry, path@, inverse));
}

pub open spec fn paths_view(paths: Seq<Vec<usize>>) -> Seq<Seq<usize>> {
    paths.map_values(|p: Vec<usize>| p@)
}

fn add_paths<N: Copy>(
    paths: &Vec<Vec<usize>>,
    registry: &Registry<N>,
    inverse: bool,
    steps: &mut Vec<Step<N>>,
)
    requires
        registry.wf(),
        forall|j: int, i: int|
            0 <= j < paths.len() && 0 <= i < paths@[j].len() - 1 ==> #[trigger] registry.linked(
                paths@[j]@[i],
                paths@[j]@[i + 1],
            ),
    ensures
        final(steps)@ == old(steps)@ + paths_steps(*registry, paths_view(paths@), inverse),
{
    let mut j: usize = 0;
    while j < paths.len()
        invariant
            registry.wf(),
            j <= paths.len(),
            forall|j: int, i: int|
                0 <= j < paths.len() && 0 <= i < paths@[j].len() - 1 ==> #[trigger] registry.linked(
                    paths@[j]@[i],
                    paths@[j]@[i + 1],
                ),
            steps@ == old(steps)@ + paths_steps(*registry, paths_view(paths@).take(j as int), inverse),
        decreases paths.len() - j,
    {
        assert forall|i: int| 0 <= i < paths@[j as int].len() - 1 implies #[trigger] registry.linked(
            paths@[j as int]@[i],
            paths@[j as int]@[i + 1],
        ) by {}
        add_steps(&paths[j], registry, inverse, steps);
        assert(paths_view(paths@).take(j + 1).drop_last() == paths_view(paths@).take(j as int));
        j = j + 1;
    }
    assert(paths_view(paths@).take(j as int) == paths_view(paths@));
}

/// Works out the steps that convert the starting quantity of `request` into
/// its ending quantity, as `plan_outcome` describes.
pub fn plan_conversion<N: Copy>(registry: &Registry<N>, request: &Request<N>) -> (r: Result<
    Vec<Step<N>>,
    Error,
>)
    requires
        registry.wf(),
        ids_below(request@, registry.next_id()),
    ensures
        plan_outcome(*registry, request@, r),
{
    if request.starting_numers.len() != request.ending_numers.len() || request.starting_denoms.len()
        != request.ending_denoms.len() {
        return Err(Error::MismatchedQuantityShape);
    }
    let graph = registry.generate_graph();
    let num_paths = find_paths_between(&request.starting_numers, &request.ending_numers, &graph);
    let den_paths = find_paths_between(&request.starting_denoms, &request.ending_denoms, &graph);
    let ghost np = paths_view(num_paths@);
    let ghost dp = paths_view(den_paths@);
    proof {
        let num_pairs = matching(graph@, request.starting_numers@, request.ending_numers@);
        let den_pairs = matching(graph@, request.starting_denoms@, request.ending_denoms@);
        assert forall|j: int, i: int|
            0 <= j < num_paths.len() && 0 <= i < num_paths@[j].len() - 1 implies #[trigger] registry.linked(
            num_paths@[j]@[i],
            num_paths@[j]@[i + 1],
        ) by {
            assert(is_shortest_walk(graph@, num_paths@[j]@, num_pairs[j].0, num_pairs[j].1));
            assert(adjacent(graph@, num_paths@[j]@[i], num_paths@[j]@[i + 1]));
        }
        assert forall|j: int, i: int|
            0 <= j < den_paths.len() && 0 <= i < den_paths@[j].len() - 1 implies #[trigger] registry.linked(
            den_paths@[j]@[i],
            den_paths@[j]@[i + 1],
        ) by {
            assert(is_shortest_walk(graph@, den_paths@[j]@, den_pairs[j].0, den_pairs[j].1));
            assert(adjacent(graph@, den_paths@[j]@[i], den_paths@[j]@[i + 1]));
        }
    }
    let mut steps: Vec<Step<N>> = Vec::new();
    add_paths(&num_paths, registry, false, &mut steps);
    add_paths(&den_paths, registry, true, &mut steps);
    assert(steps@ == paths_steps(*registry, np, false) + paths_steps(*registry, dp, true));
    let r = if steps.len() == 0 && ((request.starting_numers.len() == 0 && request.starting_denoms.len()
        == 0 && request.ending_numers.len() == 0 && request.ending_denoms.len() == 0)
        || num_paths.len() < request.starting_numers.len() || den_paths.len()
        < request.starting_denoms.len()) {
        Err(Error::ImpossibleConversion)
    } else {
        Ok(steps)
    };
    proof {
        let m = request@;
        assert(represents(graph@, *registry));
        assert(routes(graph@, np, matching(graph@, m.starting_numers, m.ending_numers)));
        assert(routes(graph@, dp, matching(graph@, m.starting_denoms, m.ending_denoms)));
        assert(outcome_of(*registry, m, np, dp, r));
    }
    r
}

/// A conversion worked out: the parsed request and its steps. The value
/// reached is the request's coefficients applied to 1 (each multiplying, or
/// dividing where marked), then multiplied by `top_value / bottom_value` of
/// each step in turn.
pub struct Plan<N> {
    pub request: Request<N>,
    pub steps: Vec<Step<N>>,
}

/// The aliases a request is read with: those of the registry, and, where a
/// chemical formula came with it, `moles`, `grams` and `particles` for the
/// units made for that formula.
pub open spec fn aliases_for<N: Copy>(reg: Registry<N>, chemical: Option<ChemicalUnits>) -> Map<
    Seq<char>,
    usize,
> {
    match chemical {
        None => reg.aliases_view(),
        Some(c) => reg.aliases_view().insert("moles"@, c.moles).insert("grams"@, c.grams).insert(
            "particles"@,
            c.particles,
        ),
    }
}

/// A request with a chemical formula and no starting numerator starts from
/// moles of the formula.
pub open spec fn with_default_start<N>(m: RequestModel<N>, chemical: Option<ChemicalUnits>) -> RequestModel<N> {
    match chemical {
        Some(c) => if m.starting_numers.len() == 0 {
            RequestModel { starting_numers: seq![c.moles], ..m }
        } else {
            m
        },
        None => m,
    }
}

pub open spec fn values_below(aliases: Map<Seq<char>, usize>, n: nat) -> bool {
    forall|k: Seq<char>| #[trigger] aliases.contains_key(k) ==> aliases[k] < n
}

proof fn lemma_with_units_below<N>(acc: RequestModel<N>, side: Side, id: usize, k: nat, n: nat)
    requires
        ids_below(acc, n),
        id < n,
    ensures
        ids_below(acc.with_units(side, id, k), n),
{
    let ids = Seq::new(k, |_i: int| id);
    assert(seq_below(ids, n));
    assert forall|a: Seq<usize>| seq_below(a, n) implies #[trigger] seq_below(a + ids, n) by {
        assert forall|i: int| 0 <= i < (a + ids).len() implies #[trigger] (a + ids)[i] < n by {
            if i < a.len() {
                assert((a + ids)[i] == a[i]);
            } else {
                assert((a + ids)[i] == ids[i - a.len()]);
            }
        }
    }
}

proof fn lemma_unit_token_ids<N>(
    line: Seq<char>,
    a: int,
    b: int,
    side: Side,
    aliases: Map<Seq<char>, usize>,
    acc: RequestModel<N>,
    n: nat,
)
    requires
        values_below(aliases, n),
        ids_below(acc, n),
    ensures
        unit_token(line, a, b, side, aliases, acc) matches Ok(m) ==> ids_below(m, n),
{
    if a < b {
        let base_end = match next_stop(line, a, b, seq!['^']) {
            Some(k) => k,
            None => b,
        };
        let base = line.subrange(a, base_end);
        if aliases.contains_key(base) {
            assert forall|k: nat| ids_below(#[trigger] acc.with_units(side, aliases[base], k), n) by {
                lemma_with_units_below(acc, side, aliases[base], k, n);
            }
        }
    }
}

/// The units of a request are among the values of the aliases it was read
/// with.
proof fn lemma_clauses_ids<N>(
    line: Seq<char>,
    numbers: Seq<Option<(N, usize)>>,
    aliases: Map<Seq<char>, usize>,
    pos: int,
    prev: char,
    after: bool,
    acc: RequestModel<N>,
    n: nat,
)
    requires
        values_below(aliases, n),
        ids_below(acc, n),
    ensures
        clauses(line, numbers, aliases, pos, prev, after, acc) matches Ok((m, _)) ==> ids_below(m, n),
    decreases line.len() - pos,
{
    match next_stop(line, pos, line.len() as int, crate::parse::request_stops()) {
        None => {},
        Some(t) => {
            if t >= pos && t < line.len() {
                let side = crate::parse::side_of(prev, after);
                let s = crate::text::skip_space(line, pos, t);
                lemma_unit_token_ids(line, s, crate::text::back_space(line, s, t), side, aliases, acc, n);
                let a = crate::text::skip_space(line, s, t);
                lemma_unit_token_ids(line, a, crate::text::back_space(line, a, t), side, aliases, acc, n);
                match crate::parse::number_at(numbers, t, s) {
                    Some((v, l)) => {
                        let acc2 = acc.with_coefficient(v, prev == '/');
                        assert(ids_below(acc2, n));
                        let a2 = crate::text::skip_space(line, s + l, t);
                        lemma_unit_token_ids(line, a2, crate::text::back_space(line, a2, t), side, aliases, acc2, n);
                    },
                    None => {},
                }
                match clause(line, numbers, aliases, pos, t, prev, after, acc) {
                    Ok(next) => {
                        lemma_clauses_ids(line, numbers, aliases, t + 1, line[t], after || line[t] == ':', next, n);
                    },
                    Err(_) => {},
                }
            }
        },
    }
}

impl<N: Copy> Registry<N> {
    /// Reads a conversion request and works out its steps.
    ///
    /// The request is read as `request_of` describes, with the aliases of
    /// `aliases_for`; where `chemical` names the units made for a formula, a
    /// request with no starting numerator starts from its moles. The steps
    /// are then those of `plan_outcome`.
    pub fn convert(
        &self,
        line: &Vec<char>,
        numbers: &Vec<Option<(N, usize)>>,
        chemical: Option<ChemicalUnits>,
    ) -> (r: Result<Plan<N>, Error>)
        requires
            self.wf(),
            chemical matches Some(c) ==> c.moles < self.next_id() && c.grams < self.next_id()
                && c.particles < self.next_id(),
        ensures
            match request_of(line@, numbers@, aliases_for(*self, chemical)) {
                Err(f) => r matches Err(e) && fault_matches(e, f),
                Ok(m0) => {
                    let m = with_default_start(m0, chemical);
                    match r {
                        Ok(plan) => plan.request@ == m && plan_outcome(*self, m, Ok(plan.steps)),
                        Err(e) => plan_outcome(*self, m, Err(e)),
                    }
                },
            },
    {
        let ghost al = aliases_for(*self, chemical);
        let parsed = match chemical {
            None => extract_value_and_units(line, numbers, self.aliases()),
            Some(c) => {
                let mut table = self.aliases().duplicate();
                table.insert("moles".to_owned(), c.moles);
                table.insert("grams".to_owned(), c.grams);
                table.insert("particles".to_owned(), c.particles);
                assert(table@ == al);
                extract_value_and_units(line, numbers, &table)
            },
        };
        let mut request = match parsed {
            Ok(q) => q,
            Err(e) => {
                assert(request_of(line@, numbers@, al) is Err);
                return Err(e);
            },
        };
        let ghost m0 = request@;
        assert(request_of(line@, numbers@, al) == Ok::<RequestModel<N>, crate::parse::Fault>(m0));
        proof {
            assert(values_below(al, self.next_id()));
            lemma_clauses_ids(line@, numbers@, al, 0, '*', false, RequestModel::<N>::empty(), self.next_id());
        }
        match chemical {
            Some(c) => {
                if request.starting_numers.len() == 0 {
                    request.starting_numers.push(c.moles);
                    assert(request.starting_numers@ =~= seq![c.moles]);
                }
            },
            None => {},
        }
        assert(request@ == with_default_start(m0, chemical));
        assert(ids_below(request@, self.next_id()));
        match plan_conversion(self, &request) {
            Ok(steps) => Ok(Plan { request, steps }),
            Err(e) => Err(e),
        }
    }

    /// Reads a conversion definition (`$ 1 km = 1000 m;`) and registers it.
    pub fn create_conversion(&mut self, line: &Vec<char>, numbers: &Vec<Option<(N, usize)>>, one: N) -> (r: Result<(), Error>)
        requires
            old(self).wf(),
            line.len() > 0,
        ensures
            final(self).wf(),
            match conversion_line(line@, numbers@, one) {
                None => r matches Err(Error::MalformedConversion) && *final(self) == *old(self),
                Some((a, b, c)) => conversion_registered(*old(self), *final(self), a, b, c, r),
            },
    {
        match parse_conversion(line, numbers, one) {
            Ok((a, b, c)) => self.register_conversion(&a, &b, c),
            Err(e) => Err(e),
        }
    }
}

/// A request from the single unit `a` to the single unit `b`.
pub open spec fn single_request<N>(a: usize, b: usize) -> RequestModel<N> {
    RequestModel {
        coefficients: Seq::empty(),
        starting_numers: seq![a],
        starting_denoms: Seq::empty(),
        ending_numers: seq![b],
        ending_denoms: Seq::empty(),
    }
}

proof fn lemma_single_edge<N: Copy>(
    reg: Registry<N>,
    a: usize,
    b: usize,
    r: Result<Vec<Step<N>>, Error>,
)
    requires
        reg.wf(),
        reg.linked(a, b),
        plan_outcome(reg, single_request::<N>(a, b), r),
    ensures
        r matches Ok(s) && s@ == seq![step_of(reg.conv(a, b), a, b)],
{
    let m = single_request::<N>(a, b);
    let (g, np, dp) = choose|g: Seq<Vec<usize>>, np: Seq<Seq<usize>>, dp: Seq<Seq<usize>>|
        represents(g, reg) && #[trigger] routes(g, np, matching(g, m.starting_numers, m.ending_numers))
            && #[trigger] routes(g, dp, matching(g, m.starting_denoms, m.ending_denoms))
            && outcome_of(reg, m, np, dp, r);
    let ab = seq![a, b];
    assert(adjacent(g, a, b));
    assert(crate::algorithm::walk_between(g, ab, a, b));
    assert(crate::algorithm::is_first_reachable(g, a, seq![b], 0));
    crate::algorithm::lemma_first_reachable_unique(g, a, seq![b], 0);
    assert(seq![a].drop_first() == Seq::<usize>::empty());
    assert(matching(g, seq![a], seq![b]) == seq![(a, b)] + matching(
        g,
        Seq::<usize>::empty(),
        crate::algorithm::swap_removed(seq![b], 0),
    ));
    assert(matching(g, seq![a], seq![b]) =~= seq![(a, b)]);
    assert(matching(g, Seq::<usize>::empty(), Seq::<usize>::empty()) =~= Seq::<(usize, usize)>::empty());
    let p = np[0];
    assert(is_shortest_walk(g, p, a, b));
    assert(p.len() <= 2);
    assert(p.len() == 2) by {
        if p.len() == 1 {
            assert(p[0] == p.last());
        }
    }
    assert(p =~= ab);
    assert(np.drop_last() =~= Seq::<Seq<usize>>::empty());
    assert(dp =~= Seq::<Seq<usize>>::empty());
    assert(path_steps(reg, ab, false) =~= seq![step_of(reg.conv(a, b), a, b)]);
    assert(np.last() == ab);
    assert(paths_steps(reg, np.drop_last(), false) == Seq::<Step<N>>::empty());
    assert(paths_steps(reg, np, false) =~= seq![step_of(reg.conv(a, b), a, b)]);
    assert(paths_steps(reg, dp, true) =~= Seq::<Step<N>>::empty());
    assert(paths_steps(reg, np, false) + paths_steps(reg, dp, true) =~= seq![
        step_of(reg.conv(a, b), a, b),
    ]);
}

/// Round trip: for units `a` and `b` joined by a conversion, converting from
/// `a` to `b` takes one step, converting back takes one step, and the second
/// step's fraction is the first one's turned upside down, so that the two
/// together multiply a value by `n / d * d / n`.
pub proof fn lemma_round_trip<N: Copy>(
    reg: Registry<N>,
    a: usize,
    b: usize,
    there: Result<Vec<Step<N>>, Error>,
    back: Result<Vec<Step<N>>, Error>,
)
    requires
        reg.wf(),
        reg.linked(a, b),
        plan_outcome(reg, single_request::<N>(a, b), there),
        plan_outcome(reg, single_request::<N>(b, a), back),
    ensures
        there matches Ok(s) && back matches Ok(t) && s@.len() == 1 && t@.len() == 1 && s@[0].bottom_id
            == a && s@[0].top_id == b && t@[0].bottom_id == b && t@[0].top_id == a
            && t@[0].top_value == s@[0].bottom_value && t@[0].bottom_value == s@[0].top_value,
{
    lemma_single_edge(reg, a, b, there);
    assert(reg.linked(b, a));
    lemma_single_edge(reg, b, a, back);
}

/// Arity guard: a request whose two sides differ in their number of
/// numerator units, or of denominator units, is refused before any path is
/// looked for; no unit is dropped to make the sides fit.
pub proof fn lemma_arity_guard<N: Copy>(reg: Registry<N>, m: RequestModel<N>, r: Result<Vec<Step<N>>, Error>)
    requires
        plan_outcome(reg, m, r),
        m.starting_numers.len() != m.ending_numers.len() || m.starting_denoms.len()
            != m.ending_denoms.len(),
    ensures
        r matches Err(Error::MismatchedQuantityShape),
{
}

/// Converting a unit to itself takes no step and succeeds: the value is
/// left as it is.
pub proof fn lemma_same_unit_identity<N: Copy>(reg: Registry<N>, a: usize, r: Result<Vec<Step<N>>, Error>)
    requires
        plan_outcome(reg, single_request::<N>(a, a), r),
    ensures
        r matches Ok(s) && s@.len() == 0,
{
    let m = single_request::<N>(a, a);
    let (g, np, dp) = choose|g: Seq<Vec<usize>>, np: Seq<Seq<usize>>, dp: Seq<Seq<usize>>|
        represents(g, reg) && #[trigger] routes(g, np, matching(g, m.starting_numers, m.ending_numers))
            && #[trigger] routes(g, dp, matching(g, m.starting_denoms, m.ending_denoms))
            && outcome_of(reg, m, np, dp, r);
    assert(walk_between(g, seq![a], a, a));
    assert(crate::algorithm::is_first_reachable(g, a, seq![a], 0));
    crate::algorithm::lemma_first_reachable_unique(g, a, seq![a], 0);
    assert(seq![a].drop_first() == Seq::<usize>::empty());
    assert(matching(g, seq![a], seq![a]) == seq![(a, a)] + matching(
        g,
        Seq::<usize>::empty(),
        crate::algorithm::swap_removed(seq![a], 0),
    ));
    assert(matching(g, seq![a], seq![a]) =~= seq![(a, a)]);
    assert(matching(g, Seq::<usize>::empty(), Seq::<usize>::empty()) =~= Seq::<(usize, usize)>::empty());
    let p = np[0];
    assert(is_shortest_walk(g, p, a, a));
    assert(p.len() == 1);
    assert(path_steps(reg, p, false) =~= Seq::<Step<N>>::empty());
    assert(np.drop_last() =~= Seq::<Seq<usize>>::empty());
    assert(paths_steps(reg, np.drop_last(), false) == Seq::<Step<N>>::empty());
    assert(paths_steps(reg, np, false) =~= Seq::<Step<N>>::empty());
    assert(dp =~= Seq::<Seq<usize>>::empty());
    assert(paths_steps(reg, dp, true) =~= Seq::<Step<N>>::empty());
}

/// A request whose sides match in shape, that names some starting unit, and
/// none of whose starting units is, or is connected to, an ending unit of its
/// side, is an impossible conversion.
pub proof fn lemma_no_route_impossible<N: Copy>(
    reg: Registry<N>,
    g: Seq<Vec<usize>>,
    m: RequestModel<N>,
    r: Result<Vec<Step<N>>, Error>,
)
    requires
        plan_outcome(reg, m, r),
        represents(g, reg),
        m.starting_numers.len() == m.ending_numers.len(),
        m.starting_denoms.len() == m.ending_denoms.len(),
        m.starting_numers.len() + m.starting_denoms.len() > 0,
        forall|i: int, j: int|
            0 <= i < m.starting_numers.len() && 0 <= j < m.ending_numers.len() ==> !reachable(
                g,
                m.starting_numers[i],
                m.ending_numers[j],
            ),
        forall|i: int, j: int|
            0 <= i < m.starting_denoms.len() && 0 <= j < m.ending_denoms.len() ==> !reachable(
                g,
                m.starting_denoms[i],
                m.ending_denoms[j],
            ),
    ensures
        r matches Err(Error::ImpossibleConversion),
{
    let (h, np, dp) = choose|h: Seq<Vec<usize>>, np: Seq<Seq<usize>>, dp: Seq<Seq<usize>>|
        represents(h, reg) && #[trigger] routes(h, np, matching(h, m.starting_numers, m.ending_numers))
            && #[trigger] routes(h, dp, matching(h, m.starting_denoms, m.ending_denoms))
            && outcome_of(reg, m, np, dp, r);
    lemma_same_edges(g, h);
    lemma_matching_none(g, m.starting_numers, m.ending_numers);
    lemma_matching_none(g, m.starting_denoms, m.ending_denoms);
    assert(np =~= Seq::<Seq<usize>>::empty());
    assert(dp =~= Seq::<Seq<usize>>::empty());
    assert(paths_steps(reg, np, false) =~= Seq::<Step<N>>::empty());
    assert(paths_steps(reg, dp, true) =~= Seq::<Step<N>>::empty());
}

/// The names of the units, by identifier.
pub open spec fn unit_names<N: Copy>(reg: Registry<N>) -> Seq<Seq<char>> {
    Seq::new(reg.next_id(), |i: int| reg.name_of(i as usize))
}

/// What a registry holds, as plain values: the names of its units by
/// identifier, its aliases, and the factor of each edge.
pub struct RegistryModel<N> {
    pub names: Seq<Seq<char>>,
    pub aliases: Map<Seq<char>, usize>,
    pub edges: Map<(usize, usize), Conversion<N>>,
}

pub open spec fn model_of<N: Copy>(reg: Registry<N>) -> RegistryModel<N> {
    RegistryModel {
        names: unit_names(reg),
        aliases: reg.aliases_view(),
        edges: Map::new(|k: (usize, usize)| reg.linked(k.0, k.1), |k: (usize, usize)| reg.conv(k.0, k.1)),
    }
}

pub open spec fn empty_model<N>() -> RegistryModel<N> {
    RegistryModel { names: Seq::empty(), aliases: Map::empty(), edges: Map::empty() }
}

/// `m` after registering each of `names`, in order, for `id`.
pub open spec fn with_alias_seqs(m: Map<Seq<char>, usize>, names: Seq<Seq<char>>, id: usize) -> Map<
    Seq<char>,
    usize,
>
    decreases names.len(),
{
    if names.len() == 0 {
        m
    } else {
        with_alias_seqs(m, names.drop_last(), id).insert(names.last(), id)
    }
}

proof fn lemma_alias_seqs(m: Map<Seq<char>, usize>, names: Seq<String>, id: usize)
    ensures
        with_aliases(m, names, id) == with_alias_seqs(m, crate::parse::strings_view(names), id),
    decreases names.len(),
{
    if names.len() > 0 {
        lemma_alias_seqs(m, names.drop_last(), id);
        assert(crate::parse::strings_view(names).drop_last() == crate::parse::strings_view(
            names.drop_last(),
        ));
    }
}

/// What one line of a definitions source does: a unit definition that lists
/// an alias adds a unit, named by its first alias, under the next
/// identifier; a conversion definition between two distinct registered units
/// sets the factors of the edges between them; anything else changes nothing.
pub open spec fn define_step<N: Copy>(
    m: RegistryModel<N>,
    line: Seq<char>,
    numbers: Seq<Option<(N, usize)>>,
    one: N,
) -> RegistryModel<N> {
    if line.len() > 0 && line[0] == '#' {
        let list = crate::parse::alias_list(line);
        if list.len() > 0 {
            RegistryModel {
                names: m.names.push(list[0]),
                aliases: with_alias_seqs(m.aliases, list, m.names.len() as usize),
                edges: m.edges,
            }
        } else {
            m
        }
    } else if line.len() > 0 && line[0] == '$' {
        match conversion_line(line, numbers, one) {
            Some((a, b, c)) => if m.aliases.contains_key(a) && m.aliases.contains_key(b)
                && m.aliases[a] != m.aliases[b] {
                let x = m.aliases[a];
                let y = m.aliases[b];
                RegistryModel { edges: m.edges.insert((x, y), c).insert((y, x), c.inverted()), ..m }
            } else {
                m
            },
            None => m,
        }
    } else {
        m
    }
}

/// `m` after each line of a definitions source, in order.
pub open spec fn defined<N: Copy>(
    m: RegistryModel<N>,
    lines: Seq<(Vec<char>, Vec<Option<(N, usize)>>)>,
    one: N,
) -> RegistryModel<N>
    decreases lines.len(),
{
    if lines.len() == 0 {
        m
    } else {
        define_step(defined(m, lines.drop_last(), one), lines.last().0@, lines.last().1@, one)
    }
}

impl<N: Copy> Registry<N> {
    /// Reads a definitions source into the registry: each line is a unit
    /// definition (`#...`), a conversion definition (`$...`), or passed over,
    /// as `define_step` describes; each comes with where its numbers start
    /// (see `number_at`). Returns the errors of the definitions that failed,
    /// in order.
    pub fn load_definitions(&mut self, lines: &Vec<(Vec<char>, Vec<Option<(N, usize)>>)>, one: N) -> (r: Vec<Error>)
        requires
            old(self).wf(),
            old(self).next_id() + lines.len() < usize::MAX,
        ensures
            final(self).wf(),
            model_of(*final(self)) == defined(model_of(*old(self)), lines@, one),
    {
        let mut errors: Vec<Error> = Vec::new();
        let ghost start = model_of(*self);
        let ghost start_id = self.next_id();
        let mut i: usize = 0;
        while i < lines.len()
            invariant
                self.wf(),
                i <= lines.len(),
                self.next_id() <= start_id + i,
                start_id + lines.len() < usize::MAX,
                model_of(*self) == defined(start, lines@.take(i as int), one),
            decreases lines.len() - i,
        {
            let line = &lines[i].0;
            assert(lines@.take(i + 1).drop_last() == lines@.take(i as int));
            let ghost before = *self;
            let ghost m = model_of(before);
            assert(m.names.len() == before.next_id());
            if line.len() > 0 && line[0] == '#' {
                let names = crate::parse::alias_list_of(line);
                match self.create_unit(&names) {
                    Ok(_) => {},
                    Err(e) => errors.push(e),
                }
                proof {
                    if names.len() > 0 {
                        let id = before.next_id() as usize;
                        assert(unit_names(*self) =~= unit_names(before).push(names@[0]@));
                        lemma_alias_seqs(before.aliases_view(), names@, id);
                        assert forall|k: (usize, usize)| #[trigger] self.linked(k.0, k.1) == before.linked(
                            k.0,
                            k.1,
                        ) && (self.linked(k.0, k.1) ==> self.conv(k.0, k.1) == before.conv(k.0, k.1)) by {
                            if k.0 != id {
                                if before.has_unit(k.0) {
                                    assert(self.units_view()[k.0] == before.units_view()[k.0]);
                                }
                            } else {
                                assert(!before.has_unit(id));
                            }
                        }
                        assert(model_of(*self).edges =~= m.edges);
                        assert(model_of(*self) == define_step(m, line@, lines@[i as int].1@, one));
                    } else {
                        assert(model_of(*self) == define_step(m, line@, lines@[i as int].1@, one));
                    }
                }
            } else if line.len() > 0 && line[0] == '$' {
                match self.create_conversion(line, &lines[i].1, one) {
                    Ok(()) => {},
                    Err(e) => errors.push(e),
                }
                proof {
                    assert forall|u: int| 0 <= u < self.next_id() implies #[trigger] unit_names(*self)[u]
                        == unit_names(before)[u] by {
                        assert(self.has_unit(u as usize));
                    }
                    assert(unit_names(*self) =~= unit_names(before));
                    match conversion_line(line@, lines@[i as int].1@, one) {
                        Some((a, b, c)) => {
                            if m.aliases.contains_key(a) && m.aliases.contains_key(b) && m.aliases[a]
                                != m.aliases[b] {
                                let x = m.aliases[a];
                                let y = m.aliases[b];
                                assert(model_of(*self).edges =~= m.edges.insert((x, y), c).insert(
                                    (y, x),
                                    c.inverted(),
                                ));
                            }
                        },
                        None => {},
                    }
                    assert(model_of(*self) == define_step(m, line@, lines@[i as int].1@, one));
                }
            }
            i = i + 1;
        }
        assert(lines@.take(i as int) == lines@);
        errors
    }

    /// Forgets everything and reads a definitions source afresh.
    pub fn reload(&mut self, lines: &Vec<(Vec<char>, Vec<Option<(N, usize)>>)>, one: N) -> (r: Vec<Error>)
        requires
            old(self).wf(),
            lines.len() < usize::MAX,
        ensures
            final(self).wf(),
            model_of(*final(self)) == defined(empty_model(), lines@, one),
    {
        self.clear();
        assert(unit_names(*self) =~= Seq::<Seq<char>>::empty());
        assert(model_of(*self).edges =~= Map::<(usize, usize), Conversion<N>>::empty());
        assert(model_of(*self) == empty_model::<N>());
        self.load_definitions(lines, one)
    }
}

/// Reloading is idempotent: two registries that each reloaded the same
/// definitions source list the same units under the same names, with the
/// same aliases and the same conversions.
pub proof fn lemma_reload_idempotent<N: Copy>(
    first: Registry<N>,
    second: Registry<N>,
    lines: Seq<(Vec<char>, Vec<Option<(N, usize)>>)>,
    one: N,
)
    requires
        model_of(first) == defined(empty_model(), lines, one),
        model_of(second) == defined(empty_model(), lines, one),
    ensures
        first.next_id() == second.next_id(),
        forall|i: usize| i < first.next_id() ==> #[trigger] first.name_of(i) == second.name_of(i),
        first.aliases_view() == second.aliases_view(),
        forall|a: usize, b: usize| #[trigger] first.linked(a, b) == second.linked(a, b),
        forall|a: usize, b: usize| first.linked(a, b) ==> #[trigger] first.conv(a, b) == second.conv(a, b),
{
    assert(unit_names(first).len() == first.next_id());
    assert(unit_names(second).len() == second.next_id());
    assert forall|i: usize| i < first.next_id() implies #[trigger] first.name_of(i) == second.name_of(i) by {
        assert(unit_names(first)[i as int] == first.name_of(i));
        assert(unit_names(second)[i as int] == second.name_of(i));
    }
    let e1 = model_of(first).edges;
    let e2 = model_of(second).edges;
    assert forall|a: usize, b: usize| #[trigger] first.linked(a, b) == second.linked(a, b) by {
        assert(e1.contains_key((a, b)) == first.linked(a, b));
        assert(e2.contains_key((a, b)) == second.linked(a, b));
    }
    assert forall|a: usize, b: usize| first.linked(a, b) implies #[trigger] first.conv(a, b) == second.conv(a, b) by {
        assert(e1.contains_key((a, b)));
        assert(e1[(a, b)] == first.conv(a, b));
        assert(e2[(a, b)] == second.conv(a, b));
    }
}

/// What a line means once a leading `ans` is replaced by the previous
/// answer; `None` where there is no previous answer to use.
pub open spec fn with_previous_answer(line: Seq<char>, previous: Option<Seq<char>>) -> Option<Seq<char>> {
    if line.len() >= 3 && line[0] == 'a' && line[1] == 'n' && line[2] == 's' {
        match previous {
            Some(p) => Some(p + line.skip(3)),
            None => None,
        }
    } else {
        Some(line)
    }
}

/// Replaces a leading `ans` by the text of the previous answer.
pub fn substitute_previous_answer(line: &Vec<char>, previous: &Option<String>) -> (r: Result<
    Vec<char>,
    Error,
>)
    ensures
        match with_previous_answer(
            line@,
            match previous {
                Some(p) => Some(p@),
                None => None,
            },
        ) {
            Some(s) => r matches Ok(v) && v@ == s,
            None => r matches Err(Error::NoPreviousAnswer),
        },
{
    if line.len() >= 3 && line[0] == 'a' && line[1] == 'n' && line[2] == 's' {
        match previous {
            Some(p) => {
                let mut out = crate::text::chars_of(p.as_str());
                let mut i: usize = 3;
                let ghost start = out@;
                while i < line.len()
                    invariant
                        3 <= i <= line.len(),
                        out@ == start + line@.subrange(3, i as int),
                    decreases line.len() - i,
                {
                    out.push(line[i]);
                    i = i + 1;
                }
                assert(line@.subrange(3, i as int) == line@.skip(3));
                Ok(out)
            },
            None => Err(Error::NoPreviousAnswer),
        }
    } else {
        Ok(line.clone())
    }
}

/// Takes a bracketed chemical formula out of a line: the line without the
/// brackets and what they held, and the formula. A `[` without a `]` after it
/// leaves the line as it is, with no formula.
pub open spec fn chemical_split(line: Seq<char>) -> (Seq<char>, Option<Seq<char>>) {
    match next_stop(line, 0, line.len() as int, seq!['[']) {
        None => (line, None),
        Some(i) => match next_stop(line, i + 1, line.len() as int, seq![']']) {
            None => (line, None),
            Some(j) => (line.take(i) + line.skip(j + 1), Some(line.subrange(i + 1, j))),
        },
    }
}

fn copy_range(line: &Vec<char>, from: usize, to: usize, out: &mut Vec<char>)
    requires
        from <= to <= line.len(),
    ensures
        final(out)@ == old(out)@ + line@.subrange(from as int, to as int),
{
    let mut i = from;
    while i < to
        invariant
            from <= i <= to <= line.len(),
            out@ == old(out)@ + line@.subrange(from as int, i as int),
        decreases to - i,
    {
        out.push(line[i]);
        i = i + 1;
    }
}

pub fn try_extract_chemical(line: &Vec<char>) -> (r: (Vec<char>, Option<Vec<char>>))
    ensures
        r.0@ == chemical_split(line@).0,
        match chemical_split(line@).1 {
            Some(f) => r.1 matches Some(v) && v@ == f,
            None => r.1 is None,
        },
{
    let open = vec!['['];
    let close = vec![']'];
    assert(open@ == seq!['[']);
    assert(close@ == seq![']']);
    match crate::parse::next_stop_exec(line, 0, line.len(), &open) {
        None => (line.clone(), None),
        Some(i) => match crate::parse::next_stop_exec(line, i + 1, line.len(), &close) {
            None => (line.clone(), None),
            Some(j) => {
                let mut rest: Vec<char> = Vec::new();
                copy_range(line, 0, i, &mut rest);
                copy_range(line, j + 1, line.len(), &mut rest);
                let mut formula: Vec<char> = Vec::new();
                copy_range(line, i + 1, j, &mut formula);
                assert(line@.subrange(0, i as int) == line@.take(i as int));
                assert(line@.subrange(j + 1, line.len() as int) == line@.skip(j + 1));
                assert(Seq::<char>::empty() + line@.subrange(i + 1, j as int) == line@.subrange(i + 1, j as int));
                (rest, Some(formula))
            },
        },
    }
}

/// The unit graph is undirected, so path lengths are symmetric: when `p` is
/// a shortest path from `a` to `b` in the graph of a registry, `a` can be
/// reached from `b` and every shortest path back has as many units as `p`.
pub proof fn lemma_path_symmetry<N: Copy>(
    reg: Registry<N>,
    g: Seq<Vec<usize>>,
    a: usize,
    b: usize,
    p: Seq<usize>,
)
    requires
        reg.wf(),
        represents(g, reg),
        is_shortest_walk(g, p, a, b),
    ensures
        reachable(g, b, a),
        forall|q: Seq<usize>| #[trigger] is_shortest_walk(g, q, b, a) ==> q.len() == p.len(),
{
    assert forall|u: usize, v: usize| #[trigger] adjacent(g, u, v) implies adjacent(g, v, u) by {
        assert(reg.linked(u, v));
    }
    assert(symmetric(g));
    lemma_shortest_walk_symmetric(g, a, b, p);
}

} // verus!
