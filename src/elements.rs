//! Chemical elements and the formulas built from them.
use crate::aliases::{with_aliases, AliasTable};
use crate::error::Error;
use crate::idgen::IDGenerator;
use crate::parse::{next_stop, strings_view};
use crate::text::{
    all_digits, chars_of, decimal_u16, digit, is_digit, is_lower, is_upper, parse_u16, push_char,
    skip_space, skip_space_exec, string_of, subscript_digits, subscript_number, trimmed,
    trimmed_string,
};
use std::collections::HashMap;
use vstd::prelude::*;

verus! {

/// A chemical element: its symbol, its atomic number and its molar mass.
pub struct Element<N> {
    pub symbol: String,
    pub atomic_number: usize,
    pub molar_mass: N,
}

impl<N> Element<N> {
    pub fn new(symbol: String, atomic_number: usize, molar_mass: N) -> (r: Self)
        ensures
            r.symbol == symbol,
            r.atomic_number == atomic_number,
            r.molar_mass == molar_mass,
    {
        Element { symbol, atomic_number, molar_mass }
    }
}

/// The registered elements, keyed by atomic number, and the aliases that
/// name them. Atomic numbers are handed out from 1 on.
pub struct ElementTable<N> {
    elements: HashMap<usize, Element<N>>,
    aliases: AliasTable,
    generator: IDGenerator,
}

impl<N> ElementTable<N> {
    pub closed spec fn elements_view(&self) -> Map<usize, Element<N>> {
        self.elements@
    }

    pub closed spec fn aliases_view(&self) -> Map<Seq<char>, usize> {
        self.aliases@
    }

    /// The atomic number that the next element gets.
    pub closed spec fn next_number(&self) -> nat {
        self.generator.upcoming()
    }

    pub closed spec fn wf(&self) -> bool {
        &&& self.generator.wf()
        &&& self.generator.floor() == 1
        &&& forall|n: usize| #[trigger]
            self.elements@.contains_key(n) ==> self.elements@[n].atomic_number == n && n
                < self.generator.upcoming()
        &&& forall|k: Seq<char>| #[trigger]
            self.aliases@.contains_key(k) ==> self.elements@.contains_key(self.aliases@[k])
    }

    pub fn new() -> (r: Self)
        ensures
            r.wf(),
            r.next_number() == 1,
            r.elements_view() == Map::<usize, Element<N>>::empty(),
            r.aliases_view() == Map::<Seq<char>, usize>::empty(),
    {
        ElementTable { elements: HashMap::new(), aliases: AliasTable::new(), generator: IDGenerator::new(1) }
    }

    /// Forgets every element and alias; atomic numbers start from 1 again.
    pub fn clear(&mut self)
        requires
            old(self).wf(),
        ensures
            final(self).wf(),
            final(self).next_number() == 1,
            final(self).elements_view() == Map::<usize, Element<N>>::empty(),
            final(self).aliases_view() == Map::<Seq<char>, usize>::empty(),
    {
        self.elements.clear();
        self.aliases.clear();
        self.generator.clear();
    }

    /// Registers an element whose symbol is the first of `names`, with every
    /// name as an alias of it, and returns its atomic number.
    pub fn create_element(&mut self, names: &Vec<String>, molar_mass: N) -> (r: Result<usize, Error>)
        requires
            old(self).wf(),
            old(self).next_number() < usize::MAX,
        ensures
            final(self).wf(),
            names.len() == 0 ==> (r matches Err(Error::EmptyAliasList) && *final(self) == *old(self)),
            names.len() > 0 ==> {
                let n = old(self).next_number() as usize;
                &&& r == Ok::<usize, Error>(n)
                &&& final(self).next_number() == old(self).next_number() + 1
                &&& final(self).elements_view() == old(self).elements_view().insert(
                    n,
                    Element { symbol: names@[0], atomic_number: n, molar_mass },
                )
                &&& final(self).aliases_view() == with_aliases(old(self).aliases_view(), names@, n)
            },
    {
        if names.len() == 0 {
            return Err(Error::EmptyAliasList);
        }
        let ghost old_self = *self;
        let n = self.generator.next();
        let element = Element::new(names[0].clone(), n, molar_mass);
        self.elements.insert(n, element);
        self.aliases.insert_all(names, n);
        proof {
            assert forall|k: Seq<char>| #[trigger]
                self.aliases@.contains_key(k) implies self.elements@.contains_key(self.aliases@[k]) by {
                lemma_with_aliases_in(old_self.aliases@, old_self.elements@, names@, n, k);
            }
        }
        Ok(n)
    }

    /// The atomic number that `alias` names.
    pub fn lookup(&self, alias: &String) -> (r: Option<usize>)
        ensures
            r == if self.aliases_view().contains_key(alias@) {
                Some(self.aliases_view()[alias@])
            } else {
                None
            },
    {
        self.aliases.get(alias)
    }

    /// The element with atomic number `n`, if there is one.
    pub fn get_element(&self, n: usize) -> (r: Option<&Element<N>>)
        ensures
            match r {
                Some(e) => self.elements_view().contains_key(n) && *e == self.elements_view()[n],
                None => !self.elements_view().contains_key(n),
            },
    {
        self.elements.get(&n)
    }
}

proof fn lemma_with_aliases_in<N>(
    m: Map<Seq<char>, usize>,
    elements: Map<usize, Element<N>>,
    names: Seq<String>,
    id: usize,
    k: Seq<char>,
)
    requires
        forall|j: Seq<char>| #[trigger] m.contains_key(j) ==> elements.contains_key(m[j]),
        with_aliases(m, names, id).contains_key(k),
    ensures
        with_aliases(m, names, id)[k] == id || elements.contains_key(with_aliases(m, names, id)[k]),
    decreases names.len(),
{
    if names.len() > 0 && names.last()@ != k {
        lemma_with_aliases_in(m, elements, names.drop_last(), id, k);
    }
}

// ---------------------------------------------------------------------------
// Element definitions: `H, hydrogen = 1.008`
/// The aliases of an element definition read from `pos` on, each ended by a
/// `,` and the last by `=`, and the position of what follows the `=` (white
/// space skipped). `None` where no `=` comes.
pub open spec fn element_aliases(line: Seq<char>, pos: int) -> Option<(Seq<Seq<char>>, int)>
    decreases line.len() - pos,
{
    match next_stop(line, pos, line.len() as int, seq![',', '=']) {
        None => None,
        Some(t) => if t < pos || t >= line.len() {
            None
        } else {
            let a = trimmed(line, pos, t);
            if line[t] == '=' {
                Some((seq![a], skip_space(line, t + 1, line.len() as int)))
            } else {
                match element_aliases(line, t + 1) {
                    None => None,
                    Some((rest, e)) => Some((seq![a] + rest, e)),
                }
            }
        },
    }
}

fn element_aliases_from(line: &Vec<char>, pos: usize, stops: &Vec<char>) -> (r: Option<(Vec<String>, usize)>)
    requires
        pos <= line.len(),
        stops@ == seq![',', '='],
    ensures
        match element_aliases(line@, pos as int) {
            None => r is None,
            Some((names, e)) => r matches Some((v, x)) && strings_view(v@) == names && x == e && x
                <= line.len(),
        },
    decreases line.len() - pos,
{
    let t = match crate::parse::next_stop_exec(line, pos, line.len(), stops) {
        None => return None,
        Some(t) => t,
    };
    let a = trimmed_string(line, pos, t);
    if line[t] == '=' {
        let mut v: Vec<String> = Vec::new();
        v.push(a);
        assert(strings_view(v@) == seq![a@]);
        Some((v, skip_space_exec(line, t + 1, line.len())))
    } else {
        match element_aliases_from(line, t + 1, stops) {
            None => None,
            Some((mut rest, e)) => {
                let ghost before = strings_view(rest@);
                rest.insert(0, a);
                assert(strings_view(rest@) == seq![a@] + before);
                Some((rest, e))
            },
        }
    }
}

/// Reads the aliases of an element definition (`H, hydrogen = 1.008`), the
/// symbol first, and the position where its molar mass starts.
pub fn parse_element_line(line: &Vec<char>) -> (r: Option<(Vec<String>, usize)>)
    ensures
        match element_aliases(line@, 0) {
            None => r is None,
            Some((names, e)) => r matches Some((v, x)) && strings_view(v@) == names && x == e,
        },
{
    let stops = vec![',', '='];
    assert(stops@ == seq![',', '=']);
    element_aliases_from(line, 0, &stops)
}

// ---------------------------------------------------------------------------
// Chemical formulas: `H2O`
/// What the scanner of a formula holds: the finished (symbol, digits) pairs,
/// and the symbol and digits being read.
pub struct FormulaScan {
    pub tokens: Seq<(Seq<char>, Seq<char>)>,
    pub elem: Seq<char>,
    pub num: Seq<char>,
}

/// Ends the symbol being read, if any, with the digits read for it.
pub open spec fn finish(st: FormulaScan) -> FormulaScan {
    if st.elem.len() > 0 {
        FormulaScan { tokens: st.tokens.push((st.elem, st.num)), elem: Seq::empty(), num: Seq::empty() }
    } else {
        st
    }
}

/// An upper-case letter starts a symbol, a lower-case one continues it, a
/// digit adds to its subscript; other characters are passed over.
pub open spec fn formula_step(st: FormulaScan, c: char) -> FormulaScan {
    if is_upper(c) {
        let f = finish(st);
        FormulaScan { elem: f.elem.push(c), ..f }
    } else if is_lower(c) {
        FormulaScan { elem: st.elem.push(c), ..st }
    } else if is_digit(c) {
        FormulaScan { num: st.num.push(c), ..st }
    } else {
        st
    }
}

pub open spec fn formula_scan(s: Seq<char>) -> FormulaScan
    decreases s.len(),
{
    if s.len() == 0 {
        FormulaScan { tokens: Seq::empty(), elem: Seq::empty(), num: Seq::empty() }
    } else {
        formula_step(formula_scan(s.drop_last()), s.last())
    }
}

/// The (symbol, subscript digits) pairs of a formula, in order.
pub open spec fn formula_tokens(s: Seq<char>) -> Seq<(Seq<char>, Seq<char>)> {
    finish(formula_scan(s)).tokens
}

/// The subscript a token's digits give: 1 when there are none.
pub open spec fn subscript_of(num: Seq<char>) -> Option<u16> {
    if num.len() == 0 {
        Some(1u16)
    } else if all_digits(num) {
        decimal_u16(num)
    } else {
        None
    }
}

/// The (atomic number, count) that a token stands for, if its subscript fits
/// and its symbol is registered.
pub open spec fn token_entry(tok: (Seq<char>, Seq<char>), aliases: Map<Seq<char>, usize>) -> Option<
    (usize, u16),
> {
    match subscript_of(tok.1) {
        None => None,
        Some(k) => if aliases.contains_key(tok.0) {
            Some((aliases[tok.0], k))
        } else {
            None
        },
    }
}

/// The error a token that stands for nothing gives.
pub open spec fn token_fault(e: Error, tok: (Seq<char>, Seq<char>)) -> bool {
    if subscript_of(tok.1) is None {
        e is InvalidSubscript
    } else {
        e matches Error::UnknownElement(s) && s@ == tok.0
    }
}

pub open spec fn tokens_view(v: Seq<(Vec<char>, Vec<char>)>) -> Seq<(Seq<char>, Seq<char>)> {
    v.map_values(|t: (Vec<char>, Vec<char>)| (t.0@, t.1@))
}

fn finish_exec(tokens: &mut Vec<(Vec<char>, Vec<char>)>, elem: &mut Vec<char>, num: &mut Vec<char>)
    ensures
        (FormulaScan { tokens: tokens_view(final(tokens)@), elem: final(elem)@, num: final(num)@ })
            == finish(FormulaScan { tokens: tokens_view(old(tokens)@), elem: old(elem)@, num: old(num)@ }),
{
    if elem.len() > 0 {
        let ghost before = tokens_view(tokens@);
        tokens.push((elem.clone(), num.clone()));
        elem.clear();
        num.clear();
        assert(tokens_view(tokens@) == before.push((old(elem)@, old(num)@)));
    }
}

fn formula_tokens_exec(chemical: &Vec<char>) -> (r: Vec<(Vec<char>, Vec<char>)>)
    ensures
        tokens_view(r@) == formula_tokens(chemical@),
{
    let mut tokens: Vec<(Vec<char>, Vec<char>)> = Vec::new();
    let mut elem: Vec<char> = Vec::new();
    let mut num: Vec<char> = Vec::new();
    let mut i: usize = 0;
    assert(chemical@.take(0) == Seq::<char>::empty());
    assert(tokens_view(tokens@) == Seq::<(Seq<char>, Seq<char>)>::empty());
    while i < chemical.len()
        invariant
            i <= chemical.len(),
            formula_scan(chemical@.take(i as int)) == (FormulaScan {
                tokens: tokens_view(tokens@),
                elem: elem@,
                num: num@,
            }),
        decreases chemical.len() - i,
    {
        let c = chemical[i];
        assert(chemical@.take(i + 1).drop_last() == chemical@.take(i as int));
        if 'A' <= c && c <= 'Z' {
            finish_exec(&mut tokens, &mut elem, &mut num);
            elem.push(c);
        } else if 'a' <= c && c <= 'z' {
            elem.push(c);
        } else if digit(c) {
            num.push(c);
        }
        i = i + 1;
    }
    assert(chemical@.take(i as int) == chemical@);
    finish_exec(&mut tokens, &mut elem, &mut num);
    tokens
}

fn all_digits_exec(s: &Vec<char>) -> (r: bool)
    ensures
        r == all_digits(s@),
{
    let mut i: usize = 0;
    while i < s.len()
        invariant
            i <= s.len(),
            forall|k: int| 0 <= k < i ==> is_digit(#[trigger] s@[k]),
        decreases s.len() - i,
    {
        if !digit(s[i]) {
            return false;
        }
        i = i + 1;
    }
    true
}

fn subscript_of_exec(num: &Vec<char>) -> (r: Option<u16>)
    ensures
        r == subscript_of(num@),
{
    if num.len() == 0 {
        Some(1)
    } else if all_digits_exec(num) {
        assert(num@.subrange(0, num.len() as int) == num@);
        parse_u16(num, 0, num.len())
    } else {
        None
    }
}

/// Reads a chemical formula (`H2O`) as (atomic number, count) pairs, in the
/// order its symbols come; a symbol without digits counts once.
pub fn extract_elements<N>(chemical: &str, table: &ElementTable<N>) -> (r: Result<
    Vec<(usize, u16)>,
    Error,
>)
    ensures
        ({
            let toks = formula_tokens(chemical@);
            match r {
                Ok(v) => v@.len() == toks.len() && forall|i: int|
                    0 <= i < toks.len() ==> token_entry(#[trigger] toks[i], table.aliases_view())
                        == Some(v@[i]),
                Err(e) => exists|i: int|
                    0 <= i < toks.len() && token_entry(#[trigger] toks[i], table.aliases_view())
                        is None && token_fault(e, toks[i]) && forall|j: int|
                        0 <= j < i ==> token_entry(#[trigger] toks[j], table.aliases_view()) is Some,
            }
        }),
{
    let chars = chars_of(chemical);
    let tokens = formula_tokens_exec(&chars);
    let ghost toks = formula_tokens(chemical@);
    let mut out: Vec<(usize, u16)> = Vec::new();
    let mut i: usize = 0;
    while i < tokens.len()
        invariant
            i <= tokens.len(),
            tokens_view(tokens@) == toks,
            toks == formula_tokens(chemical@),
            out.len() == i,
            forall|j: int| 0 <= j < i ==> token_entry(#[trigger] toks[j], table.aliases_view()) == Some(
                out@[j],
            ),
        decreases tokens.len() - i,
    {
        let ghost tok = toks[i as int];
        assert(tok == (tokens@[i as int].0@, tokens@[i as int].1@));
        let count = match subscript_of_exec(&tokens[i].1) {
            Some(k) => k,
            None => {
                assert(token_entry(tok, table.aliases_view()) is None);
                assert(token_fault(Error::InvalidSubscript, toks[i as int]));
                return Err(Error::InvalidSubscript);
            },
        };
        let name = string_of(&tokens[i].0, 0, tokens[i].0.len());
        assert(tokens[i as int].0@.subrange(0, tokens[i as int].0.len() as int) == tokens[i as int].0@);
        match table.lookup(&name) {
            Some(n) => {
                out.push((n, count));
            },
            None => {
                assert(token_entry(tok, table.aliases_view()) is None);
                let e = Error::UnknownElement(name);
                assert(token_fault(e, toks[i as int]));
                return Err(e);
            },
        }
        i = i + 1;
    }
    Ok(out)
}

/// The display name of a formula: each symbol followed by its count in
/// subscript digits, the count left out where it is 1.
pub open spec fn formula_text<N>(entries: Seq<(usize, u16)>, elements: Map<usize, Element<N>>) -> Seq<
    char,
>
    decreases entries.len(),
{
    if entries.len() == 0 {
        Seq::empty()
    } else {
        let (n, k) = entries.last();
        formula_text(entries.drop_last(), elements) + elements[n].symbol@ + if k == 1 {
            Seq::empty()
        } else {
            subscript_digits(k as nat)
        }
    }
}

/// The display name of a parsed formula (`H₂O`); `None` where an atomic
/// number is not registered.
pub fn formula_name<N>(entries: &Vec<(usize, u16)>, table: &ElementTable<N>) -> (r: Option<String>)
    ensures
        match r {
            Some(s) => (forall|i: int|
                0 <= i < entries.len() ==> table.elements_view().contains_key(#[trigger] entries@[i].0))
                && s@ == formula_text(entries@, table.elements_view()),
            None => exists|i: int|
                0 <= i < entries.len() && !table.elements_view().contains_key(#[trigger] entries@[i].0),
        },
{
    let mut out = String::new();
    let mut i: usize = 0;
    while i < entries.len()
        invariant
            i <= entries.len(),
            forall|j: int| 0 <= j < i ==> table.elements_view().contains_key(#[trigger] entries@[j].0),
            out@ == formula_text(entries@.take(i as int), table.elements_view()),
        decreases entries.len() - i,
    {
        let (n, k) = entries[i];
        assert(entries@.take(i + 1).drop_last() == entries@.take(i as int));
        match table.get_element(n) {
            None => return None,
            Some(e) => {
                let sym = chars_of(e.symbol.as_str());
                let mut j: usize = 0;
                let ghost start = out@;
                while j < sym.len()
                    invariant
                        j <= sym.len(),
                        out@ == start + sym@.take(j as int),
                    decreases sym.len() - j,
                {
                    push_char(&mut out, sym[j]);
                    j = j + 1;
                }
                assert(sym@.take(j as int) == sym@);
                if k != 1 {
                    let sub = chars_of(subscript_number(k).as_str());
                    let ghost mid = out@;
                    let mut m: usize = 0;
                    while m < sub.len()
                        invariant
                            m <= sub.len(),
                            out@ == mid + sub@.take(m as int),
                        decreases sub.len() - m,
                    {
                        push_char(&mut out, sub[m]);
                        m = m + 1;
                    }
                    assert(sub@.take(m as int) == sub@);
                } else {
                    assert(out@ == out@ + Seq::<char>::empty());
                }
            },
        }
        i = i + 1;
    }
    assert(entries@.take(i as int) == entries@);
    Some(out)
}

} // verus!
