//! Readers for unit definitions, conversion definitions and conversion
//! requests.
use crate::aliases::AliasTable;
use crate::error::Error;
use crate::registry::Conversion;
use crate::text::{
    alphabetic, back_space, back_space_exec, chars_of, decimal_i32, digit, is_alphabetic, is_digit,
    parse_i32, skip_space, skip_space_exec, string_of, trimmed, trimmed_string,
};
use vstd::prelude::*;

verus! {

/// The number that the caller found at position `i` of a line of length
/// `len`: its value and how many characters it spans. `numbers[i]` holds what
/// a number reader makes of the text from `i` on; an entry that is empty or
/// runs past `len` means that no number starts there.
pub open spec fn number_at<N>(numbers: Seq<Option<(N, usize)>>, len: int, i: int) -> Option<
    (N, int),
> {
    if 0 <= i < numbers.len() {
        match numbers[i] {
            Some((v, l)) => if 0 < l && i + l <= len {
                Some((v, l as int))
            } else {
                None
            },
            None => None,
        }
    } else {
        None
    }
}

fn number_at_exec<N: Copy>(numbers: &Vec<Option<(N, usize)>>, len: usize, i: usize) -> (r: Option<
    (N, usize),
>)
    ensures
        match number_at(numbers@, len as int, i as int) {
            Some((v, l)) => r == Some((v, l as usize)),
            None => r is None,
        },
{
    if i < numbers.len() {
        match numbers[i] {
            Some((v, l)) => {
                if 0 < l && l <= len && i <= len - l {
                    Some((v, l))
                } else {
                    None
                }
            },
            None => None,
        }
    } else {
        None
    }
}

/// The first index in `[i, end)` whose character is one of `stops`.
pub open spec fn next_stop(line: Seq<char>, i: int, end: int, stops: Seq<char>) -> Option<int>
    decreases end - i,
{
    if i < 0 || i >= end || i >= line.len() {
        None
    } else if stops.contains(line[i]) {
        Some(i)
    } else {
        next_stop(line, i + 1, end, stops)
    }
}

fn contains_char(stops: &Vec<char>, c: char) -> (r: bool)
    ensures
        r == stops@.contains(c),
{
    let mut i: usize = 0;
    while i < stops.len()
        invariant
            i <= stops.len(),
            forall|k: int| 0 <= k < i ==> stops@[k] != c,
        decreases stops.len() - i,
    {
        if stops[i] == c {
            return true;
        }
        i = i + 1;
    }
    false
}

pub(crate) fn next_stop_exec(line: &Vec<char>, from: usize, end: usize, stops: &Vec<char>) -> (r: Option<usize>)
    requires
        from <= end <= line.len(),
    ensures
        match r {
            Some(t) => next_stop(line@, from as int, end as int, stops@) == Some(t as int) && from
                <= t < end,
            None => next_stop(line@, from as int, end as int, stops@) is None,
        },
{
    let mut i = from;
    while i < end
        invariant
            from <= i <= end <= line.len(),
            next_stop(line@, from as int, end as int, stops@) == next_stop(
                line@,
                i as int,
                end as int,
                stops@,
            ),
        decreases end - i,
    {
        if contains_char(stops, line[i]) {
            return Some(i);
        }
        i = i + 1;
    }
    None
}

/// Reads a unit name from position `from` up to the first of `stops`.
///
/// Returns the name without white space at either end, the number of
/// characters read (the stop included), and the stop; `None` where no stop
/// follows.
pub fn extract_unit(line: &Vec<char>, from: usize, stops: &Vec<char>) -> (r: Option<
    (String, usize, char),
>)
    requires
        from <= line.len(),
    ensures
        match next_stop(line@, from as int, line.len() as int, stops@) {
            None => r is None,
            Some(t) => r matches Some((u, size, c)) && u@ == trimmed(line@, from as int, t) && size
                == t - from + 1 && c == line@[t],
        },
{
    match next_stop_exec(line, from, line.len(), stops) {
        None => None,
        Some(t) => {
            let u = trimmed_string(line, from, t);
            let r = Some((u, t - from + 1, line[t]));
            r
        },
    }
}

// ---------------------------------------------------------------------------
// Unit definitions: `#name, alias, alias|plural, ...;`
/// The states of the scanner that reads a unit definition.
#[derive(Clone, Copy, PartialEq, Eq, Structural, Debug)]
pub enum AliasState {
    AwaitingSigil,
    AwaitingAliasStart,
    InAlias,
    Done,
}

/// What the scanner of a unit definition holds after some characters.
pub struct AliasScan {
    pub state: AliasState,
    pub names: Seq<Seq<char>>,
    pub word: Seq<char>,
    pub move_up: bool,
}

/// Adds a finished alias to the list: at the end, or, after a `|`, just before
/// the last alias.
pub open spec fn place(names: Seq<Seq<char>>, word: Seq<char>, move_up: bool) -> Seq<Seq<char>> {
    if move_up && names.len() > 0 {
        names.insert(names.len() - 1, word)
    } else {
        names.push(word)
    }
}

pub open spec fn alias_step(st: AliasScan, c: char) -> AliasScan {
    match st.state {
        AliasState::AwaitingSigil => AliasScan { state: AliasState::AwaitingAliasStart, ..st },
        AliasState::AwaitingAliasStart => if alphabetic(c) {
            AliasScan { state: AliasState::InAlias, word: st.word.push(c), ..st }
        } else {
            st
        },
        AliasState::InAlias => if c == '|' {
            AliasScan { names: st.names.push(st.word), move_up: true, ..st }
        } else if c == ',' {
            AliasScan {
                state: AliasState::AwaitingAliasStart,
                names: place(st.names, st.word, st.move_up),
                word: Seq::empty(),
                ..st
            }
        } else if c == ';' {
            AliasScan { state: AliasState::Done, ..st }
        } else {
            AliasScan { word: st.word.push(c), ..st }
        },
        AliasState::Done => st,
    }
}

pub open spec fn alias_scan(s: Seq<char>) -> AliasScan
    decreases s.len(),
{
    if s.len() == 0 {
        AliasScan {
            state: AliasState::AwaitingSigil,
            names: Seq::empty(),
            word: Seq::empty(),
            move_up: false,
        }
    } else {
        alias_step(alias_scan(s.drop_last()), s.last())
    }
}

/// The aliases that a unit definition lists, the display name first.
pub open spec fn alias_list(s: Seq<char>) -> Seq<Seq<char>> {
    let st = alias_scan(s);
    if st.word.len() > 0 {
        place(st.names, st.word, st.move_up)
    } else {
        st.names
    }
}

pub open spec fn strings_view(v: Seq<String>) -> Seq<Seq<char>> {
    v.map_values(|s: String| s@)
}

fn place_exec(names: &mut Vec<String>, word: &String, move_up: bool)
    ensures
        strings_view(final(names)@) == place(strings_view(old(names)@), word@, move_up),
{
    let ghost before = strings_view(names@);
    if move_up && names.len() > 0 {
        let k = names.len() - 1;
        names.insert(k, word.clone());
        assert(strings_view(names@) == before.insert(k as int, word@));
    } else {
        names.push(word.clone());
        assert(strings_view(names@) == before.push(word@));
    }
}

/// Reads the aliases of a unit definition (`#meter, m, meters;`); the first
/// one names the unit. A `|` after an alias makes the alias that follows it
/// go before it.
pub fn parse_alias_list(line: &str) -> (r: Vec<String>)
    requires
        line@.len() > 0,
        line@[0] == '#',
    ensures
        strings_view(r@) == alias_list(line@),
{
    alias_list_of(&chars_of(line))
}

/// `parse_alias_list` on the characters of a line.
pub fn alias_list_of(chars: &Vec<char>) -> (r: Vec<String>)
    ensures
        strings_view(r@) == alias_list(chars@),
{
    let mut state = AliasState::AwaitingSigil;
    let mut names: Vec<String> = Vec::new();
    let mut word = String::new();
    let mut move_up = false;
    let mut i: usize = 0;
    assert(chars@.take(0) == Seq::<char>::empty());
    assert(strings_view(names@) == Seq::<Seq<char>>::empty());
    while i < chars.len()
        invariant
            i <= chars.len(),
            alias_scan(chars@.take(i as int)) == (AliasScan {
                state,
                names: strings_view(names@),
                word: word@,
                move_up,
            }),
        decreases chars.len() - i,
    {
        let c = chars[i];
        assert(chars@.take(i + 1).drop_last() == chars@.take(i as int));
        match state {
            AliasState::AwaitingSigil => {
                state = AliasState::AwaitingAliasStart;
            },
            AliasState::AwaitingAliasStart => {
                if is_alphabetic(c) {
                    crate::text::push_char(&mut word, c);
                    state = AliasState::InAlias;
                }
            },
            AliasState::Done => {},
            AliasState::InAlias => {
                if c == '|' {
                    let ghost before = strings_view(names@);
                    names.push(word.clone());
                    assert(strings_view(names@) == before.push(word@));
                    move_up = true;
                } else if c == ',' {
                    place_exec(&mut names, &word, move_up);
                    word = String::new();
                    state = AliasState::AwaitingAliasStart;
                } else if c == ';' {
                    state = AliasState::Done;
                } else {
                    crate::text::push_char(&mut word, c);
                }
            },
        }
        i = i + 1;
    }
    assert(chars@.take(i as int) == chars@);
    if !word.as_str().is_empty() {
        place_exec(&mut names, &word, move_up);
    }
    names
}

// ---------------------------------------------------------------------------
// Conversion definitions: `$ 1 km = 1000 m;`
/// The number at `p`, or `one` where there is none, and the position after it.
pub open spec fn number_or_one<N>(numbers: Seq<Option<(N, usize)>>, len: int, p: int, one: N) -> (
    N,
    int,
) {
    match number_at(numbers, len, p) {
        Some((v, l)) => (v, p + l),
        None => (one, p),
    }
}

/// What a conversion definition `$ a x = b y;` holds: the alias `x`, the
/// alias `y`, and the factor from `x` to `y`, `b / a`. A missing number counts
/// as `one`. `None` where the `=` or the `;` is missing.
pub open spec fn conversion_line<N>(line: Seq<char>, numbers: Seq<Option<(N, usize)>>, one: N) -> Option<
    (Seq<char>, Seq<char>, Conversion<N>),
> {
    let len = line.len() as int;
    let (v1, q) = number_or_one(numbers, len, skip_space(line, 1, len), one);
    match next_stop(line, q, len, seq!['=']) {
        None => None,
        Some(t1) => {
            let (v2, q2) = number_or_one(numbers, len, skip_space(line, t1 + 1, len), one);
            match next_stop(line, q2, len, seq![';']) {
                None => None,
                Some(t2) => Some(
                    (
                        trimmed(line, q, t1),
                        trimmed(line, q2, t2),
                        Conversion { numerator: v2, denominator: v1 },
                    ),
                ),
            }
        },
    }
}

fn number_or_one_exec<N: Copy>(numbers: &Vec<Option<(N, usize)>>, len: usize, p: usize, one: N) -> (r: (
    N,
    usize,
))
    requires
        p <= len,
    ensures
        r.0 == number_or_one(numbers@, len as int, p as int, one).0,
        r.1 == number_or_one(numbers@, len as int, p as int, one).1,
        p <= r.1 <= len,
{
    match number_at_exec(numbers, len, p) {
        Some((v, l)) => (v, p + l),
        None => (one, p),
    }
}

/// Reads a conversion definition (`$ 1 km = 1000 m;`) into the two aliases and
/// the factor from the first unit to the second. The line is the `$` and
/// what follows it; `numbers` tells where numbers start (see `number_at`).
pub fn parse_conversion<N: Copy>(line: &Vec<char>, numbers: &Vec<Option<(N, usize)>>, one: N) -> (r: Result<
    (String, String, Conversion<N>),
    Error,
>)
    requires
        line.len() > 0,
    ensures
        match conversion_line(line@, numbers@, one) {
            Some((a, b, c)) => r matches Ok((x, y, z)) && x@ == a && y@ == b && z == c,
            None => r == Err::<(String, String, Conversion<N>), Error>(Error::MalformedConversion),
        },
{
    let len = line.len();
    let p = skip_space_exec(line, 1, len);
    let (v1, q) = number_or_one_exec(numbers, len, p, one);
    let equals = vec!['='];
    assert(equals@ == seq!['=']);
    let t1 = match next_stop_exec(line, q, len, &equals) {
        Some(t) => t,
        None => return Err(Error::MalformedConversion),
    };
    let second_start = skip_space_exec(line, t1 + 1, len);
    let (v2, q2) = number_or_one_exec(numbers, len, second_start, one);
    let semicolon = vec![';'];
    assert(semicolon@ == seq![';']);
    let t2 = match next_stop_exec(line, q2, len, &semicolon) {
        Some(t) => t,
        None => return Err(Error::MalformedConversion),
    };
    Ok((trimmed_string(line, q, t1), trimmed_string(line, q2, t2), Conversion::new(v2, v1)))
}

// ---------------------------------------------------------------------------
// Conversion requests: `5 km / h : m / s;`
/// The four lists of units in a request.
#[derive(Clone, Copy, PartialEq, Eq, Structural, Debug)]
pub enum Side {
    StartNumer,
    StartDenom,
    EndNumer,
    EndDenom,
}

/// A parsed request: the numeric coefficients that multiply the starting
/// quantity (`true` marks one that divides), and the identifiers of the
/// numerator and denominator units on each side of the `:`.
pub struct Request<N> {
    pub coefficients: Vec<(N, bool)>,
    pub starting_numers: Vec<usize>,
    pub starting_denoms: Vec<usize>,
    pub ending_numers: Vec<usize>,
    pub ending_denoms: Vec<usize>,
}

pub struct RequestModel<N> {
    pub coefficients: Seq<(N, bool)>,
    pub starting_numers: Seq<usize>,
    pub starting_denoms: Seq<usize>,
    pub ending_numers: Seq<usize>,
    pub ending_denoms: Seq<usize>,
}

impl<N> View for Request<N> {
    type V = RequestModel<N>;

    open spec fn view(&self) -> RequestModel<N> {
        RequestModel {
            coefficients: self.coefficients@,
            starting_numers: self.starting_numers@,
            starting_denoms: self.starting_denoms@,
            ending_numers: self.ending_numers@,
            ending_denoms: self.ending_denoms@,
        }
    }
}

impl<N> RequestModel<N> {
    pub open spec fn empty() -> Self {
        RequestModel {
            coefficients: Seq::empty(),
            starting_numers: Seq::empty(),
            starting_denoms: Seq::empty(),
            ending_numers: Seq::empty(),
            ending_denoms: Seq::empty(),
        }
    }

    /// The request with `n` more copies of `id` at the end of one list.
    pub open spec fn with_units(self, side: Side, id: usize, n: nat) -> Self {
        let ids = Seq::new(n, |_i: int| id);
        match side {
            Side::StartNumer => RequestModel { starting_numers: self.starting_numers + ids, ..self },
            Side::StartDenom => RequestModel { starting_denoms: self.starting_denoms + ids, ..self },
            Side::EndNumer => RequestModel { ending_numers: self.ending_numers + ids, ..self },
            Side::EndDenom => RequestModel { ending_denoms: self.ending_denoms + ids, ..self },
        }
    }

    pub open spec fn with_coefficient(self, v: N, divide: bool) -> Self {
        RequestModel { coefficients: self.coefficients.push((v, divide)), ..self }
    }
}

fn push_repeat(v: &mut Vec<usize>, id: usize, n: usize)
    ensures
        final(v)@ == old(v)@ + Seq::new(n as nat, |_i: int| id),
{
    let mut i: usize = 0;
    while i < n
        invariant
            i <= n,
            v@ == old(v)@ + Seq::new(i as nat, |_i: int| id),
        decreases n - i,
    {
        v.push(id);
        i = i + 1;
        assert(v@ == old(v)@ + Seq::new(i as nat, |_i: int| id));
    }
}

impl<N: Copy> Request<N> {
    pub fn new() -> (r: Self)
        ensures
            r@ == RequestModel::<N>::empty(),
    {
        Request {
            coefficients: Vec::new(),
            starting_numers: Vec::new(),
            starting_denoms: Vec::new(),
            ending_numers: Vec::new(),
            ending_denoms: Vec::new(),
        }
    }

    fn push_units(&mut self, side: Side, id: usize, n: usize)
        ensures
            final(self)@ == old(self)@.with_units(side, id, n as nat),
    {
        match side {
            Side::StartNumer => push_repeat(&mut self.starting_numers, id, n),
            Side::StartDenom => push_repeat(&mut self.starting_denoms, id, n),
            Side::EndNumer => push_repeat(&mut self.ending_numers, id, n),
            Side::EndDenom => push_repeat(&mut self.ending_denoms, id, n),
        }
    }
}

/// The errors that reading a request can end in.
pub enum Fault {
    UnknownUnit(Seq<char>),
    InvalidExponent,
    NumberAfterPivot,
    MissingPivot,
}

pub open spec fn fault_matches(e: Error, f: Fault) -> bool {
    match f {
        Fault::UnknownUnit(s) => e matches Error::UnknownUnit(x) && x@ == s,
        Fault::InvalidExponent => e is InvalidExponent,
        Fault::NumberAfterPivot => e is NumberAfterPivot,
        Fault::MissingPivot => e is MissingPivot,
    }
}

/// The list that a unit goes to, from the separator before it and whether the
/// `:` has been passed.
pub open spec fn side_of(prev: char, after: bool) -> Side {
    if !after {
        if prev == '/' {
            Side::StartDenom
        } else {
            Side::StartNumer
        }
    } else {
        if prev == '/' {
            Side::EndDenom
        } else {
            Side::EndNumer
        }
    }
}

/// The effect of the unit token `line[a..b]`: `alias` or `alias^n`, which
/// adds the unit `n` times (no time where `n` is not positive).
pub open spec fn unit_token<N>(
    line: Seq<char>,
    a: int,
    b: int,
    side: Side,
    aliases: Map<Seq<char>, usize>,
    acc: RequestModel<N>,
) -> Result<RequestModel<N>, Fault> {
    if a >= b {
        Ok(acc)
    } else {
        let (base_end, exp) = match next_stop(line, a, b, seq!['^']) {
            Some(k) => (k, decimal_i32(trimmed(line, k + 1, b))),
            None => (b, Some(1i32)),
        };
        match exp {
            None => Err(Fault::InvalidExponent),
            Some(e) => {
                let base = line.subrange(a, base_end);
                if aliases.contains_key(base) {
                    Ok(
                        acc.with_units(
                            side,
                            aliases[base],
                            if e > 0 {
                                e as nat
                            } else {
                                0
                            },
                        ),
                    )
                } else {
                    Err(Fault::UnknownUnit(base))
                }
            },
        }
    }
}

pub open spec fn has_digit(line: Seq<char>, from: int, to: int) -> bool {
    exists|k: int| from <= k < to && is_digit(#[trigger] line[k])
}

/// The effect of the clause `line[pos..t]`, which the separator `prev` comes
/// before. Before the `:` a clause may start with a number, which multiplies
/// the quantity (divides it after a `/`); after it, no digit may appear.
pub open spec fn clause<N>(
    line: Seq<char>,
    numbers: Seq<Option<(N, usize)>>,
    aliases: Map<Seq<char>, usize>,
    pos: int,
    t: int,
    prev: char,
    after: bool,
    acc: RequestModel<N>,
) -> Result<RequestModel<N>, Fault> {
    let side = side_of(prev, after);
    let s = skip_space(line, pos, t);
    if after {
        if has_digit(line, pos, t) {
            Err(Fault::NumberAfterPivot)
        } else {
            unit_token(line, s, back_space(line, s, t), side, aliases, acc)
        }
    } else {
        match number_at(numbers, t, s) {
            Some((v, l)) => {
                let a = skip_space(line, s + l, t);
                unit_token(
                    line,
                    a,
                    back_space(line, a, t),
                    side,
                    aliases,
                    acc.with_coefficient(v, prev == '/'),
                )
            },
            None => {
                let a = skip_space(line, s, t);
                unit_token(line, a, back_space(line, a, t), side, aliases, acc)
            },
        }
    }
}

pub open spec fn request_stops() -> Seq<char> {
    seq![';', ':', '*', '/']
}

/// Reads the clauses from `pos` on, up to the first `;`, and tells at the end
/// whether a `:` was passed.
pub open spec fn clauses<N>(
    line: Seq<char>,
    numbers: Seq<Option<(N, usize)>>,
    aliases: Map<Seq<char>, usize>,
    pos: int,
    prev: char,
    after: bool,
    acc: RequestModel<N>,
) -> Result<(RequestModel<N>, bool), Fault>
    decreases line.len() - pos,
{
    match next_stop(line, pos, line.len() as int, request_stops()) {
        None => Ok((acc, after)),
        Some(t) => if t < pos || t >= line.len() {
            Ok((acc, after))
        } else {
            match clause(line, numbers, aliases, pos, t, prev, after, acc) {
                Err(f) => Err(f),
                Ok(next) => if line[t] == ';' {
                    Ok((next, after))
                } else {
                    clauses(line, numbers, aliases, t + 1, line[t], after || line[t] == ':', next)
                },
            }
        },
    }
}

/// What a request line means: the clauses read from its start, which must
/// pass a `:`.
pub open spec fn request_of<N>(
    line: Seq<char>,
    numbers: Seq<Option<(N, usize)>>,
    aliases: Map<Seq<char>, usize>,
) -> Result<RequestModel<N>, Fault> {
    match clauses(line, numbers, aliases, 0, '*', false, RequestModel::empty()) {
        Err(f) => Err(f),
        Ok((m, pivot)) => if pivot {
            Ok(m)
        } else {
            Err(Fault::MissingPivot)
        },
    }
}

fn unit_token_exec<N: Copy>(
    line: &Vec<char>,
    a: usize,
    b: usize,
    side: Side,
    aliases: &AliasTable,
    acc: &mut Request<N>,
) -> (r: Result<(), Error>)
    requires
        a <= b <= line.len(),
    ensures
        match unit_token(line@, a as int, b as int, side, aliases@, old(acc)@) {
            Ok(m) => r is Ok && final(acc)@ == m,
            Err(f) => r matches Err(e) && fault_matches(e, f) && final(acc)@ == old(acc)@,
        },
{
    if a >= b {
        return Ok(());
    }
    let caret = vec!['^'];
    assert(caret@ == seq!['^']);
    let (base_end, exp) = match next_stop_exec(line, a, b, &caret) {
        Some(k) => {
            let x = skip_space_exec(line, k + 1, b);
            let y = back_space_exec(line, x, b);
            (k, parse_i32(line, x, y))
        },
        None => (b, Some(1i32)),
    };
    match exp {
        None => Err(Error::InvalidExponent),
        Some(e) => {
            let base = string_of(line, a, base_end);
            match aliases.get(&base) {
                None => Err(Error::UnknownUnit(base)),
                Some(id) => {
                    let n: usize = if e > 0 {
                        e as usize
                    } else {
                        0
                    };
                    acc.push_units(side, id, n);
                    Ok(())
                },
            }
        },
    }
}

fn has_digit_exec(line: &Vec<char>, from: usize, to: usize) -> (r: bool)
    requires
        from <= to <= line.len(),
    ensures
        r == has_digit(line@, from as int, to as int),
{
    let mut k = from;
    while k < to
        invariant
            from <= k <= to <= line.len(),
            forall|j: int| from <= j < k ==> !is_digit(#[trigger] line@[j]),
        decreases to - k,
    {
        if digit(line[k]) {
            return true;
        }
        k = k + 1;
    }
    false
}

fn clause_exec<N: Copy>(
    line: &Vec<char>,
    numbers: &Vec<Option<(N, usize)>>,
    aliases: &AliasTable,
    pos: usize,
    t: usize,
    prev: char,
    after: bool,
    acc: &mut Request<N>,
) -> (r: Result<(), Error>)
    requires
        pos <= t <= line.len(),
    ensures
        match clause(line@, numbers@, aliases@, pos as int, t as int, prev, after, old(acc)@) {
            Ok(m) => r is Ok && final(acc)@ == m,
            Err(f) => r matches Err(e) && fault_matches(e, f),
        },
{
    let side = if !after {
        if prev == '/' {
            Side::StartDenom
        } else {
            Side::StartNumer
        }
    } else {
        if prev == '/' {
            Side::EndDenom
        } else {
            Side::EndNumer
        }
    };
    let s = skip_space_exec(line, pos, t);
    if after {
        if has_digit_exec(line, pos, t) {
            Err(Error::NumberAfterPivot)
        } else {
            let b = back_space_exec(line, s, t);
            unit_token_exec(line, s, b, side, aliases, acc)
        }
    } else {
        match number_at_exec(numbers, t, s) {
            Some((v, l)) => {
                acc.coefficients.push((v, prev == '/'));
                let a = skip_space_exec(line, s + l, t);
                let b = back_space_exec(line, a, t);
                unit_token_exec(line, a, b, side, aliases, acc)
            },
            None => {
                let a = skip_space_exec(line, s, t);
                let b = back_space_exec(line, a, t);
                unit_token_exec(line, a, b, side, aliases, acc)
            },
        }
    }
}

/// Reads a conversion request (`5 km / h : m / s;`): the numbers that scale
/// the starting quantity, and the units of each side of the `:`, as
/// `request_of` describes. `numbers` tells where numbers start (see
/// `number_at`); `aliases` resolves unit names.
pub fn extract_value_and_units<N: Copy>(
    line: &Vec<char>,
    numbers: &Vec<Option<(N, usize)>>,
    aliases: &AliasTable,
) -> (r: Result<Request<N>, Error>)
    ensures
        match request_of(line@, numbers@, aliases@) {
            Ok(m) => r matches Ok(q) && q@ == m,
            Err(f) => r matches Err(e) && fault_matches(e, f),
        },
{
    let stops = vec![';', ':', '*', '/'];
    assert(stops@ == request_stops());
    let mut acc: Request<N> = Request::new();
    let mut pos: usize = 0;
    let mut prev = '*';
    let mut after = false;
    let mut finished = false;
    while !finished
        invariant
            pos <= line.len(),
            stops@ == request_stops(),
            !finished ==> clauses(
                line@,
                numbers@,
                aliases@,
                0,
                '*',
                false,
                RequestModel::empty(),
            ) == clauses(line@, numbers@, aliases@, pos as int, prev, after, acc@),
            finished ==> clauses(line@, numbers@, aliases@, 0, '*', false, RequestModel::empty())
                == Ok::<(RequestModel<N>, bool), Fault>((acc@, after)),
        decreases line.len() - pos + if finished {
            0int
        } else {
            1int
        },
    {
        match next_stop_exec(line, pos, line.len(), &stops) {
            None => {
                finished = true;
            },
            Some(t) => {
                let ghost before = acc@;
                let res = clause_exec(line, numbers, aliases, pos, t, prev, after, &mut acc);
                match res {
                    Err(e) => {
                        return Err(e);
                    },
                    Ok(()) => {},
                }
                if line[t] == ';' {
                    finished = true;
                } else {
                    after = after || line[t] == ':';
                    prev = line[t];
                    pos = t + 1;
                }
            },
        }
    }
    if after {
        Ok(acc)
    } else {
        Err(Error::MissingPivot)
    }
}

} // verus!
