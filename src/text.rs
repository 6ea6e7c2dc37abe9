//! Character classes, trimming, decimal numbers and subscript digits.
use vstd::prelude::*;

verus! {

/// The characters that `char::is_whitespace` accepts: those with the Unicode
/// White_Space property.
pub open spec fn is_space(c: char) -> bool {
    ('\u{9}' <= c && c <= '\u{d}') || c == ' ' || c == '\u{85}' || c == '\u{a0}' || c == '\u{1680}'
        || ('\u{2000}' <= c && c <= '\u{200a}') || c == '\u{2028}' || c == '\u{2029}' || c
        == '\u{202f}' || c == '\u{205f}' || c == '\u{3000}'
}

pub open spec fn is_digit(c: char) -> bool {
    '0' <= c && c <= '9'
}

pub open spec fn is_upper(c: char) -> bool {
    'A' <= c && c <= 'Z'
}

pub open spec fn is_lower(c: char) -> bool {
    'a' <= c && c <= 'z'
}

pub fn space(c: char) -> (r: bool)
    ensures
        r == is_space(c),
{
    ('\u{9}' <= c && c <= '\u{d}') || c == ' ' || c == '\u{85}' || c == '\u{a0}' || c == '\u{1680}'
        || ('\u{2000}' <= c && c <= '\u{200a}') || c == '\u{2028}' || c == '\u{2029}' || c
        == '\u{202f}' || c == '\u{205f}' || c == '\u{3000}'
}

pub fn digit(c: char) -> (r: bool)
    ensures
        r == is_digit(c),
{
    '0' <= c && c <= '9'
}

/// Whether a character has the Unicode Alphabetic property.
pub uninterp spec fn alphabetic(c: char) -> bool;

/// Relies on `char::is_alphabetic`: whether `c` has the Unicode Alphabetic
/// property, which depends on `c` alone.
#[verifier::external_body]
pub(crate) fn is_alphabetic(c: char) -> (r: bool)
    ensures
        r == alphabetic(c),
{
    c.is_alphabetic()
}

/// Relies on `String::push`: appends one character.
#[verifier::external_body]
pub(crate) fn push_char(s: &mut String, c: char)
    ensures
        final(s)@ == old(s)@.push(c),
{
    s.push(c)
}

/// The characters of a string slice.
pub fn chars_of(s: &str) -> (r: Vec<char>)
    ensures
        r@ == s@,
{
    let mut v: Vec<char> = Vec::new();
    for c in it: s.chars()
        invariant
            v@ == it.seq().take(it.index() as int),
    {
        v.push(c);
    }
    assert(v@ == s@);
    v
}

/// The string made of `s[from..to]`.
pub fn string_of(s: &Vec<char>, from: usize, to: usize) -> (r: String)
    requires
        from <= to <= s.len(),
    ensures
        r@ == s@.subrange(from as int, to as int),
{
    let mut out = String::new();
    let mut i = from;
    while i < to
        invariant
            from <= i <= to <= s.len(),
            out@ == s@.subrange(from as int, i as int),
        decreases to - i,
    {
        push_char(&mut out, s[i]);
        i = i + 1;
    }
    out
}

/// The first index in `[i, to)` that does not hold white space, or `to`.
pub open spec fn skip_space(s: Seq<char>, i: int, to: int) -> int
    decreases to - i,
{
    if i < to && is_space(s[i]) {
        skip_space(s, i + 1, to)
    } else {
        i
    }
}

/// One past the last index in `[from, j)` that does not hold white space, or
/// `from`.
pub open spec fn back_space(s: Seq<char>, from: int, j: int) -> int
    decreases j - from,
{
    if j > from && is_space(s[j - 1]) {
        back_space(s, from, j - 1)
    } else {
        j
    }
}

/// `s[from..to]` without white space at either end.
pub open spec fn trimmed(s: Seq<char>, from: int, to: int) -> Seq<char> {
    let a = skip_space(s, from, to);
    s.subrange(a, back_space(s, a, to))
}

pub fn skip_space_exec(s: &Vec<char>, from: usize, to: usize) -> (r: usize)
    requires
        from <= to <= s.len(),
    ensures
        r == skip_space(s@, from as int, to as int),
        from <= r <= to,
{
    let mut i = from;
    while i < to && space(s[i])
        invariant
            from <= i <= to <= s.len(),
            skip_space(s@, from as int, to as int) == skip_space(s@, i as int, to as int),
        decreases to - i,
    {
        i = i + 1;
    }
    i
}

pub fn back_space_exec(s: &Vec<char>, from: usize, to: usize) -> (r: usize)
    requires
        from <= to <= s.len(),
    ensures
        r == back_space(s@, from as int, to as int),
        from <= r <= to,
{
    let mut j = to;
    while j > from && space(s[j - 1])
        invariant
            from <= j <= to <= s.len(),
            back_space(s@, from as int, to as int) == back_space(s@, from as int, j as int),
        decreases j - from,
    {
        j = j - 1;
    }
    j
}

/// `s[from..to]` without white space at either end, as a string.
pub fn trimmed_string(s: &Vec<char>, from: usize, to: usize) -> (r: String)
    requires
        from <= to <= s.len(),
    ensures
        r@ == trimmed(s@, from as int, to as int),
{
    let a = skip_space_exec(s, from, to);
    let b = back_space_exec(s, a, to);
    string_of(s, a, b)
}

/// The value of a sequence of decimal digits.
pub open spec fn digits_value(s: Seq<char>) -> nat
    decreases s.len(),
{
    if s.len() == 0 {
        0
    } else {
        digits_value(s.drop_last()) * 10 + (s.last() as nat - '0' as nat) as nat
    }
}

pub open spec fn all_digits(s: Seq<char>) -> bool {
    forall|i: int| 0 <= i < s.len() ==> is_digit(#[trigger] s[i])
}

/// The value of `s[from..to]`, all decimal digits, or `cap` if it is larger.
fn digits_capped(s: &Vec<char>, from: usize, to: usize, cap: u64) -> (r: u64)
    requires
        from <= to <= s.len(),
        all_digits(s@.subrange(from as int, to as int)),
        cap <= u32::MAX,
    ensures
        r == if digits_value(s@.subrange(from as int, to as int)) < cap {
            digits_value(s@.subrange(from as int, to as int))
        } else {
            cap as nat
        },
{
    let mut acc: u64 = 0;
    let mut i = from;
    while i < to
        invariant
            from <= i <= to <= s.len(),
            all_digits(s@.subrange(from as int, to as int)),
            cap <= u32::MAX,
            acc == if digits_value(s@.subrange(from as int, i as int)) < cap {
                digits_value(s@.subrange(from as int, i as int))
            } else {
                cap as nat
            },
        decreases to - i,
    {
        let ghost before = s@.subrange(from as int, i as int);
        assert(s@.subrange(from as int, i + 1).drop_last() == before);
        assert(is_digit(s@.subrange(from as int, to as int)[i - from]));
        let d = (s[i] as u32 - '0' as u32) as u64;
        let next = acc * 10 + d;
        proof {
            let x = digits_value(before);
            assert(digits_value(s@.subrange(from as int, i + 1)) == x * 10 + d);
            if x >= cap {
                assert(x * 10 + d >= cap) by (nonlinear_arith)
                    requires
                        x >= cap,
                        d >= 0,
                ;
                assert(cap * 10 + d >= cap) by (nonlinear_arith)
                    requires
                        d >= 0,
                ;
            }
        }
        acc = if next < cap {
            next
        } else {
            cap
        };
        i = i + 1;
    }
    acc
}

/// What `i32::from_str_radix(s, 10)` accepts: an optional sign, then one or
/// more decimal digits, with a value in the range of `i32`.
pub open spec fn decimal_i32(s: Seq<char>) -> Option<i32> {
    let signed = s.len() > 0 && (s[0] == '+' || s[0] == '-');
    let body = if signed {
        s.drop_first()
    } else {
        s
    };
    let v: int = if signed && s[0] == '-' {
        -digits_value(body)
    } else {
        digits_value(body) as int
    };
    if body.len() == 0 || !all_digits(body) || v < i32::MIN || v > i32::MAX {
        None
    } else {
        Some(v as i32)
    }
}

/// Reads `s[from..to]` as a signed decimal integer.
pub fn parse_i32(s: &Vec<char>, from: usize, to: usize) -> (r: Option<i32>)
    requires
        from <= to <= s.len(),
    ensures
        r == decimal_i32(s@.subrange(from as int, to as int)),
{
    let ghost t = s@.subrange(from as int, to as int);
    let signed = from < to && (s[from] == '+' || s[from] == '-');
    let start = if signed {
        from + 1
    } else {
        from
    };
    let ghost body = s@.subrange(start as int, to as int);
    assert(body == if signed {
        t.drop_first()
    } else {
        t
    });
    if start == to {
        assert(body.len() == 0);
        return None;
    }
    let mut i = start;
    while i < to
        invariant
            start <= i <= to <= s.len(),
            body == s@.subrange(start as int, to as int),
            t == s@.subrange(from as int, to as int),
            body == if signed {
                t.drop_first()
            } else {
                t
            },
            signed == (t.len() > 0 && (t[0] == '+' || t[0] == '-')),
            forall|k: int| start <= k < i ==> is_digit(#[trigger] s@[k]),
        decreases to - i,
    {
        if !digit(s[i]) {
            assert(!is_digit(body[i - start]));
            assert(!all_digits(body));
            return None;
        }
        i = i + 1;
    }
    assert(all_digits(body)) by {
        assert forall|k: int| 0 <= k < body.len() implies is_digit(#[trigger] body[k]) by {
            assert(body[k] == s@[start + k]);
        }
    }
    let v = digits_capped(s, start, to, 2147483649);
    if signed && s[from] == '-' {
        if v > 2147483648 {
            None
        } else {
            Some((0 - (v as i64)) as i32)
        }
    } else {
        if v > 2147483647 {
            None
        } else {
            Some(v as i32)
        }
    }
}

/// What `u16::from_str_radix(s, 10)` gives on a sequence of decimal digits.
pub open spec fn decimal_u16(s: Seq<char>) -> Option<u16> {
    if s.len() == 0 || digits_value(s) > u16::MAX {
        None
    } else {
        Some(digits_value(s) as u16)
    }
}

/// Reads `s[from..to]`, all decimal digits, as a `u16`.
pub fn parse_u16(s: &Vec<char>, from: usize, to: usize) -> (r: Option<u16>)
    requires
        from <= to <= s.len(),
        all_digits(s@.subrange(from as int, to as int)),
    ensures
        r == decimal_u16(s@.subrange(from as int, to as int)),
{
    if from == to {
        return None;
    }
    let v = digits_capped(s, from, to, 65536);
    if v > 65535 {
        None
    } else {
        Some(v as u16)
    }
}

/// The subscript form of a decimal digit.
pub open spec fn subscript_digit(d: nat) -> char {
    if d == 0 {
        '\u{2080}'
    } else if d == 1 {
        '\u{2081}'
    } else if d == 2 {
        '\u{2082}'
    } else if d == 3 {
        '\u{2083}'
    } else if d == 4 {
        '\u{2084}'
    } else if d == 5 {
        '\u{2085}'
    } else if d == 6 {
        '\u{2086}'
    } else if d == 7 {
        '\u{2087}'
    } else if d == 8 {
        '\u{2088}'
    } else {
        '\u{2089}'
    }
}

/// The decimal digits of `n`, most significant first, in subscript form.
pub open spec fn subscript_digits(n: nat) -> Seq<char>
    decreases n,
{
    if n < 10 {
        seq![subscript_digit(n)]
    } else {
        subscript_digits(n / 10).push(subscript_digit(n % 10))
    }
}

fn subscript_digit_exec(d: u16) -> (r: char)
    requires
        d < 10,
    ensures
        r == subscript_digit(d as nat),
{
    if d == 0 {
        '\u{2080}'
    } else if d == 1 {
        '\u{2081}'
    } else if d == 2 {
        '\u{2082}'
    } else if d == 3 {
        '\u{2083}'
    } else if d == 4 {
        '\u{2084}'
    } else if d == 5 {
        '\u{2085}'
    } else if d == 6 {
        '\u{2086}'
    } else if d == 7 {
        '\u{2087}'
    } else if d == 8 {
        '\u{2088}'
    } else {
        '\u{2089}'
    }
}

fn push_subscript(n: u16, out: &mut String)
    ensures
        final(out)@ == old(out)@ + subscript_digits(n as nat),
    decreases n,
{
    if n >= 10 {
        push_subscript(n / 10, out);
    }
    push_char(out, subscript_digit_exec(n % 10));
}

/// Writes `num` in decimal with subscript digits (`12` becomes `₁₂`).
pub fn subscript_number(num: u16) -> (r: String)
    ensures
        r@ == subscript_digits(num as nat),
{
    let mut out = String::new();
    push_subscript(num, &mut out);
    out
}

} // verus!
