//! Reading whitespace, fixed words, names, integers and operator signs.

use crate::ast::Name;
use crate::model::Operator;
use crate::parser::grammar;
use crate::parser::grammar::{ascii, chars};
use crate::parser::Error;
use crate::text::push_char;
use vstd::prelude::*;
use vstd::string::is_ascii;

verus! {

/// `nom::character::is_digit`: whether the byte is one of the ASCII digits `0` to `9`.
pub assume_specification[ nom::character::is_digit ](chr: u8) -> (r: bool)
    ensures
        r == (0x30 <= chr <= 0x39),
;

/// Whether the byte is whitespace.
pub fn is_space(b: u8) -> (r: bool)
    ensures
        r == grammar::is_space(b),
{
    b == 32 || b == 9 || b == 13 || b == 10
}

/// Whether the byte may stand in a name.
pub fn is_name_byte(b: u8) -> (r: bool)
    ensures
        r == grammar::is_name_byte(b),
{
    (97 <= b && b <= 122) || b == 95
}

/// The first position from `i` on that holds no whitespace.
pub fn skip_space(s: &[u8], i: usize) -> (j: usize)
    requires
        i <= s.len(),
    ensures
        j == grammar::skip_space(s@, i as int),
        i <= j <= s.len(),
{
    let mut j = i;
    while j < s.len() && is_space(s[j])
        invariant
            i <= j <= s.len(),
            grammar::skip_space(s@, j as int) == grammar::skip_space(s@, i as int),
        decreases s.len() - j,
    {
        j += 1;
    }
    j
}

/// The first position from `i` on that holds no digit.
pub fn skip_digits(s: &[u8], i: usize) -> (j: usize)
    requires
        i <= s.len(),
    ensures
        j == grammar::skip_digits(s@, i as int),
        i <= j <= s.len(),
{
    let mut j = i;
    while j < s.len() && nom::character::is_digit(s[j])
        invariant
            i <= j <= s.len(),
            grammar::skip_digits(s@, j as int) == grammar::skip_digits(s@, i as int),
        decreases s.len() - j,
    {
        j += 1;
    }
    j
}

/// The first position from `i` on that holds no byte of a name.
pub fn skip_name(s: &[u8], i: usize) -> (j: usize)
    requires
        i <= s.len(),
    ensures
        j == grammar::skip_name(s@, i as int),
        i <= j <= s.len(),
{
    let mut j = i;
    while j < s.len() && is_name_byte(s[j])
        invariant
            i <= j <= s.len(),
            grammar::skip_name(s@, j as int) == grammar::skip_name(s@, i as int),
        decreases s.len() - j,
    {
        j += 1;
    }
    j
}

/// Whether the bytes from `i` up to `j` are the word.
pub fn is_word(s: &[u8], i: usize, j: usize, word: &str) -> (r: bool)
    requires
        i <= j <= s.len(),
        is_ascii(word),
    ensures
        r == (s@.subrange(i as int, j as int) == ascii(word@)),
{
    let w = word.as_bytes();
    proof {
        vstd::string::is_ascii_spec_bytes(word);
        assert(w@ =~= ascii(word@));
    }
    if w.len() != j - i {
        return false;
    }
    let mut k: usize = 0;
    while k < w.len()
        invariant
            i <= j <= s.len(),
            w.len() == j - i,
            k <= w.len(),
            w@ == ascii(word@),
            s@.subrange(i as int, i + k) == w@.take(k as int),
        decreases w.len() - k,
    {
        if s[i + k] != w[k] {
            assert(s@.subrange(i as int, j as int)[k as int] != w@[k as int]);
            return false;
        }
        assert(s@.subrange(i as int, i + k + 1) =~= s@.subrange(i as int, i + k).push(
            s@[i + k],
        ));
        assert(w@.take(k + 1) =~= w@.take(k as int).push(w@[k as int]));
        k += 1;
    }
    assert(w@.take(k as int) =~= w@);
    true
}

/// Reads the fixed text `word` at position `i`.
pub fn expect(s: &[u8], i: usize, word: &str) -> (r: Result<usize, Error>)
    requires
        i <= s.len(),
        is_ascii(word),
    ensures
        match r {
            Ok(j) => grammar::expect(s@, i as int, ascii(word@)) == Ok::<int, Error>(j as int) && j
                == i + word@.len() && j <= s.len(),
            Err(e) => grammar::expect(s@, i as int, ascii(word@)) == Err::<int, Error>(e),
        },
{
    let w = word.as_bytes();
    proof {
        vstd::string::is_ascii_spec_bytes(word);
        assert(w@ =~= ascii(word@));
    }
    let available = s.len() - i;
    let n = if w.len() <= available {
        w.len()
    } else {
        available
    };
    if is_prefix(s, i, w, n) {
        if n < w.len() {
            Err(Error::Incomplete)
        } else {
            Ok(i + n)
        }
    } else {
        Err(Error::Token)
    }
}

/// Whether the `n` bytes from `i` on are the first `n` bytes of the word.
fn is_prefix(s: &[u8], i: usize, w: &[u8], n: usize) -> (r: bool)
    requires
        i + n <= s.len(),
        n <= w.len(),
    ensures
        r == (s@.subrange(i as int, i + n) == w@.take(n as int)),
{
    let mut k: usize = 0;
    while k < n
        invariant
            i + n <= s.len(),
            n <= w.len(),
            k <= n,
            s@.subrange(i as int, i + k) == w@.take(k as int),
        decreases n - k,
    {
        if s[i + k] != w[k] {
            assert(s@.subrange(i as int, i + n)[k as int] != w@.take(n as int)[k as int]);
            return false;
        }
        assert(s@.subrange(i as int, i + k + 1) =~= s@.subrange(i as int, i + k).push(
            s@[i + k],
        ));
        assert(w@.take(k + 1) =~= w@.take(k as int).push(w@[k as int]));
        k += 1;
    }
    true
}

} // verus!

verus! {

/// Reads a name at position `i`.
pub fn name(s: &[u8], i: usize) -> (r: Result<(Name, usize), Error>)
    requires
        i <= s.len(),
    ensures
        match r {
            Ok((n, j)) => grammar::name(s@, i as int) == Ok::<_, Error>((n@, j as int)) && i < j
                <= s.len(),
            Err(e) => grammar::name(s@, i as int) == Err::<(Seq<char>, int), Error>(e),
        },
{
    if i >= s.len() {
        return Err(Error::Incomplete);
    }
    if !(97 <= s[i] && s[i] <= 122) {
        return Err(Error::Name);
    }
    let j = skip_name(s, i + 1);
    proof {
        reveal_strlit("inputs");
        reveal_strlit("outputs");
        reveal_strlit("if");
        reveal_strlit("match");
        reveal_strlit("_");
    }
    if is_word(s, i, j, "inputs") || is_word(s, i, j, "outputs") || is_word(s, i, j, "if")
        || is_word(s, i, j, "match") || is_word(s, i, j, "_") {
        return Err(Error::Name);
    }
    let mut text = String::new();
    let mut k = i;
    while k < j
        invariant
            i <= k <= j <= s.len(),
            text@ == chars(s@.subrange(i as int, k as int)),
        decreases j - k,
    {
        push_char(&mut text, s[k] as char);
        assert(chars(s@.subrange(i as int, k + 1)) =~= chars(s@.subrange(i as int, k as int)).push(
            s@[k as int] as char,
        ));
        k += 1;
    }
    Ok((Name(text), j))
}

/// Reads an operator sign at position `i`.
pub fn operator(s: &[u8], i: usize) -> (r: Result<(Operator, usize), Error>)
    requires
        i <= s.len(),
    ensures
        match r {
            Ok((op, j)) => grammar::operator(s@, i as int) == Ok::<_, Error>((op, j as int)) && j
                == i + 1 && j <= s.len(),
            Err(e) => grammar::operator(s@, i as int) == Err::<(Operator, int), Error>(e),
        },
{
    if i >= s.len() {
        Err(Error::Incomplete)
    } else if s[i] == 43 {
        Ok((Operator::Add, i + 1))
    } else if s[i] == 45 {
        Ok((Operator::Subtract, i + 1))
    } else if s[i] == 42 {
        Ok((Operator::Multiply, i + 1))
    } else if s[i] == 47 {
        Ok((Operator::Divide, i + 1))
    } else {
        Err(Error::Operator)
    }
}

/// Reads a variable at position `i`: a name that no `(` follows.
pub fn variable_substitution(s: &[u8], i: usize) -> (r: Result<(Name, usize), Error>)
    requires
        i <= s.len(),
    ensures
        match r {
            Ok((n, j)) => grammar::variable_substitution(s@, i as int) == Ok::<_, Error>(
                (n@, j as int),
            ) && i < j <= s.len(),
            Err(e) => grammar::variable_substitution(s@, i as int) == Err::<
                (Seq<char>, int),
                Error,
            >(e),
        },
{
    match name(s, i) {
        Err(e) => Err(e),
        Ok((n, j)) => {
            let k = skip_space(s, j);
            if k >= s.len() {
                Err(Error::Incomplete)
            } else if s[k] == 40 {
                Err(Error::Variable)
            } else {
                Ok((n, k))
            }
        },
    }
}

/// The digits from `from` up to `to` stand for a number of at most `limit`:
/// then that number.
fn decimal(s: &[u8], from: usize, to: usize, limit: u64) -> (r: Option<u64>)
    requires
        from <= to <= s.len(),
        forall|k: int| from <= k < to ==> grammar::is_digit(#[trigger] s@[k]),
        9 <= limit <= 0x8000_0000_0000_0000,
    ensures
        match r {
            Some(v) => v == grammar::decimal(s@, from as int, to as int) && v <= limit,
            None => grammar::decimal(s@, from as int, to as int) > limit,
        },
{
    let mut value: u64 = 0;
    let mut k = from;
    while k < to
        invariant
            from <= k <= to <= s.len(),
            forall|k: int| from <= k < to ==> grammar::is_digit(#[trigger] s@[k]),
            9 <= limit <= 0x8000_0000_0000_0000,
            value == grammar::decimal(s@, from as int, k as int),
            value <= limit,
        decreases to - k,
    {
        let d: u64 = (s[k] - 48) as u64;
        assert(grammar::decimal(s@, from as int, k + 1) == value * 10 + d);
        if value > (limit - d) / 10 {
            proof {
                lemma_decimal_grows(s@, from as int, k + 1, to as int);
            }
            return None;
        }
        value = value * 10 + d;
        k += 1;
    }
    Some(value)
}

/// More digits never stand for a smaller number.
proof fn lemma_decimal_grows(s: Seq<u8>, from: int, mid: int, to: int)
    requires
        from <= mid <= to <= s.len(),
        forall|k: int| from <= k < to ==> grammar::is_digit(#[trigger] s[k]),
    ensures
        grammar::decimal(s, from, mid) <= grammar::decimal(s, from, to),
    decreases to - mid,
{
    if mid < to {
        lemma_decimal_grows(s, from, mid, to - 1);
    }
}

/// Every byte between a position and where `skip_digits` ends is a digit.
proof fn lemma_skip_digits_run(s: Seq<u8>, i: int)
    requires
        0 <= i <= s.len(),
    ensures
        forall|k: int| i <= k < grammar::skip_digits(s, i) ==> grammar::is_digit(#[trigger] s[k]),
    decreases s.len() - i,
{
    if i < s.len() && grammar::is_digit(s[i]) {
        lemma_skip_digits_run(s, i + 1);
    }
}

/// Reads an integer literal at position `i`.
pub fn integer(s: &[u8], i: usize) -> (r: Result<(i64, usize), Error>)
    requires
        i <= s.len(),
    ensures
        match r {
            Ok((n, j)) => grammar::integer(s@, i as int) == Ok::<_, Error>((n, j as int)) && i < j
                <= s.len(),
            Err(e) => grammar::integer(s@, i as int) == Err::<(i64, int), Error>(e),
        },
{
    if i >= s.len() {
        return Err(Error::Incomplete);
    }
    let negative = s[i] == 45;
    let from = if negative {
        i + 1
    } else {
        i
    };
    if from >= s.len() {
        return Err(Error::Incomplete);
    }
    if !nom::character::is_digit(s[from]) {
        return Err(Error::Integer);
    }
    let to = skip_digits(s, from);
    proof {
        lemma_skip_digits_run(s@, from as int);
        grammar::lemma_skip_bounds(s@, from + 1);
    }
    if negative {
        match decimal(s, from, to, 0x8000_0000_0000_0000) {
            None => Err(Error::Integer),
            Some(v) => if v == 0x8000_0000_0000_0000 {
                Ok((i64::MIN, to))
            } else {
                Ok((-(v as i64), to))
            },
        }
    } else {
        match decimal(s, from, to, 0x7fff_ffff_ffff_ffff) {
            None => Err(Error::Integer),
            Some(v) => Ok((v as i64, to)),
        }
    }
}

} // verus!
