//! The parser: TJS2 text to a [`Value`].
//!
//! The grammar is stated as spec functions over the input's characters, with
//! positions as character indices; the executable parser is proved to compute
//! exactly what they state. Error positions are reported as byte offsets.
use vstd::prelude::*;

use crate::error::Error;
use crate::text::{
    byte_len, byte_offset, char_from_u32, char_with_code, chars_of, is_scalar_value, is_whitespace,
    push_char, white_space,
};
use crate::value::{
    Val, Value, fits_depth, keys_distinct, well_formed, entries_view, items_view, lemma_entries_view, lemma_items_view, value_view,
};

verus! {

/// A parse failure: its message, and the character index where it was detected.
pub struct Fault {
    pub msg: Seq<char>,
    pub at: int,
}

pub open spec fn fault(msg: &str, at: int) -> Fault {
    Fault { msg: msg@, at }
}

pub open spec fn has_at(s: Seq<char>, i: int, c: char) -> bool {
    0 <= i < s.len() && s[i] == c
}

pub open spec fn starts_at(s: Seq<char>, i: int, t: Seq<char>) -> bool {
    0 <= i && i + t.len() <= s.len() && s.subrange(i, i + t.len()) == t
}

/// How deeply arrays and dictionaries may nest in parsed text.
pub const MAX_DEPTH: usize = 128;

/// The bit patterns that the literals `NaN`, `Infinity` and `-Infinity` stand for.
pub open spec fn nan_bits() -> u64 {
    0x7ff8000000000000
}

pub open spec fn infinity_bits() -> u64 {
    0x7ff0000000000000
}

pub open spec fn neg_infinity_bits() -> u64 {
    0xfff0000000000000
}

// ----- whitespace and comments -----

/// Skips whitespace, `//` line comments and `/* */` block comments from `i`.
pub open spec fn skip_ws(s: Seq<char>, i: int) -> Result<int, Fault>
    decreases s.len() - i, 1int,
{
    if i < 0 || i >= s.len() {
        Ok(i)
    } else if white_space(s[i]) {
        skip_ws(s, i + 1)
    } else if s[i] == '/' && has_at(s, i + 1, '/') {
        skip_line(s, i + 2)
    } else if s[i] == '/' && has_at(s, i + 1, '*') {
        skip_block(s, i + 2, i + 2)
    } else {
        Ok(i)
    }
}

/// Inside a line comment: up to and including the next newline.
pub open spec fn skip_line(s: Seq<char>, i: int) -> Result<int, Fault>
    decreases s.len() - i, 0int,
{
    if i < 0 || i >= s.len() {
        Ok(i)
    } else if s[i] == '\n' {
        skip_ws(s, i + 1)
    } else {
        skip_line(s, i + 1)
    }
}

/// Inside a block comment that began before `start`: up to and including `*/`.
pub open spec fn skip_block(s: Seq<char>, i: int, start: int) -> Result<int, Fault>
    decreases s.len() - i, 0int,
{
    if i < 0 || i + 1 >= s.len() {
        Err(fault("unterminated block comment", start))
    } else if s[i] == '*' && s[i + 1] == '/' {
        skip_ws(s, i + 2)
    } else {
        skip_block(s, i + 1, start)
    }
}

pub open spec fn const_word() -> Seq<char> {
    seq!['c', 'o', 'n', 's', 't']
}

pub open spec fn paren_const() -> Seq<char> {
    seq!['(', 'c', 'o', 'n', 's', 't', ')']
}

/// Skips any number of `(const)` and `const` hints and the whitespace around
/// them; a bare `const` counts only when followed by whitespace, `[`, `%` or
/// the end of input.
pub open spec fn skip_hints(s: Seq<char>, i: int) -> int
    decreases s.len() - i,
{
    if 0 <= i < s.len() && white_space(s[i]) {
        skip_hints(s, i + 1)
    } else if starts_at(s, i, paren_const()) {
        skip_hints(s, i + 7)
    } else if starts_at(s, i, const_word()) && (i + 5 >= s.len() || white_space(s[i + 5]) || s[i
        + 5] == '[' || s[i + 5] == '%') {
        skip_hints(s, i + 5)
    } else {
        i
    }
}

// ----- character classes -----

pub open spec fn is_digit(c: char) -> bool {
    '0' <= c && c <= '9'
}

pub open spec fn is_hex_digit(c: char) -> bool {
    is_digit(c) || ('a' <= c && c <= 'f') || ('A' <= c && c <= 'F')
}

pub open spec fn hex_value(c: char) -> int {
    if is_digit(c) {
        c as int - '0' as int
    } else if 'a' <= c && c <= 'f' {
        c as int - 'a' as int + 10
    } else {
        c as int - 'A' as int + 10
    }
}

pub open spec fn is_ident_start(c: char) -> bool {
    c == '_' || ('a' <= c && c <= 'z') || ('A' <= c && c <= 'Z')
}

pub open spec fn is_ident_continue(c: char) -> bool {
    is_ident_start(c) || is_digit(c)
}

/// The end of the run of decimal digits that starts at `i`.
pub open spec fn digits_end(s: Seq<char>, i: int) -> int
    decreases s.len() - i,
{
    if 0 <= i < s.len() && is_digit(s[i]) {
        digits_end(s, i + 1)
    } else {
        i
    }
}

/// The end of the run of hexadecimal digits that starts at `i`.
pub open spec fn hex_digits_end(s: Seq<char>, i: int) -> int
    decreases s.len() - i,
{
    if 0 <= i < s.len() && is_hex_digit(s[i]) {
        hex_digits_end(s, i + 1)
    } else {
        i
    }
}

/// The end of the identifier characters that start at `i`.
pub open spec fn ident_end(s: Seq<char>, i: int) -> int
    decreases s.len() - i,
{
    if 0 <= i < s.len() && is_ident_continue(s[i]) {
        ident_end(s, i + 1)
    } else {
        i
    }
}

/// The value of a run of decimal digits.
pub open spec fn decimal_value(d: Seq<char>) -> nat
    decreases d.len(),
{
    if d.len() == 0 {
        0
    } else {
        (decimal_value(d.subrange(0, d.len() - 1)) * 10 + (d[d.len() - 1] as int - '0' as int)) as nat
    }
}

/// The value of a run of hexadecimal digits.
pub open spec fn hex_run_value(d: Seq<char>) -> nat
    decreases d.len(),
{
    if d.len() == 0 {
        0
    } else {
        (hex_run_value(d.subrange(0, d.len() - 1)) * 16 + hex_value(d[d.len() - 1])) as nat
    }
}

// ----- reading reals -----

/// `g` reads any text as a bit pattern, the same pattern for the same text.
pub open spec fn reads_reals<G: Fn(&str) -> u64>(g: G) -> bool {
    &&& forall|t: &str| g.requires((t,))
    &&& forall|t1: &str, t2: &str, b1: u64, b2: u64|
        #![trigger g.ensures((t1,), b1), g.ensures((t2,), b2)]
        t1@ == t2@ && g.ensures((t1,), b1) && g.ensures((t2,), b2) ==> b1 == b2
}

/// The bit pattern that `g` reads from the text `t`.
pub open spec fn read_real<G: Fn(&str) -> u64>(g: G, t: Seq<char>) -> u64 {
    choose|b: u64| #[trigger] reads_as(g, t, b)
}

/// `g` may give `b` for the text `t`.
pub open spec fn reads_as<G: Fn(&str) -> u64>(g: G, t: Seq<char>, b: u64) -> bool {
    exists|x: &str| x@ == t && #[trigger] g.ensures((x,), b)
}

// ----- scalars -----

pub open spec fn word_true() -> Seq<char> {
    seq!['t', 'r', 'u', 'e']
}

pub open spec fn word_false() -> Seq<char> {
    seq!['f', 'a', 'l', 's', 'e']
}

pub open spec fn word_null() -> Seq<char> {
    seq!['n', 'u', 'l', 'l']
}

pub open spec fn word_void() -> Seq<char> {
    seq!['v', 'o', 'i', 'd']
}

pub open spec fn word_nan() -> Seq<char> {
    seq!['N', 'a', 'N']
}

pub open spec fn word_infinity() -> Seq<char> {
    seq!['I', 'n', 'f', 'i', 'n', 'i', 't', 'y']
}

/// A keyword literal at `i`.
pub open spec fn parse_literal(s: Seq<char>, i: int) -> Result<(Val, int), Fault> {
    if starts_at(s, i, word_true()) {
        Ok((Val::Bool(true), i + 4))
    } else if starts_at(s, i, word_false()) {
        Ok((Val::Bool(false), i + 5))
    } else if starts_at(s, i, word_null()) {
        Ok((Val::Null, i + 4))
    } else if starts_at(s, i, word_void()) {
        Ok((Val::Void, i + 4))
    } else if starts_at(s, i, word_nan()) {
        Ok((Val::Real(nan_bits()), i + 3))
    } else if starts_at(s, i, word_infinity()) {
        Ok((Val::Real(infinity_bits()), i + 8))
    } else {
        Err(fault("unknown literal", i))
    }
}

/// A numeric literal at `i`.
pub open spec fn parse_number<G: Fn(&str) -> u64>(s: Seq<char>, i: int, g: G) -> Result<
    (Val, int),
    Fault,
> {
    if starts_at(s, i, seq!['-'] + word_infinity()) {
        Ok((Val::Real(neg_infinity_bits()), i + 9))
    } else if starts_at(s, i, seq!['+'] + word_infinity()) {
        Ok((Val::Real(infinity_bits()), i + 9))
    } else if starts_at(s, i, seq!['+'] + word_nan()) || starts_at(s, i, seq!['-'] + word_nan()) {
        Ok((Val::Real(nan_bits()), i + 4))
    } else {
        let neg = has_at(s, i, '-');
        let j = if has_at(s, i, '-') || has_at(s, i, '+') {
            i + 1
        } else {
            i
        };
        if starts_at(s, j, seq!['0', 'x']) || starts_at(s, j, seq!['0', 'X']) {
            hex_number(s, i, neg, j + 2)
        } else {
            decimal_number(s, i, neg, j, g)
        }
    }
}

/// A hexadecimal integer whose digits start at `k`; the literal starts at `i`.
pub open spec fn hex_number(s: Seq<char>, i: int, neg: bool, k: int) -> Result<(Val, int), Fault> {
    let e = hex_digits_end(s, k);
    if e == k {
        Err(fault("expected hex digits", k))
    } else {
        let m = hex_run_value(s.subrange(k, e));
        let v = if neg {
            -m
        } else {
            m as int
        };
        if m > i128::MAX {
            Err(fault("invalid hex number", k))
        } else if v < i64::MIN || v > i64::MAX {
            Err(fault("integer overflow", i))
        } else {
            Ok((Val::Integer(v as i64), e))
        }
    }
}

/// A decimal literal whose digits start at `j`; the literal, with its sign,
/// starts at `i`.
pub open spec fn decimal_number<G: Fn(&str) -> u64>(
    s: Seq<char>,
    i: int,
    neg: bool,
    j: int,
    g: G,
) -> Result<(Val, int), Fault> {
    let d1 = digits_end(s, j);
    let has_frac = has_at(s, d1, '.');
    let f1 = if has_frac {
        digits_end(s, d1 + 1)
    } else {
        d1
    };
    let seen = d1 > j || (has_frac && f1 > d1 + 1);
    let has_exp = has_at(s, f1, 'e') || has_at(s, f1, 'E');
    let p = if has_at(s, f1 + 1, '+') || has_at(s, f1 + 1, '-') {
        f1 + 2
    } else {
        f1 + 1
    };
    let e1 = if has_exp {
        digits_end(s, p)
    } else {
        f1
    };
    if has_exp && e1 == p {
        Err(fault("expected exponent digits", p))
    } else if !seen {
        Err(fault("expected number", i))
    } else if has_frac || has_exp {
        Ok((Val::Real(read_real(g, s.subrange(i, e1))), e1))
    } else {
        let m = decimal_value(s.subrange(j, d1));
        let v = if neg {
            -m
        } else {
            m as int
        };
        if i64::MIN <= v && v <= i64::MAX {
            Ok((Val::Integer(v as i64), e1))
        } else {
            Ok((Val::Real(read_real(g, s.subrange(i, e1))), e1))
        }
    }
}

/// `n` hexadecimal digits at `i`, accumulated onto `acc`.
pub open spec fn read_hex(s: Seq<char>, i: int, n: nat, acc: nat) -> Result<nat, Fault>
    decreases n,
{
    if n == 0 {
        Ok(acc)
    } else if i < 0 || i >= s.len() {
        Err(fault("unexpected end of input", i))
    } else if !is_hex_digit(s[i]) {
        Err(fault("invalid hex digit", i))
    } else {
        read_hex(s, i + 1, (n - 1) as nat, (acc * 16 + hex_value(s[i])) as nat)
    }
}

/// The escape sequence whose backslash stands just before `i`: the character
/// it denotes and the index after it.
pub open spec fn parse_escape(s: Seq<char>, i: int) -> Result<(char, int), Fault> {
    if i < 0 || i >= s.len() {
        Err(fault("unterminated escape", i))
    } else {
        let c = s[i];
        if c == 'n' {
            Ok(('\n', i + 1))
        } else if c == 'r' {
            Ok(('\r', i + 1))
        } else if c == 't' {
            Ok(('\t', i + 1))
        } else if c == 'b' {
            Ok(('\x08', i + 1))
        } else if c == 'f' {
            Ok(('\x0c', i + 1))
        } else if c == '0' {
            Ok(('\0', i + 1))
        } else if c == 'x' {
            match read_hex(s, i + 1, 2, 0) {
                Ok(v) => Ok((char_with_code(v as u32), i + 3)),
                Err(e) => Err(e),
            }
        } else if c == 'u' {
            match read_hex(s, i + 1, 4, 0) {
                Ok(v) => if is_scalar_value(v as u32) {
                    Ok((char_with_code(v as u32), i + 5))
                } else {
                    Err(fault("invalid unicode escape", i + 5))
                },
                Err(e) => Err(e),
            }
        } else {
            Ok((c, i + 1))
        }
    }
}

/// The rest of a string literal closed by `q`, from `i`; `acc` holds what was read.
pub open spec fn parse_string(s: Seq<char>, i: int, q: char, acc: Seq<char>) -> Result<
    (Seq<char>, int),
    Fault,
>
    decreases s.len() - i,
{
    if i < 0 || i >= s.len() {
        Err(fault("unterminated string", i))
    } else if s[i] == q {
        Ok((acc, i + 1))
    } else if s[i] == '\\' {
        match parse_escape(s, i + 1) {
            Ok((c, j)) => if i < j && j <= s.len() {
                parse_string(s, j, q, acc.push(c))
            } else {
                Err(fault("unterminated escape", j))
            },
            Err(e) => Err(e),
        }
    } else {
        parse_string(s, i + 1, q, acc.push(s[i]))
    }
}

/// The rest of an octet literal, from `i`; `acc` holds the bytes read.
pub open spec fn parse_octet(s: Seq<char>, i: int, acc: Seq<u8>) -> Result<(Val, int), Fault>
    decreases s.len() - i,
{
    if 0 <= i < s.len() && white_space(s[i]) {
        parse_octet(s, i + 1, acc)
    } else if starts_at(s, i, seq!['%', '>']) {
        Ok((Val::Octet(acc), i + 2))
    } else if i < 0 || i >= s.len() {
        Err(fault("unexpected end of input", i))
    } else if !is_hex_digit(s[i]) {
        Err(fault("invalid octet digit", i))
    } else if i + 1 >= s.len() {
        Err(fault("unexpected end of input", i + 1))
    } else if !is_hex_digit(s[i + 1]) {
        Err(fault("invalid octet digit", i + 1))
    } else {
        parse_octet(s, i + 2, acc.push((hex_value(s[i]) * 16 + hex_value(s[i + 1])) as u8))
    }
}

/// A dictionary key at `i`: a string literal or an identifier.
pub open spec fn parse_key(s: Seq<char>, i: int) -> Result<(Seq<char>, int), Fault> {
    if has_at(s, i, '"') || has_at(s, i, '\'') {
        parse_string(s, i + 1, s[i], Seq::empty())
    } else if 0 <= i < s.len() && is_ident_start(s[i]) {
        Ok((s.subrange(i, ident_end(s, i + 1)), ident_end(s, i + 1)))
    } else {
        Err(fault("expected dictionary key", i))
    }
}

// ----- dictionaries -----

/// The index of key `k` among the entries, or -1.
pub open spec fn find_key(es: Seq<(Seq<char>, Val)>, k: Seq<char>) -> int
    decreases es.len(),
{
    if es.len() == 0 {
        -1
    } else if find_key(es.subrange(0, es.len() - 1), k) >= 0 {
        find_key(es.subrange(0, es.len() - 1), k)
    } else if es[es.len() - 1].0 == k {
        es.len() - 1
    } else {
        -1
    }
}

/// Inserting an entry: a present key keeps its place and takes the new value;
/// a new key goes to the end.
pub open spec fn entries_insert(es: Seq<(Seq<char>, Val)>, k: Seq<char>, v: Val) -> Seq<
    (Seq<char>, Val),
> {
    let x = find_key(es, k);
    if x >= 0 {
        es.update(x, (k, v))
    } else {
        es.push((k, v))
    }
}

// ----- values -----

pub open spec fn forward(s: Seq<char>, i: int, j: int) -> bool {
    i <= j && j <= s.len()
}

/// A value at `i`, after any whitespace, comments and hints: the value and the
/// index after it.
pub open spec fn parse_value<G: Fn(&str) -> u64>(s: Seq<char>, i: int, d: int, g: G) -> Result<
    (Val, int),
    Fault,
>
    decreases s.len() - i, 1int,
{
    match skip_ws(s, i) {
        Err(e) => Err(e),
        Ok(i1) => match skip_ws(s, skip_hints(s, i1)) {
            Err(e) => Err(e),
            Ok(i3) => if !forward(s, i, i3) {
                Err(fault("", i3))
            } else {
                parse_at(s, i3, d, g)
            },
        },
    }
}

/// A value that starts exactly at `i`, chosen by its first character.
pub open spec fn parse_at<G: Fn(&str) -> u64>(s: Seq<char>, i: int, d: int, g: G) -> Result<
    (Val, int),
    Fault,
>
    decreases s.len() - i, 0int,
{
    if i < 0 || i >= s.len() {
        Err(fault("unexpected end of input", i))
    } else {
        let c = s[i];
        if (c == '[' || c == '%') && d >= MAX_DEPTH {
            Err(fault("nesting too deep", i))
        } else if c == '[' {
            parse_items(s, i + 1, Seq::empty(), d + 1, g)
        } else if c == '%' {
            parse_dict(s, i + 1, d + 1, g)
        } else if c == '"' || c == '\'' {
            match parse_string(s, i + 1, c, Seq::empty()) {
                Ok((t, j)) => Ok((Val::Str(t), j)),
                Err(e) => Err(e),
            }
        } else if c == '<' && starts_at(s, i, seq!['<', '%']) {
            parse_octet(s, i + 2, Seq::empty())
        } else if c == 't' || c == 'f' || c == 'n' || c == 'v' || c == 'I' || c == 'N' {
            parse_literal(s, i)
        } else if c == '+' || c == '-' || is_digit(c) {
            parse_number(s, i, g)
        } else {
            Err(fault("unexpected token", i))
        }
    }
}

/// A dictionary after its `%`.
pub open spec fn parse_dict<G: Fn(&str) -> u64>(s: Seq<char>, i: int, d: int, g: G) -> Result<
    (Val, int),
    Fault,
>
    decreases s.len() - i, 2int,
{
    match skip_ws(s, i) {
        Err(e) => Err(e),
        Ok(i4) => if !forward(s, i, i4) {
            Err(fault("", i4))
        } else if has_at(s, i4, '[') {
            parse_entries(s, i4 + 1, Seq::empty(), d, g)
        } else {
            Err(fault("expected '['", i4))
        },
    }
}

/// The rest of an array from `i`; `acc` holds the elements read.
pub open spec fn parse_items<G: Fn(&str) -> u64>(
    s: Seq<char>,
    i: int,
    acc: Seq<Val>,
    d: int,
    g: G,
) -> Result<(Val, int), Fault>
    decreases s.len() - i, 2int,
{
    match skip_ws(s, i) {
        Err(e) => Err(e),
        Ok(i1) => if !forward(s, i, i1) {
            Err(fault("", i1))
        } else if has_at(s, i1, ']') {
            Ok((Val::Array(acc), i1 + 1))
        } else {
            match parse_value(s, i1, d, g) {
                Err(e) => Err(e),
                Ok((v, i2)) => match skip_ws(s, i2) {
                    Err(e) => Err(e),
                    Ok(i3) => if !forward(s, i, i3) {
                        Err(fault("", i3))
                    } else if has_at(s, i3, ',') {
                        parse_items(s, i3 + 1, acc.push(v), d, g)
                    } else if has_at(s, i3, ']') {
                        Ok((Val::Array(acc.push(v)), i3 + 1))
                    } else {
                        Err(fault("expected ',' or ']'", i3))
                    },
                },
            }
        },
    }
}

/// The rest of a dictionary from `i`; `acc` holds the entries read.
pub open spec fn parse_entries<G: Fn(&str) -> u64>(
    s: Seq<char>,
    i: int,
    acc: Seq<(Seq<char>, Val)>,
    d: int,
    g: G,
) -> Result<(Val, int), Fault>
    decreases s.len() - i, 2int,
{
    match skip_ws(s, i) {
        Err(e) => Err(e),
        Ok(i1) => if !forward(s, i, i1) {
            Err(fault("", i1))
        } else if has_at(s, i1, ']') {
            Ok((Val::Dict(acc), i1 + 1))
        } else {
            match parse_key(s, i1) {
                Err(e) => Err(e),
                Ok((k, i2)) => match skip_ws(s, i2) {
                    Err(e) => Err(e),
                    Ok(i3) => {
                        let i4 = if starts_at(s, i3, seq!['=', '>']) {
                            i3 + 2
                        } else if has_at(s, i3, ':') {
                            i3 + 1
                        } else {
                            -1
                        };
                        if i4 < 0 {
                            Err(fault("expected '=>' after key", i3))
                        } else if !forward(s, i, i4) {
                            Err(fault("", i4))
                        } else {
                            match parse_value(s, i4, d, g) {
                                Err(e) => Err(e),
                                Ok((v, i5)) => match skip_ws(s, i5) {
                                    Err(e) => Err(e),
                                    Ok(i6) => if !forward(s, i, i6) {
                                        Err(fault("", i6))
                                    } else if has_at(s, i6, ',') {
                                        parse_entries(s, i6 + 1, entries_insert(acc, k, v), d, g)
                                    } else if has_at(s, i6, ']') {
                                        Ok((Val::Dict(entries_insert(acc, k, v)), i6 + 1))
                                    } else {
                                        Err(fault("expected ',' or ']'", i6))
                                    },
                                },
                            }
                        }
                    },
                },
            }
        },
    }
}

/// The value that the whole text `s` denotes: one value, with only whitespace
/// and comments around it.
pub open spec fn parse_text<G: Fn(&str) -> u64>(s: Seq<char>, g: G) -> Result<Val, Fault> {
    match skip_ws(s, 0) {
        Err(e) => Err(e),
        Ok(i1) => match parse_value(s, i1, 0, g) {
            Err(e) => Err(e),
            Ok((v, i2)) => match skip_ws(s, i2) {
                Err(e) => Err(e),
                Ok(i3) => if i3 >= s.len() {
                    Ok(v)
                } else {
                    Err(fault("unexpected trailing characters", i3))
                },
            },
        },
    }
}

// ----- the executable parser -----

/// A parse failure as the parser reports it: a message and a character index.
pub struct Fail {
    pub msg: String,
    pub at: usize,
}

pub open spec fn fail_is(f: Fail, e: Fault) -> bool {
    f.msg@ == e.msg && f.at == e.at
}

fn fail(msg: &str, at: usize) -> (r: Fail)
    ensures
        r.msg@ == msg@,
        r.at == at,
{
    Fail { msg: msg.to_owned(), at }
}

/// The state of a parse: the input's characters and the current index.
pub struct Parser {
    pub chars: Vec<char>,
    pub position: usize,
}

impl Parser {
    pub open spec fn text(&self) -> Seq<char> {
        self.chars@
    }

    pub open spec fn inv(&self) -> bool {
        self.position <= self.chars@.len() <= usize::MAX
    }

    /// A parser at the start of `input`.
    pub fn new(input: &str) -> (r: Parser)
        ensures
            r.chars@ == input@,
            r.position == 0,
    {
        let chars = chars_of(input);
        Parser { chars, position: 0 }
    }

    /// Whether the whole input has been consumed.
    pub fn is_eof(&self) -> (r: bool)
        ensures
            r == (self.position >= self.chars@.len()),
    {
        self.position >= self.chars.len()
    }

    /// The character at the current index, if any.
    pub fn peek_char(&self) -> (r: Option<char>)
        ensures
            self.position < self.chars@.len() ==> r == Some(self.chars@[self.position as int]),
            self.position >= self.chars@.len() ==> r is None,
    {
        if self.position < self.chars.len() {
            Some(self.chars[self.position])
        } else {
            None
        }
    }

    /// Whether the character at `i` is `c`.
    fn char_at_is(&self, i: usize, c: char) -> (r: bool)
        ensures
            r == has_at(self.chars@, i as int, c),
    {
        i < self.chars.len() && self.chars[i] == c
    }

    /// Whether the input continues with `token` at the current index.
    pub fn starts_with(&self, token: &str) -> (r: bool)
        requires
            self.inv(),
        ensures
            r == starts_at(self.chars@, self.position as int, token@),
    {
        let t = chars_of(token);
        if t.len() > self.chars.len() - self.position {
            return false;
        }
        let mut k: usize = 0;
        while k < t.len()
            invariant
                t@ == token@,
                self.inv(),
                self.position + t@.len() <= self.chars@.len(),
                k <= t@.len(),
                forall|m: int| 0 <= m < k ==> self.chars@[self.position + m] == t@[m],
            decreases t@.len() - k,
        {
            if self.chars[self.position + k] != t[k] {
                assert(self.chars@.subrange(self.position as int, self.position + t@.len())[k as int]
                    != t@[k as int]);
                return false;
            }
            k = k + 1;
        }
        assert(self.chars@.subrange(self.position as int, self.position + t@.len()) =~= t@);
        true
    }

    /// Consumes `token` when the input continues with it.
    pub fn consume_exact(&mut self, token: &str) -> (r: bool)
        requires
            old(self).inv(),
        ensures
            final(self).chars == old(self).chars,
            final(self).inv(),
            r == starts_at(old(self).chars@, old(self).position as int, token@),
            final(self).position == if r {
                old(self).position + token@.len()
            } else {
                old(self).position as int
            },
    {
        if self.starts_with(token) {
            let n = token.unicode_len();
            self.position = self.position + n;
            true
        } else {
            false
        }
    }

    /// Consumes the character `c` when it is next.
    pub fn consume_ascii(&mut self, c: char) -> (r: bool)
        requires
            old(self).inv(),
        ensures
            final(self).chars == old(self).chars,
            final(self).inv(),
            r == has_at(old(self).chars@, old(self).position as int, c),
            final(self).position == if r {
                old(self).position + 1
            } else {
                old(self).position as int
            },
    {
        if self.char_at_is(self.position, c) {
            self.position = self.position + 1;
            true
        } else {
            false
        }
    }

    /// Skips whitespace and comments.
    pub fn skip_ws(&mut self) -> (r: Result<(), Fail>)
        requires
            old(self).inv(),
        ensures
            within(r, old(self).chars@.len() as int),
            final(self).chars == old(self).chars,
            final(self).inv(),
            old(self).position <= final(self).position,
            match skip_ws(old(self).chars@, old(self).position as int) {
                Ok(j) => r is Ok && final(self).position == j,
                Err(e) => r matches Err(f) && fail_is(f, e),
            },
    {
        let ghost s = old(self).chars@;
        let ghost goal = skip_ws(s, old(self).position as int);
        let ghost pos0 = old(self).position;
        loop
            invariant
                self.chars@ == s,
                s == old(self).chars@,
                pos0 == old(self).position,
                goal == skip_ws(s, pos0 as int),
                self.chars == old(self).chars,
                old(self).position <= self.position,
                self.inv(),
                pos0 <= self.position,
                goal == skip_ws(s, self.position as int),
            decreases s.len() - self.position,
        {
            if self.position >= self.chars.len() {
                return Ok(());
            }
            let c = self.chars[self.position];
            if is_whitespace(c) {
                self.position = self.position + 1;
            } else if c == '/' && self.char_at_is(self.position + 1, '/') {
                self.position = self.position + 2;
                let ghost before = self.position;
                loop
                    invariant_except_break
                        goal == skip_line(s, self.position as int),
                    invariant
                        self.chars@ == s,
                        s == old(self).chars@,
                        pos0 == old(self).position,
                        goal == skip_ws(s, pos0 as int),
                        self.chars == old(self).chars,
                old(self).position <= self.position,
                        self.inv(),
                        pos0 <= self.position,
                        before <= self.position,
                    ensures
                        self.chars@ == s,
                        s == old(self).chars@,
                        pos0 == old(self).position,
                        goal == skip_ws(s, pos0 as int),
                        self.chars == old(self).chars,
                        old(self).position <= self.position,
                        self.inv(),
                        pos0 <= self.position,
                        before <= self.position,
                        goal == skip_ws(s, self.position as int),
                    decreases s.len() - self.position,
                {
                    if self.position >= self.chars.len() {
                        break;
                    }
                    let d = self.chars[self.position];
                    self.position = self.position + 1;
                    if d == '\n' {
                        break;
                    }
                }
            } else if c == '/' && self.char_at_is(self.position + 1, '*') {
                self.position = self.position + 2;
                let start = self.position;
                let ghost before = self.position;
                loop
                    invariant_except_break
                        goal == skip_block(s, self.position as int, start as int),
                    invariant
                        self.chars@ == s,
                        s == old(self).chars@,
                        pos0 == old(self).position,
                        goal == skip_ws(s, pos0 as int),
                        self.chars == old(self).chars,
                        old(self).position <= self.position,
                        self.inv(),
                        pos0 <= self.position,
                        start <= self.position,
                        before <= self.position,
                    ensures
                        self.chars@ == s,
                        s == old(self).chars@,
                        pos0 == old(self).position,
                        goal == skip_ws(s, pos0 as int),
                        self.chars == old(self).chars,
                        old(self).position <= self.position,
                        self.inv(),
                        pos0 <= self.position,
                        before <= self.position,
                        goal == skip_ws(s, self.position as int),
                    decreases s.len() - self.position,
                {
                    if self.chars.len() - self.position < 2 {
                        return Err(fail("unterminated block comment", start));
                    }
                    if self.chars[self.position] == '*' && self.chars[self.position + 1] == '/' {
                        self.position = self.position + 2;
                        break;
                    }
                    self.position = self.position + 1;
                }
            } else {
                return Ok(());
            }
        }
    }

    /// Skips `(const)` and `const` hints and the whitespace around them.
    pub fn consume_const_hint(&mut self)
        requires
            old(self).inv(),
        ensures
            final(self).chars == old(self).chars,
            final(self).inv(),
            old(self).position <= final(self).position,
            final(self).position == skip_hints(old(self).chars@, old(self).position as int),
    {
        let ghost s = old(self).chars@;
        let ghost goal = skip_hints(s, old(self).position as int);
        let ghost pos0 = old(self).position;
        proof {
            reveal_strlit("(const)");
            reveal_strlit("const");
        }
        loop
            invariant
                self.chars@ == s,
                s == old(self).chars@,
                pos0 == old(self).position,
                goal == skip_hints(s, pos0 as int),
                self.chars == old(self).chars,
                old(self).position <= self.position,
                self.inv(),
                pos0 <= self.position,
                goal == skip_hints(s, self.position as int),
                "(const)"@ == paren_const(),
                "const"@ == const_word(),
            decreases s.len() - self.position,
        {
            if self.position < self.chars.len() && is_whitespace(self.chars[self.position]) {
                self.position = self.position + 1;
            } else if self.starts_with("(const)") {
                self.position = self.position + 7;
            } else if self.starts_with("const") && (self.chars.len() - self.position <= 5
                || is_whitespace(self.chars[self.position + 5]) || self.chars[self.position + 5]
                == '[' || self.chars[self.position + 5] == '%') {
                self.position = self.position + 5;
            } else {
                return;
            }
        }
    }
}

/// `r` is what the grammar result `sp` describes, with the parser ending at `pos`.
pub open spec fn yields<T: View>(r: Result<T, Fail>, sp: Result<(T::V, int), Fault>, pos: usize) -> bool {
    match sp {
        Ok((v, j)) => r matches Ok(x) && x@ == v && pos == j,
        Err(e) => r matches Err(f) && fail_is(f, e),
    }
}

/// A failure, if any, lies within the input.
pub open spec fn within<T>(r: Result<T, Fail>, len: int) -> bool {
    r matches Err(f) ==> f.at <= len
}

pub open spec fn p16(n: nat) -> nat
    decreases n,
{
    if n == 0 {
        1
    } else {
        16 * p16((n - 1) as nat)
    }
}

proof fn lemma_pow16_bound(n: nat)
    requires
        n <= 4,
    ensures
        p16(n) <= 0x10000,
{
    reveal_with_fuel(p16, 5);
}

fn is_hex(c: char) -> (r: bool)
    ensures
        r == is_hex_digit(c),
{
    ('0' <= c && c <= '9') || ('a' <= c && c <= 'f') || ('A' <= c && c <= 'F')
}

fn hex_digit_value(c: char) -> (r: u8)
    requires
        is_hex_digit(c),
    ensures
        r as int == hex_value(c),
        r < 16,
{
    if '0' <= c && c <= '9' {
        (c as u32 - '0' as u32) as u8
    } else if 'a' <= c && c <= 'f' {
        (c as u32 - 'a' as u32 + 10) as u8
    } else {
        (c as u32 - 'A' as u32 + 10) as u8
    }
}

/// A byte or a character of an identifier may start one.
pub fn is_ident_start_char(c: char) -> (r: bool)
    ensures
        r == is_ident_start(c),
{
    c == '_' || ('a' <= c && c <= 'z') || ('A' <= c && c <= 'Z')
}

/// A character that may continue an identifier.
pub fn is_ident_continue_char(c: char) -> (r: bool)
    ensures
        r == is_ident_continue(c),
{
    is_ident_start_char(c) || ('0' <= c && c <= '9')
}

impl Parser {
    /// The characters between two indices, as a string.
    fn text_between(&self, from: usize, to: usize) -> (r: String)
        requires
            from <= to <= self.chars@.len(),
        ensures
            r@ == self.chars@.subrange(from as int, to as int),
    {
        let mut out = String::new();
        let mut k = from;
        while k < to
            invariant
                from <= k <= to <= self.chars@.len(),
                out@ == self.chars@.subrange(from as int, k as int),
            decreases to - k,
        {
            push_char(&mut out, self.chars[k]);
            k = k + 1;
            assert(out@ =~= self.chars@.subrange(from as int, k as int));
        }
        out
    }

    /// Consumes a run of decimal digits.
    pub fn consume_digits(&mut self)
        requires
            old(self).inv(),
        ensures
            final(self).chars == old(self).chars,
            final(self).inv(),
            final(self).position == digits_end(old(self).chars@, old(self).position as int),
            old(self).position <= final(self).position,
            forall|x: int|
                old(self).position <= x < final(self).position ==> is_digit(
                    #[trigger] old(self).chars@[x],
                ),
    {
        proof {
            lemma_digits_end(old(self).chars@, old(self).position as int);
        }
        let ghost s = old(self).chars@;
        let ghost pos0 = old(self).position;
        while self.position < self.chars.len() && '0' <= self.chars[self.position]
            && self.chars[self.position] <= '9'
            invariant
                self.chars == old(self).chars,
                s == old(self).chars@,
                pos0 == old(self).position,
                self.inv(),
                digits_end(s, pos0 as int) == digits_end(s, self.position as int),
            decreases s.len() - self.position,
        {
            self.position = self.position + 1;
        }
    }

    /// A keyword literal.
    pub fn parse_literal(&mut self) -> (r: Result<Value, Fail>)
        requires
            old(self).inv(),
        ensures
            within(r, old(self).chars@.len() as int),
            final(self).chars == old(self).chars,
            final(self).inv(),
            old(self).position <= final(self).position,
            yields(r, parse_literal(old(self).chars@, old(self).position as int), final(self).position),
    {
        proof {
            reveal_strlit("true");
            reveal_strlit("false");
            reveal_strlit("null");
            reveal_strlit("void");
            reveal_strlit("NaN");
            reveal_strlit("Infinity");
            assert("true"@ =~= word_true());
            assert("false"@ =~= word_false());
            assert("null"@ =~= word_null());
            assert("void"@ =~= word_void());
            assert("NaN"@ =~= word_nan());
            assert("Infinity"@ =~= word_infinity());
        }
        if self.consume_exact("true") {
            Ok(Value::Bool(true))
        } else if self.consume_exact("false") {
            Ok(Value::Bool(false))
        } else if self.consume_exact("null") {
            Ok(Value::Null)
        } else if self.consume_exact("void") {
            Ok(Value::Void)
        } else if self.consume_exact("NaN") {
            Ok(Value::Real(0x7ff8000000000000))
        } else if self.consume_exact("Infinity") {
            Ok(Value::Real(0x7ff0000000000000))
        } else {
            Err(fail("unknown literal", self.position))
        }
    }

    /// `count` hexadecimal digits, as a number.
    pub fn read_hex_digits(&mut self, count: usize) -> (r: Result<u32, Fail>)
        requires
            old(self).inv(),
            count <= 4,
        ensures
            within(r, old(self).chars@.len() as int),
            final(self).chars == old(self).chars,
            final(self).inv(),
            old(self).position <= final(self).position,
            match read_hex(old(self).chars@, old(self).position as int, count as nat, 0) {
                Ok(v) => r == Ok::<u32, Fail>(v as u32) && v < p16(count as nat) && v < 0x10000 && final(self).position
                    == old(self).position + count,
                Err(e) => r matches Err(f) && fail_is(f, e),
            },
    {
        let ghost s = old(self).chars@;
        let ghost pos0 = old(self).position;
        let mut value: u32 = 0;
        let mut n: usize = 0;
        while n < count
            invariant
                self.chars == old(self).chars,
                s == old(self).chars@,
                pos0 == old(self).position,
                count <= 4,
                self.inv(),
                n <= count,
                self.position == pos0 + n,
                value < p16(n as nat),
                read_hex(s, pos0 as int, count as nat, 0) == read_hex(
                    s,
                    self.position as int,
                    (count - n) as nat,
                    value as nat,
                ),
            decreases count - n,
        {
            if self.position >= self.chars.len() {
                return Err(fail("unexpected end of input", self.position));
            }
            let c = self.chars[self.position];
            if !is_hex(c) {
                return Err(fail("invalid hex digit", self.position));
            }
            let d = hex_digit_value(c);
            proof {
                lemma_pow16_bound(n as nat);
                assert(p16((n + 1) as nat) == 16 * p16(n as nat));
                assert(value * 16 + d < p16((n + 1) as nat)) by (nonlinear_arith)
                    requires
                        value < p16(n as nat),
                        d < 16,
                        p16((n + 1) as nat) == 16 * p16(n as nat),
                ;
            }
            value = value * 16 + d as u32;
            self.position = self.position + 1;
            n = n + 1;
        }
        proof {
            lemma_pow16_bound(count as nat);
        }
        Ok(value)
    }

    /// The escape sequence after a backslash.
    pub fn parse_escape(&mut self) -> (r: Result<char, Fail>)
        requires
            old(self).inv(),
        ensures
            within(r, old(self).chars@.len() as int),
            final(self).chars == old(self).chars,
            final(self).inv(),
            old(self).position <= final(self).position,
            match parse_escape(old(self).chars@, old(self).position as int) {
                Ok((c, j)) => r == Ok::<char, Fail>(c) && final(self).position == j,
                Err(e) => r matches Err(f) && fail_is(f, e),
            },
    {
        if self.position >= self.chars.len() {
            return Err(fail("unterminated escape", self.position));
        }
        let c = self.chars[self.position];
        self.position = self.position + 1;
        if c == 'n' {
            Ok('\n')
        } else if c == 'r' {
            Ok('\r')
        } else if c == 't' {
            Ok('\t')
        } else if c == 'b' {
            Ok('\x08')
        } else if c == 'f' {
            Ok('\x0c')
        } else if c == '0' {
            Ok('\0')
        } else if c == 'x' {
            let v = self.read_hex_digits(2)?;
            proof {
                reveal_with_fuel(p16, 3);
            }
            match char_from_u32(v) {
                Some(ch) => {
                    proof {
                        vstd::utf8::char_u32_cast(ch, v);
                    }
                    Ok(ch)
                },
                None => Err(fail("invalid hex escape", self.position)),
            }
        } else if c == 'u' {
            let v = self.read_hex_digits(4)?;
            match char_from_u32(v) {
                Some(ch) => {
                    proof {
                        vstd::utf8::char_u32_cast(ch, v);
                    }
                    Ok(ch)
                },
                None => Err(fail("invalid unicode escape", self.position)),
            }
        } else {
            Ok(c)
        }
    }
}

impl Parser {
    /// A string literal; the current character is its opening quote.
    pub fn parse_string(&mut self) -> (r: Result<String, Fail>)
        requires
            old(self).inv(),
            old(self).position < old(self).chars@.len(),
        ensures
            within(r, old(self).chars@.len() as int),
            final(self).chars == old(self).chars,
            final(self).inv(),
            old(self).position <= final(self).position,
            yields(
                r,
                parse_string(
                    old(self).chars@,
                    old(self).position + 1,
                    old(self).chars@[old(self).position as int],
                    Seq::empty(),
                ),
                final(self).position,
            ),
    {
        let ghost s = old(self).chars@;
        let ghost pos0 = old(self).position;
        let quote = self.chars[self.position];
        self.position = self.position + 1;
        let mut out = String::new();
        let ghost goal = parse_string(s, pos0 + 1, quote, Seq::empty());
        loop
            invariant
                self.chars == old(self).chars,
                s == old(self).chars@,
                pos0 == old(self).position,
                quote == s[pos0 as int],
                goal == parse_string(s, pos0 + 1, quote, Seq::empty()),
                self.inv(),
                pos0 < self.position,
                goal == parse_string(s, self.position as int, quote, out@),
            decreases s.len() - self.position,
        {
            if self.position >= self.chars.len() {
                return Err(fail("unterminated string", self.position));
            }
            let c = self.chars[self.position];
            if c == quote {
                self.position = self.position + 1;
                return Ok(out);
            }
            if c == '\\' {
                self.position = self.position + 1;
                let e = self.parse_escape()?;
                push_char(&mut out, e);
            } else {
                self.position = self.position + 1;
                push_char(&mut out, c);
            }
        }
    }

    /// One hexadecimal digit of an octet literal.
    pub fn read_octet_digit(&mut self) -> (r: Result<u8, Fail>)
        requires
            old(self).inv(),
        ensures
            within(r, old(self).chars@.len() as int),
            final(self).chars == old(self).chars,
            final(self).inv(),
            old(self).position <= final(self).position,
            ({
                let s = old(self).chars@;
                let i = old(self).position as int;
                if i >= s.len() {
                    r matches Err(f) && fail_is(f, fault("unexpected end of input", i))
                } else if !is_hex_digit(s[i]) {
                    r matches Err(f) && fail_is(f, fault("invalid octet digit", i))
                } else {
                    r == Ok::<u8, Fail>(hex_value(s[i]) as u8) && final(self).position == i + 1
                        && hex_value(s[i]) < 16
                }
            }),
    {
        if self.position >= self.chars.len() {
            return Err(fail("unexpected end of input", self.position));
        }
        let c = self.chars[self.position];
        if is_hex(c) {
            self.position = self.position + 1;
            Ok(hex_digit_value(c))
        } else {
            Err(fail("invalid octet digit", self.position))
        }
    }

    /// An octet literal; the input continues with `<%`.
    pub fn parse_octet(&mut self) -> (r: Result<Value, Fail>)
        requires
            old(self).inv(),
            starts_at(old(self).chars@, old(self).position as int, seq!['<', '%']),
        ensures
            within(r, old(self).chars@.len() as int),
            final(self).chars == old(self).chars,
            final(self).inv(),
            old(self).position <= final(self).position,
            yields(
                r,
                parse_octet(old(self).chars@, old(self).position + 2, Seq::empty()),
                final(self).position,
            ),
    {
        let ghost s = old(self).chars@;
        let ghost pos0 = old(self).position;
        let ghost goal = parse_octet(s, pos0 + 2, Seq::empty());
        self.position = self.position + 2;
        let mut bytes: Vec<u8> = Vec::new();
        proof {
            reveal_strlit("%>");
            assert("%>"@ =~= seq!['%', '>']);
        }
        loop
            invariant
                self.chars == old(self).chars,
                s == old(self).chars@,
                pos0 == old(self).position,
                goal == parse_octet(s, pos0 + 2, Seq::empty()),
                self.inv(),
                pos0 <= self.position,
                goal == parse_octet(s, self.position as int, bytes@),
                "%>"@ == seq!['%', '>'],
            decreases s.len() - self.position,
        {
            if self.position < self.chars.len() && is_whitespace(self.chars[self.position]) {
                self.position = self.position + 1;
            } else if self.consume_exact("%>") {
                return Ok(Value::Octet(bytes));
            } else {
                let high = self.read_octet_digit()?;
                let low = self.read_octet_digit()?;
                bytes.push(high * 16 + low);
                assert(bytes@.last() == ((hex_value(s[self.position - 2]) * 16 + hex_value(
                    s[self.position - 1],
                )) as u8));
            }
        }
    }

    /// An identifier, when one starts at the current index.
    pub fn parse_identifier(&mut self) -> (r: Option<String>)
        requires
            old(self).inv(),
        ensures
            final(self).chars == old(self).chars,
            final(self).inv(),
            old(self).position <= final(self).position,
            ({
                let s = old(self).chars@;
                let i = old(self).position as int;
                if 0 <= i < s.len() && is_ident_start(s[i]) {
                    r matches Some(t) && t@ == s.subrange(i, ident_end(s, i + 1))
                        && final(self).position == ident_end(s, i + 1)
                } else {
                    r is None && final(self).position == i
                }
            }),
    {
        let ghost s = old(self).chars@;
        let start = self.position;
        if start >= self.chars.len() || !is_ident_start_char(self.chars[start]) {
            return None;
        }
        self.position = self.position + 1;
        while self.position < self.chars.len() && is_ident_continue_char(self.chars[self.position])
            invariant
                self.chars == old(self).chars,
                s == old(self).chars@,
                start == old(self).position,
                start < self.position,
                self.inv(),
                ident_end(s, start + 1) == ident_end(s, self.position as int),
            decreases s.len() - self.position,
        {
            self.position = self.position + 1;
        }
        Some(self.text_between(start, self.position))
    }

    /// A dictionary key: a string literal or an identifier.
    pub fn parse_dict_key(&mut self) -> (r: Result<String, Fail>)
        requires
            old(self).inv(),
        ensures
            within(r, old(self).chars@.len() as int),
            final(self).chars == old(self).chars,
            final(self).inv(),
            old(self).position <= final(self).position,
            yields(r, parse_key(old(self).chars@, old(self).position as int), final(self).position),
    {
        if self.char_at_is(self.position, '"') || self.char_at_is(self.position, '\'') {
            self.parse_string()
        } else {
            match self.parse_identifier() {
                Some(t) => Ok(t),
                None => Err(fail("expected dictionary key", self.position)),
            }
        }
    }
}

impl Parser {
    /// The value of the hexadecimal digits from `k` to the current index:
    /// `None` when it exceeds the range of `i128`.
    fn hex_magnitude(&self, k: usize) -> (r: Option<u128>)
        requires
            self.inv(),
            k <= self.position,
            forall|m: int| k <= m < self.position ==> is_hex_digit(#[trigger] self.chars@[m]),
        ensures
            match r {
                Some(m) => m == hex_run_value(self.chars@.subrange(k as int, self.position as int))
                    && m <= i128::MAX,
                None => hex_run_value(self.chars@.subrange(k as int, self.position as int))
                    > i128::MAX,
            },
    {
        let ghost s = self.chars@;
        let mut m: u128 = 0;
        let mut q = k;
        while q < self.position
            invariant
                s == self.chars@,
                self.inv(),
                k <= q <= self.position,
                forall|x: int| k <= x < self.position ==> is_hex_digit(#[trigger] s[x]),
                m == hex_run_value(s.subrange(k as int, q as int)),
                m <= i128::MAX,
            decreases self.position - q,
        {
            let d = hex_digit_value(self.chars[q]);
            assert(s.subrange(k as int, q + 1).subrange(0, q - k) =~= s.subrange(k as int, q as int));
            if m >= 0x08000000000000000000000000000000 {
                // every further digit keeps the value above the range
                let ghost big = hex_run_value(s.subrange(k as int, q + 1));
                assert(big > i128::MAX);
                let mut t = q + 1;
                while t < self.position
                    invariant
                        s == self.chars@,
                        self.inv(),
                        k < t <= self.position,
                        forall|x: int| k <= x < self.position ==> is_hex_digit(#[trigger] s[x]),
                        hex_run_value(s.subrange(k as int, t as int)) > i128::MAX,
                    decreases self.position - t,
                {
                    assert(s.subrange(k as int, t + 1).subrange(0, t - k) =~= s.subrange(
                        k as int,
                        t as int,
                    ));
                    t = t + 1;
                }
                return None;
            }
            m = m * 16 + d as u128;
            q = q + 1;
        }
        Some(m)
    }

    /// The value of the decimal digits from `from` to `to`: `None` when it
    /// exceeds 2^64.
    fn decimal_magnitude(&self, from: usize, to: usize) -> (r: Option<u128>)
        requires
            from <= to <= self.chars@.len(),
            forall|m: int| from <= m < to ==> is_digit(#[trigger] self.chars@[m]),
        ensures
            match r {
                Some(m) => m == decimal_value(self.chars@.subrange(from as int, to as int))
                    && m <= 0x10000000000000000,
                None => decimal_value(self.chars@.subrange(from as int, to as int))
                    > 0x10000000000000000,
            },
    {
        let ghost s = self.chars@;
        let mut m: u128 = 0;
        let mut big = false;
        let mut q = from;
        while q < to
            invariant
                s == self.chars@,
                from <= q <= to <= s.len(),
                forall|x: int| from <= x < to ==> is_digit(#[trigger] s[x]),
                !big ==> m == decimal_value(s.subrange(from as int, q as int)) && m
                    <= 0x10000000000000000,
                big ==> decimal_value(s.subrange(from as int, q as int)) > 0x10000000000000000,
            decreases to - q,
        {
            let d = (self.chars[q] as u32 - '0' as u32) as u128;
            assert(s.subrange(from as int, q + 1).subrange(0, q - from) =~= s.subrange(
                from as int,
                q as int,
            ));
            if !big {
                m = m * 10 + d;
                if m > 0x10000000000000000 {
                    big = true;
                }
            }
            q = q + 1;
        }
        if big {
            None
        } else {
            Some(m)
        }
    }

    /// A numeric literal, or a signed `Infinity` or `NaN`.
    pub fn parse_number<G: Fn(&str) -> u64>(&mut self, reader: &G) -> (r: Result<Value, Fail>)
        requires
            old(self).inv(),
            reads_reals(*reader),
        ensures
            final(self).chars == old(self).chars,
            final(self).inv(),
            old(self).position <= final(self).position,
            yields(
                r,
                parse_number(old(self).chars@, old(self).position as int, *reader),
                final(self).position,
            ),
    {
        let ghost s = old(self).chars@;
        let start = self.position;
        proof {
            reveal_strlit("-Infinity");
            reveal_strlit("+Infinity");
            reveal_strlit("+NaN");
            reveal_strlit("-NaN");
            reveal_strlit("0x");
            reveal_strlit("0X");
            assert("-Infinity"@ =~= seq!['-'] + word_infinity());
            assert("+Infinity"@ =~= seq!['+'] + word_infinity());
            assert("+NaN"@ =~= seq!['+'] + word_nan());
            assert("-NaN"@ =~= seq!['-'] + word_nan());
            assert("0x"@ =~= seq!['0', 'x']);
            assert("0X"@ =~= seq!['0', 'X']);
        }
        if self.consume_exact("-Infinity") {
            return Ok(Value::Real(0xfff0000000000000));
        }
        if self.consume_exact("+Infinity") {
            return Ok(Value::Real(0x7ff0000000000000));
        }
        if self.starts_with("+NaN") || self.starts_with("-NaN") {
            self.position = self.position + 4;
            return Ok(Value::Real(0x7ff8000000000000));
        }
        let negative = self.char_at_is(start, '-');
        if negative || self.char_at_is(start, '+') {
            self.position = start + 1;
        }
        let j = self.position;
        if self.starts_with("0x") || self.starts_with("0X") {
            self.position = j + 2;
            self.parse_hex_number(start, negative)
        } else {
            self.parse_decimal_number(start, negative, reader)
        }
    }

    /// The digits of a hexadecimal integer, which start at the current index;
    /// the literal starts at `start`.
    fn parse_hex_number(&mut self, start: usize, negative: bool) -> (r: Result<Value, Fail>)
        requires
            old(self).inv(),
            start <= old(self).position,
        ensures
            within(r, old(self).chars@.len() as int),
            final(self).chars == old(self).chars,
            final(self).inv(),
            old(self).position <= final(self).position,
            yields(
                r,
                hex_number(old(self).chars@, start as int, negative, old(self).position as int),
                final(self).position,
            ),
    {
        let ghost s = old(self).chars@;
        let k = self.position;
        while self.position < self.chars.len() && is_hex(self.chars[self.position])
            invariant
                self.chars == old(self).chars,
                s == old(self).chars@,
                k == old(self).position,
                self.inv(),
                k <= self.position,
                hex_digits_end(s, k as int) == hex_digits_end(s, self.position as int),
                forall|x: int| k <= x < self.position ==> is_hex_digit(#[trigger] s[x]),
            decreases s.len() - self.position,
        {
            self.position = self.position + 1;
        }
        if self.position == k {
            return Err(fail("expected hex digits", k));
        }
        let m = match self.hex_magnitude(k) {
            Some(m) => m,
            None => {
                return Err(fail("invalid hex number", k));
            },
        };
        if negative {
            if m > 0x8000000000000000 {
                return Err(fail("integer overflow", start));
            }
            if m == 0x8000000000000000 {
                return Ok(Value::Integer(i64::MIN));
            }
            Ok(Value::Integer(-(m as i64)))
        } else {
            if m > 0x7fffffffffffffff {
                return Err(fail("integer overflow", start));
            }
            Ok(Value::Integer(m as i64))
        }
    }

    /// A decimal literal whose digits start at the current index; the literal,
    /// with its sign, starts at `start`.
    fn parse_decimal_number<G: Fn(&str) -> u64>(
        &mut self,
        start: usize,
        negative: bool,
        reader: &G,
    ) -> (r: Result<Value, Fail>)
        requires
            old(self).inv(),
            start <= old(self).position,
            reads_reals(*reader),
        ensures
            final(self).chars == old(self).chars,
            final(self).inv(),
            old(self).position <= final(self).position,
            yields(
                r,
                decimal_number(
                    old(self).chars@,
                    start as int,
                    negative,
                    old(self).position as int,
                    *reader,
                ),
                final(self).position,
            ),
    {
        let ghost s = old(self).chars@;
        let j = self.position;
        self.consume_digits();
        let d1 = self.position;
        let has_frac = self.consume_ascii('.');
        if has_frac {
            self.consume_digits();
        }
        let f1 = self.position;
        let has_exp = self.char_at_is(f1, 'e') || self.char_at_is(f1, 'E');
        if has_exp {
            self.position = f1 + 1;
            if self.char_at_is(self.position, '+') || self.char_at_is(self.position, '-') {
                self.position = self.position + 1;
            }
            let p = self.position;
            self.consume_digits();
            if self.position == p {
                return Err(fail("expected exponent digits", p));
            }
        }
        let seen = d1 > j || (has_frac && f1 > d1 + 1);
        if !seen {
            return Err(fail("expected number", start));
        }
        if !has_frac && !has_exp {
            match self.decimal_magnitude(j, d1) {
                Some(m) => {
                    if negative && m <= 0x8000000000000000 {
                        if m == 0x8000000000000000 {
                            return Ok(Value::Integer(i64::MIN));
                        }
                        return Ok(Value::Integer(-(m as i64)));
                    } else if !negative && m <= 0x7fffffffffffffff {
                        return Ok(Value::Integer(m as i64));
                    }
                },
                None => {},
            }
        }
        let text = self.text_between(start, self.position);
        let bits = reader(text.as_str());
        proof {
            assert(reads_as(*reader, text@, bits));
            let b = read_real(*reader, text@);
            let x = choose|x: &str| x@ == text@ && #[trigger] reader.ensures((x,), b);
            assert(reader.ensures((x,), b));
            assert(b == bits);
        }
        Ok(Value::Real(bits))
    }
}

proof fn lemma_digits_end(s: Seq<char>, i: int)
    requires
        0 <= i <= s.len(),
    ensures
        i <= digits_end(s, i) <= s.len(),
        forall|x: int| i <= x < digits_end(s, i) ==> is_digit(#[trigger] s[x]),
    decreases s.len() - i,
{
    if i < s.len() && is_digit(s[i]) {
        lemma_digits_end(s, i + 1);
    }
}

pub proof fn lemma_find_key(es: Seq<(Seq<char>, Val)>, k: Seq<char>)
    ensures
        -1 <= find_key(es, k) < es.len(),
        find_key(es, k) >= 0 ==> es[find_key(es, k)].0 == k && forall|j: int|
            0 <= j < find_key(es, k) ==> #[trigger] es[j].0 != k,
        find_key(es, k) == -1 ==> forall|j: int| 0 <= j < es.len() ==> #[trigger] es[j].0 != k,
    decreases es.len(),
{
    if es.len() > 0 {
        let pre = es.subrange(0, es.len() - 1);
        lemma_find_key(pre, k);
        assert forall|j: int| 0 <= j < pre.len() implies #[trigger] pre[j] == es[j] by {}
        if find_key(pre, k) >= 0 {
            assert(es[find_key(es, k)].0 == k);
            assert forall|j: int| 0 <= j < find_key(es, k) implies #[trigger] es[j].0 != k by {
                assert(pre[j] == es[j]);
            }
        } else if es[es.len() - 1].0 == k {
            assert forall|j: int| 0 <= j < find_key(es, k) implies #[trigger] es[j].0 != k by {
                assert(pre[j] == es[j]);
            }
        } else {
            assert forall|j: int| 0 <= j < es.len() implies #[trigger] es[j].0 != k by {
                if j < es.len() - 1 {
                    assert(pre[j] == es[j]);
                }
            }
        }
    }
}

/// Inserts an entry: a present key keeps its place and takes the new value; a
/// new key goes to the end.
pub fn insert_entry(entries: &mut Vec<(String, Value)>, key: String, value: Value)
    ensures
        entries_view(final(entries)@) == entries_insert(entries_view(old(entries)@), key@, value@),
{
    let ghost es = entries_view(old(entries)@);
    proof {
        lemma_entries_view(old(entries)@);
        lemma_find_key(es, key@);
    }
    let mut i: usize = 0;
    while i < entries.len()
        invariant
            entries@ == old(entries)@,
            es == entries_view(old(entries)@),
            es.len() == entries@.len(),
            forall|j: int| 0 <= j < entries@.len() ==> #[trigger] es[j] == (
                entries@[j].0@,
                value_view(entries@[j].1),
            ),
            i <= entries@.len(),
            forall|j: int| 0 <= j < i ==> #[trigger] es[j].0 != key@,
            -1 <= find_key(es, key@) < es.len(),
            find_key(es, key@) >= 0 ==> es[find_key(es, key@)].0 == key@ && forall|j: int|
                0 <= j < find_key(es, key@) ==> #[trigger] es[j].0 != key@,
            find_key(es, key@) == -1 ==> forall|j: int| 0 <= j < es.len() ==> #[trigger] es[j].0
                != key@,
        decreases entries@.len() - i,
    {
        if entries[i].0 == key {
            assert(es[i as int].0 == key@);
            assert(find_key(es, key@) == i);
            let ghost v = value@;
            let ghost k = key@;
            entries[i] = (key, value);
            proof {
                lemma_entries_view(entries@);
                assert(entries_view(entries@) =~= es.update(i as int, (k, v)));
            }
            return;
        }
        i = i + 1;
    }
    let ghost v = value@;
    let ghost k = key@;
    entries.push((key, value));
    proof {
        lemma_entries_view(entries@);
        assert(entries_view(entries@) =~= es.push((k, v)));
    }
}

impl Parser {
    /// A value, after any whitespace, comments and hints.
    #[verifier::rlimit(60)]
    pub fn parse_value<G: Fn(&str) -> u64>(&mut self, depth: usize, reader: &G) -> (r: Result<
        Value,
        Fail,
    >)
        requires
            old(self).inv(),
            depth <= MAX_DEPTH,
            reads_reals(*reader),
        ensures
            within(r, old(self).chars@.len() as int),
            final(self).chars == old(self).chars,
            final(self).inv(),
            old(self).position <= final(self).position,
            yields(
                r,
                parse_value(old(self).chars@, old(self).position as int, depth as int, *reader),
                final(self).position,
            ),
        decreases old(self).chars@.len() - old(self).position, 0int,
    {
        self.skip_ws()?;
        self.consume_const_hint();
        self.skip_ws()?;
        if self.position >= self.chars.len() {
            return Err(fail("unexpected end of input", self.position));
        }
        let c = self.chars[self.position];
        proof {
            reveal_strlit("<%");
            assert("<%"@ =~= seq!['<', '%']);
        }
        if (c == '[' || c == '%') && depth >= MAX_DEPTH {
            Err(fail("nesting too deep", self.position))
        } else if c == '[' {
            self.position = self.position + 1;
            self.parse_array(depth + 1, reader)
        } else if c == '%' {
            self.position = self.position + 1;
            self.parse_dictionary(depth + 1, reader)
        } else if c == '"' || c == '\'' {
            let t = self.parse_string()?;
            Ok(Value::String(t))
        } else if c == '<' && self.starts_with("<%") {
            self.parse_octet()
        } else if c == 't' || c == 'f' || c == 'n' || c == 'v' || c == 'I' || c == 'N' {
            self.parse_literal()
        } else if c == '+' || c == '-' || ('0' <= c && c <= '9') {
            self.parse_number(reader)
        } else {
            Err(fail("unexpected token", self.position))
        }
    }

    /// The rest of an array, after its `[`.
    /// Its elements stand at nesting depth `depth`.
    pub fn parse_array<G: Fn(&str) -> u64>(&mut self, depth: usize, reader: &G) -> (r: Result<
        Value,
        Fail,
    >)
        requires
            old(self).inv(),
            depth <= MAX_DEPTH,
            reads_reals(*reader),
        ensures
            within(r, old(self).chars@.len() as int),
            final(self).chars == old(self).chars,
            final(self).inv(),
            old(self).position <= final(self).position,
            yields(
                r,
                parse_items(
                    old(self).chars@,
                    old(self).position as int,
                    Seq::empty(),
                    depth as int,
                    *reader,
                ),
                final(self).position,
            ),
        decreases old(self).chars@.len() - old(self).position, 1int,
    {
        let ghost s = old(self).chars@;
        let ghost pos0 = old(self).position;
        let ghost goal = parse_items(s, pos0 as int, Seq::empty(), depth as int, *reader);
        let mut items: Vec<Value> = Vec::new();
        proof {
            assert(items_view(items@) =~= Seq::<Val>::empty());
        }
        loop
            invariant
                self.chars == old(self).chars,
                s == old(self).chars@,
                pos0 == old(self).position,
                goal == parse_items(s, pos0 as int, Seq::empty(), depth as int, *reader),
                depth <= MAX_DEPTH,
                reads_reals(*reader),
                self.inv(),
                pos0 <= self.position,
                goal == parse_items(s, self.position as int, items_view(items@), depth as int, *reader),
            decreases s.len() - self.position,
        {
            let ghost i = self.position;
            self.skip_ws()?;
            if self.consume_ascii(']') {
                return Ok(Value::Array(items));
            }
            let v = self.parse_value(depth, reader)?;
            let ghost vv = v@;
            let ghost before = items@;
            items.push(v);
            proof {
                assert(items@.subrange(0, items@.len() - 1) =~= before);
                assert(items_view(items@) == items_view(before).push(vv));
            }
            self.skip_ws()?;
            if self.consume_ascii(',') {
            } else if self.consume_ascii(']') {
                return Ok(Value::Array(items));
            } else {
                return Err(fail("expected ',' or ']'", self.position));
            }
        }
    }

    /// The rest of a dictionary, after its `%`.
    /// Its values stand at nesting depth `depth`.
    pub fn parse_dictionary<G: Fn(&str) -> u64>(&mut self, depth: usize, reader: &G) -> (r: Result<
        Value,
        Fail,
    >)
        requires
            old(self).inv(),
            depth <= MAX_DEPTH,
            reads_reals(*reader),
        ensures
            within(r, old(self).chars@.len() as int),
            final(self).chars == old(self).chars,
            final(self).inv(),
            old(self).position <= final(self).position,
            yields(
                r,
                parse_dict(old(self).chars@, old(self).position as int, depth as int, *reader),
                final(self).position,
            ),
        decreases old(self).chars@.len() - old(self).position, 1int,
    {
        let ghost s = old(self).chars@;
        let ghost pos0 = old(self).position;
        self.skip_ws()?;
        if !self.consume_ascii('[') {
            return Err(fail("expected '['", self.position));
        }
        let ghost goal = parse_entries(s, self.position as int, Seq::empty(), depth as int, *reader);
        let ghost pos1 = self.position;
        let mut entries: Vec<(String, Value)> = Vec::new();
        proof {
            assert(entries_view(entries@) =~= Seq::<(Seq<char>, Val)>::empty());
            reveal_strlit("=>");
            assert("=>"@ =~= seq!['=', '>']);
        }
        loop
            invariant
                self.chars == old(self).chars,
                s == old(self).chars@,
                pos0 == old(self).position,
                pos0 < pos1,
                goal == parse_entries(s, pos1 as int, Seq::empty(), depth as int, *reader),
                depth <= MAX_DEPTH,
                goal == parse_dict(s, pos0 as int, depth as int, *reader),
                reads_reals(*reader),
                self.inv(),
                pos1 <= self.position,
                goal == parse_entries(
                    s,
                    self.position as int,
                    entries_view(entries@),
                    depth as int,
                    *reader,
                ),
                "=>"@ == seq!['=', '>'],
            decreases s.len() - self.position,
        {
            self.skip_ws()?;
            if self.consume_ascii(']') {
                return Ok(Value::Dictionary(entries));
            }
            let key = self.parse_dict_key()?;
            self.skip_ws()?;
            if self.consume_exact("=>") {
            } else if self.consume_ascii(':') {
            } else {
                return Err(fail("expected '=>' after key", self.position));
            }
            let value = self.parse_value(depth, reader)?;
            insert_entry(&mut entries, key, value);
            self.skip_ws()?;
            if self.consume_ascii(',') {
            } else if self.consume_ascii(']') {
                return Ok(Value::Dictionary(entries));
            } else {
                return Err(fail("expected ',' or ']'", self.position));
            }
        }
    }
}

/// Parses `input` as one TJS2 value, with only whitespace and comments around
/// it. `read_real` gives the bit pattern of a real-number literal from its text.
pub fn parse_str<G: Fn(&str) -> u64>(input: &str, read_real: &G) -> (r: Result<Value, Error>)
    requires
        reads_reals(*read_real),
    ensures
        match parse_text(input@, *read_real) {
            Ok(v) => r matches Ok(x) && x@ == v,
            Err(e) => r matches Err(err) && err.message@ == e.msg && 0 <= e.at <= input@.len()
                && err.position == Some(byte_len(input@.subrange(0, e.at)) as usize),
        },
        r matches Ok(x) ==> well_formed(x@) && fits_depth(x@, 0),
{
    proof {
        lemma_text_well_formed(input@, *read_real);
    }
    let mut parser = Parser::new(input);
    let res = parse_top(&mut parser, read_real);
    match res {
        Ok(v) => Ok(v),
        Err(f) => {
            let at = byte_offset(input, &parser.chars, f.at);
            Err(Error::with_position(f.msg, at))
        },
    }
}

fn parse_top<G: Fn(&str) -> u64>(parser: &mut Parser, reader: &G) -> (r: Result<Value, Fail>)
    requires
        old(parser).inv(),
        old(parser).position == 0,
        reads_reals(*reader),
    ensures
        within(r, old(parser).chars@.len() as int),
        final(parser).chars == old(parser).chars,
        match parse_text(old(parser).chars@, *reader) {
            Ok(v) => r matches Ok(x) && x@ == v,
            Err(e) => r matches Err(f) && fail_is(f, e),
        },
{
    parser.skip_ws()?;
    let value = parser.parse_value(0, reader)?;
    parser.skip_ws()?;
    if parser.is_eof() {
        Ok(value)
    } else {
        Err(fail("unexpected trailing characters", parser.position))
    }
}

// ----- what the parser builds is well formed -----

/// Inserting an entry keeps the keys distinct.
pub proof fn lemma_insert_keys_distinct(es: Seq<(Seq<char>, Val)>, k: Seq<char>, v: Val)
    requires
        keys_distinct(es),
    ensures
        keys_distinct(entries_insert(es, k, v)),
{
    lemma_find_key(es, k);
    let r = entries_insert(es, k, v);
    if find_key(es, k) >= 0 {
        assert forall|a: int, b: int| 0 <= a < b < r.len() implies #[trigger] r[a].0 != #[trigger] r[b].0 by {
            assert(r[a].0 == es[a].0);
            assert(r[b].0 == es[b].0);
        }
    } else {
        assert forall|a: int, b: int| 0 <= a < b < r.len() implies #[trigger] r[a].0 != #[trigger] r[b].0 by {
            if b == es.len() {
                assert(es[a].0 != k);
            } else {
                assert(r[a] == es[a]);
                assert(r[b] == es[b]);
            }
        }
    }
}

/// Inserting an entry keeps the keys distinct and the values well formed.
pub proof fn lemma_insert_well_formed(es: Seq<(Seq<char>, Val)>, k: Seq<char>, v: Val)
    requires
        keys_distinct(es),
        forall|x: int| 0 <= x < es.len() ==> well_formed(#[trigger] es[x].1),
        well_formed(v),
    ensures
        keys_distinct(entries_insert(es, k, v)),
        forall|x: int|
            0 <= x < entries_insert(es, k, v).len() ==> well_formed(
                #[trigger] entries_insert(es, k, v)[x].1,
            ),
{
    lemma_insert_keys_distinct(es, k, v);
    lemma_find_key(es, k);
    let r = entries_insert(es, k, v);
    assert forall|x: int| 0 <= x < r.len() implies well_formed(#[trigger] r[x].1) by {
        if x < es.len() && x != find_key(es, k) {
            assert(r[x] == es[x]);
        }
    }
}

/// A value parsed at nesting depth `d` is well formed and nests within the limit.
pub proof fn lemma_value_well_formed<G: Fn(&str) -> u64>(s: Seq<char>, i: int, d: int, g: G)
    requires
        0 <= d <= MAX_DEPTH,
    ensures
        parse_value(s, i, d, g) matches Ok((v, _)) ==> well_formed(v) && fits_depth(v, d),
    decreases s.len() - i, 1int,
{
    match skip_ws(s, i) {
        Ok(i1) => match skip_ws(s, skip_hints(s, i1)) {
            Ok(i3) => if forward(s, i, i3) {
                lemma_at_well_formed(s, i3, d, g);
            },
            Err(_) => {},
        },
        Err(_) => {},
    }
}

pub proof fn lemma_at_well_formed<G: Fn(&str) -> u64>(s: Seq<char>, i: int, d: int, g: G)
    requires
        0 <= d <= MAX_DEPTH,
    ensures
        parse_at(s, i, d, g) matches Ok((v, _)) ==> well_formed(v) && fits_depth(v, d),
    decreases s.len() - i, 0int,
{
    if 0 <= i < s.len() {
        if (s[i] == '[' || s[i] == '%') && d >= MAX_DEPTH {
        } else if s[i] == '[' {
            lemma_items_well_formed(s, i + 1, Seq::empty(), d + 1, g);
        } else if s[i] == '%' {
            lemma_dict_well_formed(s, i + 1, d + 1, g);
        } else {
            lemma_octet_is_octet(s, i + 2, Seq::empty());
            assert(parse_literal(s, i) matches Ok((v, _)) ==> !(v is Array || v is Dict));
            assert(parse_number(s, i, g) matches Ok((v, _)) ==> (v is Integer || v is Real));
        }
    }
}

proof fn lemma_octet_is_octet(s: Seq<char>, i: int, acc: Seq<u8>)
    ensures
        parse_octet(s, i, acc) matches Ok((v, _)) ==> v is Octet,
    decreases s.len() - i,
{
    if 0 <= i < s.len() && white_space(s[i]) {
        lemma_octet_is_octet(s, i + 1, acc);
    } else if !starts_at(s, i, seq!['%', '>']) && 0 <= i && i + 1 < s.len() && is_hex_digit(s[i])
        && is_hex_digit(s[i + 1]) {
        lemma_octet_is_octet(
            s,
            i + 2,
            acc.push((hex_value(s[i]) * 16 + hex_value(s[i + 1])) as u8),
        );
    }
}

pub proof fn lemma_dict_well_formed<G: Fn(&str) -> u64>(s: Seq<char>, i: int, d: int, g: G)
    requires
        1 <= d <= MAX_DEPTH,
    ensures
        parse_dict(s, i, d, g) matches Ok((v, _)) ==> well_formed(v) && fits_depth(v, d - 1),
    decreases s.len() - i, 2int,
{
    match skip_ws(s, i) {
        Ok(i4) => if forward(s, i, i4) && has_at(s, i4, '[') {
            lemma_entries_well_formed(s, i4 + 1, Seq::empty(), d, g);
        },
        Err(_) => {},
    }
}

pub proof fn lemma_items_well_formed<G: Fn(&str) -> u64>(
    s: Seq<char>,
    i: int,
    acc: Seq<Val>,
    d: int,
    g: G,
)
    requires
        1 <= d <= MAX_DEPTH,
        forall|x: int|
            0 <= x < acc.len() ==> well_formed(#[trigger] acc[x]) && fits_depth(acc[x], d),
    ensures
        parse_items(s, i, acc, d, g) matches Ok((v, _)) ==> well_formed(v) && fits_depth(v, d - 1),
    decreases s.len() - i, 2int,
{
    match skip_ws(s, i) {
        Ok(i1) => if forward(s, i, i1) && !has_at(s, i1, ']') {
            lemma_value_well_formed(s, i1, d, g);
            match parse_value(s, i1, d, g) {
                Ok((v, i2)) => match skip_ws(s, i2) {
                    Ok(i3) => if forward(s, i, i3) {
                        let acc2 = acc.push(v);
                        assert forall|x: int| 0 <= x < acc2.len() implies well_formed(
                            #[trigger] acc2[x],
                        ) && fits_depth(acc2[x], d) by {
                            if x < acc.len() {
                                assert(acc2[x] == acc[x]);
                            }
                        }
                        if has_at(s, i3, ',') {
                            lemma_items_well_formed(s, i3 + 1, acc2, d, g);
                        }
                    },
                    Err(_) => {},
                },
                Err(_) => {},
            }
        },
        Err(_) => {},
    }
}

pub proof fn lemma_entries_well_formed<G: Fn(&str) -> u64>(
    s: Seq<char>,
    i: int,
    acc: Seq<(Seq<char>, Val)>,
    d: int,
    g: G,
)
    requires
        1 <= d <= MAX_DEPTH,
        keys_distinct(acc),
        forall|x: int|
            0 <= x < acc.len() ==> well_formed(#[trigger] acc[x].1) && fits_depth(acc[x].1, d),
    ensures
        parse_entries(s, i, acc, d, g) matches Ok((v, _)) ==> well_formed(v) && fits_depth(
            v,
            d - 1,
        ),
    decreases s.len() - i, 2int,
{
    match skip_ws(s, i) {
        Ok(i1) => if forward(s, i, i1) && !has_at(s, i1, ']') {
            match parse_key(s, i1) {
                Ok((k, i2)) => match skip_ws(s, i2) {
                    Ok(i3) => {
                        let i4 = if starts_at(s, i3, seq!['=', '>']) {
                            i3 + 2
                        } else if has_at(s, i3, ':') {
                            i3 + 1
                        } else {
                            -1
                        };
                        if i4 >= 0 && forward(s, i, i4) {
                            lemma_value_well_formed(s, i4, d, g);
                            match parse_value(s, i4, d, g) {
                                Ok((v, i5)) => match skip_ws(s, i5) {
                                    Ok(i6) => if forward(s, i, i6) {
                                        lemma_insert_well_formed(acc, k, v);
                                        lemma_insert_fits(acc, k, v, d);
                                        if has_at(s, i6, ',') {
                                            lemma_entries_well_formed(
                                                s,
                                                i6 + 1,
                                                entries_insert(acc, k, v),
                                                d,
                                                g,
                                            );
                                        }
                                    },
                                    Err(_) => {},
                                },
                                Err(_) => {},
                            }
                        }
                    },
                    Err(_) => {},
                },
                Err(_) => {},
            }
        },
        Err(_) => {},
    }
}

proof fn lemma_insert_fits(es: Seq<(Seq<char>, Val)>, k: Seq<char>, v: Val, d: int)
    requires
        forall|x: int| 0 <= x < es.len() ==> fits_depth(#[trigger] es[x].1, d),
        fits_depth(v, d),
    ensures
        forall|x: int|
            0 <= x < entries_insert(es, k, v).len() ==> fits_depth(
                #[trigger] entries_insert(es, k, v)[x].1,
                d,
            ),
{
    lemma_find_key(es, k);
    let r = entries_insert(es, k, v);
    assert forall|x: int| 0 <= x < r.len() implies fits_depth(#[trigger] r[x].1, d) by {
        if x < es.len() && x != find_key(es, k) {
            assert(r[x] == es[x]);
        }
    }
}

/// The text that parses is a well-formed value.
pub proof fn lemma_text_well_formed<G: Fn(&str) -> u64>(s: Seq<char>, g: G)
    ensures
        parse_text(s, g) matches Ok(v) ==> well_formed(v) && fits_depth(v, 0),
{
    match skip_ws(s, 0) {
        Ok(i1) => lemma_value_well_formed(s, i1, 0, g),
        Err(_) => {},
    }
}

} // verus!
