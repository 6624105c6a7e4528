//! Laws that relate the printer and the parser.
use vstd::prelude::*;

use crate::parser::{
    Fault, decimal_value, digits_end, has_at, hex_value, is_digit, is_hex_digit, parse_number,
    parse_octet, parse_string, read_hex, read_real, skip_ws, starts_at, word_infinity, word_nan,
    infinity_bits, neg_infinity_bits, const_word, paren_const, skip_hints, parse_value, parse_items,
    parse_entries, parse_text, word_true, word_false, word_null, word_void, find_key, entries_insert,
    lemma_find_key, parse_at, parse_literal, lemma_text_well_formed, MAX_DEPTH,
};
use crate::text::{char_with_code, digit_char, hex2, hex_char, int_text, nat_text, white_space};
use crate::de::enum_parts;
use crate::ser::variant_value;
use crate::value::{
    SerializeOptions, Val, fits_depth, well_formed, keys_distinct, arrow, close_body, const_prefix, entries_join, escape_char, escaped,
    hex_join, hint, is_control, items_join, lead, open_body, quoted, real_is_infinite, real_is_nan,
    real_is_negative, real_text, render, sep,
};

verus! {

/// Whitespace from `i` up to a position `j` that holds neither whitespace nor
/// the start of a comment is skipped as a whole.
pub proof fn lemma_skip_ws_run(s: Seq<char>, i: int, j: int)
    requires
        0 <= i <= j <= s.len(),
        forall|x: int| i <= x < j ==> white_space(#[trigger] s[x]),
        j == s.len() || (!white_space(s[j]) && s[j] != '/'),
    ensures
        skip_ws(s, i) == Ok::<int, Fault>(j),
    decreases j - i,
{
    if i < j {
        lemma_skip_ws_run(s, i + 1, j);
    }
}

/// `s` holds `t` from index `i` on.
pub open spec fn holds_at(s: Seq<char>, i: int, t: Seq<char>) -> bool {
    0 <= i && i + t.len() <= s.len() && forall|x: int| 0 <= x < t.len() ==> #[trigger] s[i + x] == t[x]
}

/// What may follow a rendered value: the end of the text, a comma, a closing
/// bracket or a newline.
pub open spec fn value_boundary(s: Seq<char>, j: int) -> bool {
    j == s.len() || (0 <= j < s.len() && (s[j] == ',' || s[j] == ']' || s[j] == '\n'))
}

pub proof fn lemma_decimal_value_nat_text(n: nat)
    ensures
        decimal_value(nat_text(n)) == n,
        nat_text(n).len() >= 1,
        forall|x: int| 0 <= x < nat_text(n).len() ==> is_digit(#[trigger] nat_text(n)[x]),
    decreases n,
{
    lemma_digit_char((n % 10) as int);
    if n >= 10 {
        lemma_decimal_value_nat_text(n / 10);
        let t = nat_text(n);
        assert(t.subrange(0, t.len() - 1) =~= nat_text(n / 10));
        assert(t[t.len() - 1] == digit_char((n % 10) as int));
        assert forall|x: int| 0 <= x < t.len() implies is_digit(#[trigger] t[x]) by {
            if x < t.len() - 1 {
                assert(t[x] == nat_text(n / 10)[x]);
            }
        }
    } else {
        let t = nat_text(n);
        assert(t.subrange(0, 0) =~= Seq::<char>::empty());
        assert(decimal_value(t) == decimal_value(t.subrange(0, 0)) * 10 + (t[0] as int - '0' as int));
    }
}

pub proof fn lemma_digit_char(d: int)
    requires
        0 <= d < 10,
    ensures
        digit_char(d) as int == 48 + d,
{
}

/// `s` does not continue with `t` at `i` when they differ at offset `x`.
pub proof fn lemma_not_starts(s: Seq<char>, i: int, t: Seq<char>, x: int)
    requires
        0 <= x < t.len(),
        0 <= i,
        i + x >= s.len() || s[i + x] != t[x],
    ensures
        !starts_at(s, i, t),
{
    if starts_at(s, i, t) {
        assert(s.subrange(i, i + t.len())[x] == s[i + x]);
    }
}

pub proof fn lemma_digits_end_run(s: Seq<char>, i: int, j: int)
    requires
        0 <= i <= j <= s.len(),
        forall|x: int| i <= x < j ==> is_digit(#[trigger] s[x]),
        j == s.len() || !is_digit(s[j]),
    ensures
        digits_end(s, i) == j,
    decreases j - i,
{
    if i < j {
        lemma_digits_end_run(s, i + 1, j);
    }
}

/// The numeral of an integer reads back as that integer.
pub proof fn lemma_parse_integer<G: Fn(&str) -> u64>(n: i64, s: Seq<char>, i: int, g: G)
    requires
        holds_at(s, i, int_text(n as int)),
        value_boundary(s, i + int_text(n as int).len()),
    ensures
        parse_number(s, i, g) == Ok::<(Val, int), Fault>(
            (Val::Integer(n), i + int_text(n as int).len()),
        ),
{
    let t = int_text(n as int);
    let m: nat = if n < 0 {
        (-n) as nat
    } else {
        n as nat
    };
    lemma_decimal_value_nat_text(m);
    let j = if n < 0 {
        i + 1
    } else {
        i
    };
    let e = i + t.len();
    let nt = nat_text(m);
    assert(t == if n < 0 { seq!['-'] + nt } else { nt });
    assert forall|x: int| 0 <= x < nt.len() implies #[trigger] s[j + x] == nt[x] by {
        if n < 0 {
            assert(s[i + (x + 1)] == t[x + 1]);
        } else {
            assert(s[i + x] == t[x]);
        }
    }
    assert(e == j + nt.len());
    assert forall|x: int| j <= x < e implies is_digit(#[trigger] s[x]) by {
        assert(s[j + (x - j)] == nt[x - j]);
    }
    assert(is_digit(s[j]));
    lemma_digits_end_run(s, j, e);
    assert forall|x: int| 0 <= x < nt.len() implies #[trigger] s.subrange(j, e)[x] == nt[x] by {
        assert(s[j + x] == nt[x]);
    }
    assert(s.subrange(j, e) =~= nt);
    let z: int = 0;
    assert(s[i + z] == t[z]);
    let w = seq!['-'] + word_infinity();
    let w2 = seq!['+'] + word_infinity();
    let w3 = seq!['+'] + word_nan();
    let w4 = seq!['-'] + word_nan();
    if n < 0 {
        assert(s[i + 1] == t[1]);
        lemma_not_starts(s, i, w, 1);
        lemma_not_starts(s, i, w2, 0);
        lemma_not_starts(s, i, w3, 0);
        lemma_not_starts(s, i, w4, 1);
    } else {
        lemma_not_starts(s, i, w, 0);
        lemma_not_starts(s, i, w2, 0);
        lemma_not_starts(s, i, w3, 0);
        lemma_not_starts(s, i, w4, 0);
    }
    if nt.len() == 1 {
        lemma_not_starts(s, j, seq!['0', 'x'], 1);
        lemma_not_starts(s, j, seq!['0', 'X'], 1);
    } else {
        assert(s[j + 1] == nt[1]);
        lemma_not_starts(s, j, seq!['0', 'x'], 1);
        lemma_not_starts(s, j, seq!['0', 'X'], 1);
    }
    assert(!has_at(s, e, '.'));
    assert(!has_at(s, e, 'e') && !has_at(s, e, 'E'));
}

} // verus!

verus! {

pub proof fn lemma_holds_split(s: Seq<char>, i: int, a: Seq<char>, b: Seq<char>)
    requires
        holds_at(s, i, a + b),
    ensures
        holds_at(s, i, a),
        holds_at(s, i + a.len(), b),
{
    assert forall|x: int| 0 <= x < a.len() implies #[trigger] s[i + x] == a[x] by {
        assert(s[i + x] == (a + b)[x]);
    }
    assert forall|x: int| 0 <= x < b.len() implies #[trigger] s[i + a.len() + x] == b[x] by {
        assert(s[i + (a.len() + x)] == (a + b)[a.len() + x]);
    }
}

pub proof fn lemma_hex_char(d: int)
    requires
        0 <= d < 16,
    ensures
        is_hex_digit(hex_char(d)),
        hex_value(hex_char(d)) == d,
        !white_space(hex_char(d)),
        hex_char(d) != '%',
{
}

pub proof fn lemma_escaped_front(t: Seq<char>)
    requires
        t.len() > 0,
    ensures
        escaped(t) == escape_char(t[0]) + escaped(t.drop_first()),
    decreases t.len(),
{
    if t.len() == 1 {
        assert(t.subrange(0, 0) =~= Seq::<char>::empty());
        assert(t.drop_first() =~= Seq::<char>::empty());
        assert(escaped(t.subrange(0, 0)) == Seq::<char>::empty());
        assert(escaped(t) == escaped(t.subrange(0, 0)) + escape_char(t[0]));
        assert(escaped(t) =~= escape_char(t[0]));
        assert(escaped(t.drop_first()) == Seq::<char>::empty());
    } else {
        let init = t.subrange(0, t.len() - 1);
        lemma_escaped_front(init);
        assert(init.drop_first() =~= t.drop_first().subrange(0, t.drop_first().len() - 1));
        assert(escaped(t.drop_first()) == escaped(init.drop_first()) + escape_char(t[t.len() - 1]));
        assert(escaped(t) =~= escape_char(t[0]) + escaped(t.drop_first()));
    }
}

/// The escaped text of `t` followed by a closing quote reads back as `t`.
pub proof fn lemma_parse_escaped(t: Seq<char>, s: Seq<char>, i: int, acc: Seq<char>)
    requires
        holds_at(s, i, escaped(t) + seq!['"']),
    ensures
        parse_string(s, i, '"', acc) == Ok::<(Seq<char>, int), Fault>(
            (acc + t, i + escaped(t).len() + 1),
        ),
    decreases t.len(),
{
    if t.len() == 0 {
        assert(escaped(t) =~= Seq::<char>::empty());
        assert(s[i + 0] == (escaped(t) + seq!['"'])[0]);
        assert(acc + t =~= acc);
    } else {
        let c = t[0];
        let rest = t.drop_first();
        lemma_escaped_front(t);
        let ec = escape_char(c);
        assert(escaped(t) + seq!['"'] =~= ec + (escaped(rest) + seq!['"']));
        lemma_holds_split(s, i, ec, escaped(rest) + seq!['"']);
        lemma_parse_escaped(rest, s, i + ec.len(), acc.push(c));
        assert(acc.push(c) + rest =~= acc + t);
        assert(s[i + 0] == ec[0]);
        if ec.len() >= 2 {
            assert(s[i + 1] == ec[1]);
        }
        if c == '\\' || c == '"' || c == '\n' || c == '\r' || c == '\t' || c == '\x08' || c == '\x0c' {
        } else if is_control(c) {
            let b = (c as u32) as u8;
            lemma_hex_char(b as int / 16);
            lemma_hex_char(b as int % 16);
            assert(s[i + 2] == ec[2]);
            assert(s[i + 3] == ec[3]);
            reveal_with_fuel(read_hex, 3);
            assert(c as u32 <= 0x9f);
            assert(b as u32 == c as u32);
            assert(read_hex(s, i + 2, 2, 0) == Ok::<nat, Fault>(b as nat));
            vstd::utf8::char_u32_cast(c, c as u32);
            assert(char_with_code(b as u32) == c);
        } else {
            assert(ec =~= seq![c]);
        }
    }
}

pub proof fn lemma_hex_join_front(b: Seq<u8>)
    requires
        b.len() >= 2,
    ensures
        hex_join(b) == hex2(b[0]) + seq![' '] + hex_join(b.drop_first()),
    decreases b.len(),
{
    if b.len() == 2 {
        assert(b.subrange(0, 1).len() == 1);
        assert(hex_join(b.subrange(0, 1)) == hex2(b[0]));
        assert(b.drop_first().len() == 1);
        assert(hex_join(b.drop_first()) == hex2(b[1]));
    } else {
        let init = b.subrange(0, b.len() - 1);
        lemma_hex_join_front(init);
        assert(init.drop_first() =~= b.drop_first().subrange(0, b.drop_first().len() - 1));
        assert(hex_join(b) =~= hex2(b[0]) + seq![' '] + hex_join(b.drop_first()));
    }
}

/// Hexadecimal pairs followed by ` %>` read back as their bytes.
pub proof fn lemma_parse_hex_join(b: Seq<u8>, s: Seq<char>, i: int, acc: Seq<u8>)
    requires
        b.len() >= 1,
        holds_at(s, i, hex_join(b) + seq![' ', '%', '>']),
    ensures
        parse_octet(s, i, acc) == Ok::<(Val, int), Fault>(
            (Val::Octet(acc + b), i + hex_join(b).len() + 3),
        ),
    decreases b.len(),
{
    lemma_hex_char(b[0] as int / 16);
    lemma_hex_char(b[0] as int % 16);
    reveal_with_fuel(parse_octet, 3);
    if b.len() == 1 {
        assert(hex_join(b) == hex2(b[0]));
        let t = hex2(b[0]) + seq![' ', '%', '>'];
        assert(s[i + 0] == t[0]);
        assert(s[i + 1] == t[1]);
        assert(s[i + 2] == t[2]);
        assert(s[i + 3] == t[3]);
        assert(s[i + 4] == t[4]);
        lemma_not_starts(s, i, seq!['%', '>'], 0);
        assert(starts_at(s, i + 3, seq!['%', '>'])) by {
            assert(s.subrange(i + 3, i + 5) =~= seq!['%', '>']);
        }
        assert(white_space(s[i + 2]));
        let byte = ((hex_value(s[i]) * 16 + hex_value(s[i + 1])) as u8);
        assert(byte == b[0]);
        assert(acc.push(b[0]) =~= acc + b);
    } else {
        lemma_hex_join_front(b);
        let rest = b.drop_first();
        let t = hex2(b[0]) + seq![' '] + (hex_join(rest) + seq![' ', '%', '>']);
        assert(hex_join(b) + seq![' ', '%', '>'] =~= t);
        lemma_holds_split(s, i, hex2(b[0]) + seq![' '], hex_join(rest) + seq![' ', '%', '>']);
        lemma_parse_hex_join(rest, s, i + 3, acc.push(b[0]));
        assert(s[i + 0] == t[0]);
        assert(s[i + 1] == t[1]);
        assert(s[i + 2] == t[2]);
        lemma_not_starts(s, i, seq!['%', '>'], 0);
        lemma_not_starts(s, i + 2, seq!['%', '>'], 0);
        let byte = ((hex_value(s[i]) * 16 + hex_value(s[i + 1])) as u8);
        assert(byte == b[0]);
        assert(acc.push(b[0]) + rest =~= acc + b);
    }
}

/// `t` is an optional minus sign, digits, a point and digits.
pub open spec fn plain_decimal(t: Seq<char>) -> bool {
    let a: int = if t.len() > 0 && t[0] == '-' {
        1
    } else {
        0
    };
    exists|p: int|
        a < p < t.len() - 1 && #[trigger] t[p] == '.' && forall|x: int|
            a <= x < t.len() && x != p ==> is_digit(#[trigger] t[x])
}

/// The real `b` is not NaN, and its text under `f` reads back as `b` under `g`.
pub open spec fn real_round_trips<F: Fn(u64) -> String, G: Fn(&str) -> u64>(
    b: u64,
    f: F,
    g: G,
) -> bool {
    !real_is_nan(b) && (real_is_infinite(b) || (plain_decimal(real_text(f, b)) && read_real(
        g,
        real_text(f, b),
    ) == b))
}

/// Every real within `v` round-trips.
pub open spec fn reals_round_trip<F: Fn(u64) -> String, G: Fn(&str) -> u64>(
    v: Val,
    f: F,
    g: G,
) -> bool
    decreases v,
{
    match v {
        Val::Real(b) => real_round_trips(b, f, g),
        Val::Array(items) => forall|k: int|
            0 <= k < items.len() ==> reals_round_trip(#[trigger] items[k], f, g),
        Val::Dict(es) => forall|k: int| 0 <= k < es.len() ==> reals_round_trip(#[trigger] es[k].1, f, g),
        _ => true,
    }
}

pub proof fn lemma_infinity_bits(b: u64)
    requires
        real_is_infinite(b),
    ensures
        real_is_negative(b) ==> b == neg_infinity_bits(),
        !real_is_negative(b) ==> b == infinity_bits(),
{
    let q = b as int / 0x10000000000000;
    assert(b as int == q * 0x10000000000000);
    if real_is_negative(b) {
        assert(q % 2048 == 2047);
        assert(q < 4096);
        assert(q == 4095);
    } else {
        assert(q < 2048);
        assert(q == 2047);
    }
}

/// What lies at the start of a rendered value.
pub proof fn lemma_render_start<F: Fn(u64) -> String, G: Fn(&str) -> u64>(
    v: Val,
    o: SerializeOptions,
    d: nat,
    f: F,
    g: G,
)
    requires
        reals_round_trip(v, f, g),
    ensures
        render(v, o, d, f).len() >= 1,
        ({
            let c = render(v, o, d, f)[0];
            !white_space(c) && c != '/' && c != ']' && c != 'c' && (c == '(' ==> (v is Array
                || v is Dict) && o.const_hint)
        }),
{
    match v {
        Val::Integer(n) => {
            let m: nat = if n < 0 {
                (-n) as nat
            } else {
                n as nat
            };
            lemma_decimal_value_nat_text(m);
            if n >= 0 {
                assert(nat_text(m)[0] == render(v, o, d, f)[0]);
            }
        },
        Val::Real(b) => {
            if !real_is_infinite(b) {
                let t = real_text(f, b);
                let a: int = if t.len() > 0 && t[0] == '-' {
                    1
                } else {
                    0
                };
                let p = choose|p: int|
                    a < p < t.len() - 1 && #[trigger] t[p] == '.' && forall|x: int|
                        a <= x < t.len() && x != p ==> is_digit(#[trigger] t[x]);
                if a == 0 {
                    assert(is_digit(t[0]));
                }
            }
        },
        Val::Str(t) => {},
        Val::Octet(b) => {},
        _ => {},
    }
}

pub proof fn lemma_skip_hints_none(s: Seq<char>, j: int)
    requires
        0 <= j < s.len(),
        !white_space(s[j]),
        s[j] != '(',
        s[j] != 'c',
    ensures
        skip_hints(s, j) == j,
{
    lemma_not_starts(s, j, paren_const(), 0);
    lemma_not_starts(s, j, const_word(), 0);
}

pub proof fn lemma_skip_hints_const(s: Seq<char>, j: int, c: char)
    requires
        holds_at(s, j, const_prefix() + seq![c]),
        c == '[' || c == '%',
    ensures
        skip_hints(s, j) == j + 8,
{
    let t = const_prefix() + seq![c];
    assert forall|x: int| 0 <= x < 9 implies #[trigger] s[j + x] == t[x] by {}
    assert(s[j + 8] == c);
    assert(s[j + 7] == ' ');
    lemma_skip_hints_none(s, j + 8);
    reveal_with_fuel(skip_hints, 3);
    assert(s.subrange(j, j + 7) =~= paren_const()) by {
        assert forall|x: int| 0 <= x < 7 implies #[trigger] s.subrange(j, j + 7)[x] == paren_const()[x] by {
            assert(s[j + x] == t[x]);
        }
    }
    let z: int = 0;
    assert(s[j + z] == t[z]);
}

/// A plain decimal numeral reads back as the real it was printed from.
pub proof fn lemma_parse_decimal_real<G: Fn(&str) -> u64>(
    t: Seq<char>,
    b: u64,
    s: Seq<char>,
    k: int,
    g: G,
)
    requires
        plain_decimal(t),
        read_real(g, t) == b,
        holds_at(s, k, t),
        value_boundary(s, k + t.len()),
    ensures
        parse_number(s, k, g) == Ok::<(Val, int), Fault>((Val::Real(b), k + t.len())),
{
    let a: int = if t.len() > 0 && t[0] == '-' {
        1
    } else {
        0
    };
    let p = choose|p: int|
        a < p < t.len() - 1 && #[trigger] t[p] == '.' && forall|x: int|
            a <= x < t.len() && x != p ==> is_digit(#[trigger] t[x]);
    let z: int = 0;
    assert(s[k + z] == t[z]);
    assert(s[k + a] == t[a]);
    assert(s[k + (a + 1)] == t[a + 1]);
    assert(is_digit(t[a]));
    let w = seq!['-'] + word_infinity();
    let w2 = seq!['+'] + word_infinity();
    let w3 = seq!['+'] + word_nan();
    let w4 = seq!['-'] + word_nan();
    if a == 1 {
        lemma_not_starts(s, k, w, 1);
        lemma_not_starts(s, k, w2, 0);
        lemma_not_starts(s, k, w3, 0);
        lemma_not_starts(s, k, w4, 1);
    } else {
        lemma_not_starts(s, k, w, 0);
        lemma_not_starts(s, k, w2, 0);
        lemma_not_starts(s, k, w3, 0);
        lemma_not_starts(s, k, w4, 0);
    }
    assert(t[a + 1] == '.' || is_digit(t[a + 1]));
    lemma_not_starts(s, k + a, seq!['0', 'x'], 1);
    lemma_not_starts(s, k + a, seq!['0', 'X'], 1);
    let j = k + a;
    assert forall|x: int| j <= x < k + p implies is_digit(#[trigger] s[x]) by {
        assert(s[k + (x - k)] == t[x - k]);
    }
    assert(s[k + p] == t[p]);
    lemma_digits_end_run(s, j, k + p);
    assert forall|x: int| k + p + 1 <= x < k + t.len() implies is_digit(#[trigger] s[x]) by {
        assert(s[k + (x - k)] == t[x - k]);
    }
    lemma_digits_end_run(s, k + p + 1, k + t.len());
    assert(s.subrange(k, k + t.len()) =~= t) by {
        assert forall|x: int| 0 <= x < t.len() implies #[trigger] s.subrange(k, k + t.len())[x] == t[x] by {
            assert(s[k + x] == t[x]);
        }
    }
}

pub proof fn lemma_items_join_front<F: Fn(u64) -> String>(
    items: Seq<Val>,
    o: SerializeOptions,
    d: nat,
    f: F,
)
    requires
        items.len() >= 2,
    ensures
        items_join(items, o, d, f) == (lead(o, d + 1) + render(items[0], o, d + 1, f)) + sep(o)
            + items_join(items.drop_first(), o, d, f),
    decreases items.len(),
{
    let init = items.subrange(0, items.len() - 1);
    if items.len() == 2 {
        assert(init.len() == 1);
        assert(init[0] == items[0]);
        assert(items.drop_first().len() == 1);
        assert(items.drop_first()[0] == items[1]);
        assert(items_join(init, o, d, f) == lead(o, d + 1) + render(items[0], o, d + 1, f));
        assert(items_join(items.drop_first(), o, d, f) == lead(o, d + 1) + render(items[1], o, d + 1, f));
        assert(items_join(items, o, d, f) =~= (lead(o, d + 1) + render(items[0], o, d + 1, f))
            + sep(o) + items_join(items.drop_first(), o, d, f));
    } else {
        lemma_items_join_front(init, o, d, f);
        assert(init.drop_first() =~= items.drop_first().subrange(0, items.drop_first().len() - 1));
        assert(items_join(items, o, d, f) =~= (lead(o, d + 1) + render(items[0], o, d + 1, f))
            + sep(o) + items_join(items.drop_first(), o, d, f));
    }
}

pub proof fn lemma_entries_join_front<F: Fn(u64) -> String>(
    es: Seq<(Seq<char>, Val)>,
    o: SerializeOptions,
    d: nat,
    f: F,
)
    requires
        es.len() >= 2,
    ensures
        entries_join(es, o, d, f) == (lead(o, d + 1) + quoted(es[0].0) + arrow() + render(
            es[0].1,
            o,
            d + 1,
            f,
        )) + sep(o) + entries_join(es.drop_first(), o, d, f),
    decreases es.len(),
{
    let init = es.subrange(0, es.len() - 1);
    if es.len() == 2 {
        assert(init.len() == 1);
        assert(init[0] == es[0]);
        assert(es.drop_first().len() == 1);
        assert(es.drop_first()[0] == es[1]);
        let e0 = es[0];
        let e1 = es[1];
        assert(entries_join(init, o, d, f) == lead(o, d + 1) + quoted(e0.0) + arrow() + render(e0.1, o, d + 1, f));
        assert(entries_join(es.drop_first(), o, d, f) == lead(o, d + 1) + quoted(e1.0) + arrow() + render(e1.1, o, d + 1, f));
        assert(entries_join(es, o, d, f) == entries_join(init, o, d, f) + sep(o) + (lead(o, d + 1) + quoted(e1.0) + arrow() + render(e1.1, o, d + 1, f)));
        assert(entries_join(es, o, d, f) =~= (lead(o, d + 1) + quoted(es[0].0) + arrow() + render(
            es[0].1,
            o,
            d + 1,
            f,
        )) + sep(o) + entries_join(es.drop_first(), o, d, f));
    } else {
        lemma_entries_join_front(init, o, d, f);
        assert(init.drop_first() =~= es.drop_first().subrange(0, es.drop_first().len() - 1));
        assert(entries_join(es, o, d, f) =~= (lead(o, d + 1) + quoted(es[0].0) + arrow() + render(
            es[0].1,
            o,
            d + 1,
            f,
        )) + sep(o) + entries_join(es.drop_first(), o, d, f));
    }
}

pub proof fn lemma_ws_lead(o: SerializeOptions, d: nat)
    ensures
        forall|x: int| 0 <= x < lead(o, d).len() ==> white_space(#[trigger] lead(o, d)[x]),
        forall|x: int| 0 <= x < close_body(o, d).len() ==> white_space(#[trigger] close_body(o, d)[x]),
        forall|x: int| 0 <= x < open_body(o).len() ==> white_space(#[trigger] open_body(o)[x]),
        forall|x: int| 0 <= x < sep(o).drop_first().len() ==> white_space(#[trigger] sep(o).drop_first()[x]),
        sep(o).len() == 2,
        sep(o)[0] == ',',
        close_body(o, d).len() == 0 || close_body(o, d)[0] == '\n',
{
    assert forall|x: int| 0 <= x < close_body(o, d).len() implies white_space(#[trigger] close_body(o, d)[x]) by {
        if o.indent is Some && x > 0 {
            assert(close_body(o, d)[x] == lead(o, d)[x - 1]);
        }
    }
}

/// How many characters of hint stand before the text of `v`.
pub open spec fn hint_len(v: Val, o: SerializeOptions) -> int {
    if (v is Array || v is Dict) && o.const_hint {
        8
    } else {
        0
    }
}

/// Before a rendered value, the parser skips the whitespace and the hint.
#[verifier::rlimit(100)]
pub proof fn lemma_value_prefix<F: Fn(u64) -> String, G: Fn(&str) -> u64>(
    v: Val,
    o: SerializeOptions,
    d: nat,
    f: F,
    g: G,
    s: Seq<char>,
    i: int,
    j: int,
)
    requires
        reals_round_trip(v, f, g),
        0 <= i <= j,
        forall|x: int| i <= x < j ==> white_space(#[trigger] s[x]),
        holds_at(s, j, render(v, o, d, f)),
    ensures
        parse_value(s, i, d as int, g) == parse_at(s, j + hint_len(v, o), d as int, g),
        hint_len(v, o) < render(v, o, d, f).len(),
{
    let r = render(v, o, d, f);
    lemma_render_start(v, o, d, f, g);
    let z: int = 0;
    assert(s[j + z] == r[z]);
    lemma_skip_ws_run(s, i, j);
    let k = j + hint_len(v, o);
    if hint_len(v, o) == 8 {
        let c = if v is Array {
            '['
        } else {
            '%'
        };
        assert(r[8] == c);
        assert(holds_at(s, j, const_prefix() + seq![c])) by {
            assert forall|x: int| 0 <= x < 9 implies #[trigger] s[j + x] == (const_prefix() + seq![
                c,
            ])[x] by {
                assert(s[j + x] == r[x]);
            }
        }
        lemma_skip_hints_const(s, j, c);
        assert(s[j + 8] == r[8]);
        lemma_skip_ws_run(s, k, k);
    } else {
        lemma_skip_hints_none(s, j);
        lemma_skip_ws_run(s, j, j);
    }
}

/// The text of a value without nesting, at `j`, reads back as that value.
#[verifier::rlimit(100)]
pub proof fn lemma_scalar_at<F: Fn(u64) -> String, G: Fn(&str) -> u64>(
    v: Val,
    o: SerializeOptions,
    d: nat,
    f: F,
    g: G,
    s: Seq<char>,
    j: int,
)
    requires
        !(v is Array || v is Dict),
        reals_round_trip(v, f, g),
        0 <= j,
        holds_at(s, j, render(v, o, d, f)),
        value_boundary(s, j + render(v, o, d, f).len()),
    ensures
        parse_at(s, j, d as int, g) == Ok::<(Val, int), Fault>((v, j + render(v, o, d, f).len())),
{
    let r = render(v, o, d, f);
    lemma_render_start(v, o, d, f, g);
    let z: int = 0;
    assert(s[j + z] == r[z]);
    match v {
        Val::Integer(n) => {
            lemma_parse_integer(n, s, j, g);
        },
        Val::Real(b) => {
            lemma_real_at(b, o, d, f, g, s, j);
        },
        Val::Str(t) => {
            lemma_str_at(t, o, d, f, g, s, j);
        },
        Val::Octet(b) => {
            lemma_octet_at(b, o, d, f, g, s, j);
        },
        _ => {
            lemma_keyword_at(v, o, d, f, g, s, j);
        },
    }
}

#[verifier::rlimit(100)]
proof fn lemma_keyword_at<F: Fn(u64) -> String, G: Fn(&str) -> u64>(
    v: Val,
    o: SerializeOptions,
    d: nat,
    f: F,
    g: G,
    s: Seq<char>,
    j: int,
)
    requires
        v is Void || v is Null || v is Bool,
        0 <= j,
        holds_at(s, j, render(v, o, d, f)),
    ensures
        parse_at(s, j, d as int, g) == Ok::<(Val, int), Fault>((v, j + render(v, o, d, f).len())),
{
    let r = render(v, o, d, f);
    let z: int = 0;
    assert(s[j + z] == r[z]);
    match v {
        Val::Void => {
            lemma_not_starts(s, j, word_true(), 0);
            lemma_not_starts(s, j, word_false(), 0);
            lemma_not_starts(s, j, word_null(), 0);
            assert(s.subrange(j, j + 4) =~= word_void()) by {
                assert forall|x: int| 0 <= x < 4 implies #[trigger] s.subrange(j, j + 4)[x]
                    == word_void()[x] by {
                    assert(s[j + x] == r[x]);
                }
            }
        },
        Val::Null => {
            lemma_not_starts(s, j, word_true(), 0);
            lemma_not_starts(s, j, word_false(), 0);
            assert(s.subrange(j, j + 4) =~= word_null()) by {
                assert forall|x: int| 0 <= x < 4 implies #[trigger] s.subrange(j, j + 4)[x]
                    == word_null()[x] by {
                    assert(s[j + x] == r[x]);
                }
            }
        },
        Val::Bool(b) => {
            if b {
                assert(s.subrange(j, j + 4) =~= word_true()) by {
                    assert forall|x: int| 0 <= x < 4 implies #[trigger] s.subrange(j, j + 4)[x]
                        == word_true()[x] by {
                        assert(s[j + x] == r[x]);
                    }
                }
            } else {
                lemma_not_starts(s, j, word_true(), 0);
                assert(s.subrange(j, j + 5) =~= word_false()) by {
                    assert forall|x: int| 0 <= x < 5 implies #[trigger] s.subrange(j, j + 5)[x]
                        == word_false()[x] by {
                        assert(s[j + x] == r[x]);
                    }
                }
            }
        },
        _ => {},
    }
}

#[verifier::rlimit(100)]
proof fn lemma_str_at<F: Fn(u64) -> String, G: Fn(&str) -> u64>(
    t: Seq<char>,
    o: SerializeOptions,
    d: nat,
    f: F,
    g: G,
    s: Seq<char>,
    j: int,
)
    requires
        0 <= j,
        holds_at(s, j, render(Val::Str(t), o, d, f)),
    ensures
        parse_at(s, j, d as int, g) == Ok::<(Val, int), Fault>(
            (Val::Str(t), j + render(Val::Str(t), o, d, f).len()),
        ),
{
    let r = render(Val::Str(t), o, d, f);
    let z: int = 0;
    assert(s[j + z] == r[z]);
    assert(r == seq!['"'] + (escaped(t) + seq!['"']));
    lemma_holds_split(s, j, seq!['"'], escaped(t) + seq!['"']);
    lemma_parse_escaped(t, s, j + 1, Seq::empty());
    assert(Seq::<char>::empty() + t =~= t);
}

#[verifier::rlimit(100)]
proof fn lemma_octet_at<F: Fn(u64) -> String, G: Fn(&str) -> u64>(
    b: Seq<u8>,
    o: SerializeOptions,
    d: nat,
    f: F,
    g: G,
    s: Seq<char>,
    j: int,
)
    requires
        0 <= j,
        holds_at(s, j, render(Val::Octet(b), o, d, f)),
    ensures
        parse_at(s, j, d as int, g) == Ok::<(Val, int), Fault>(
            (Val::Octet(b), j + render(Val::Octet(b), o, d, f).len()),
        ),
{
    let r = render(Val::Octet(b), o, d, f);
    let z: int = 0;
    assert(s[j + z] == r[z]);
    assert(s[j + 1] == r[1]);
    assert(s.subrange(j, j + 2) =~= seq!['<', '%']);
    if b.len() == 0 {
        assert(s[j + 2] == r[2]);
        assert(s[j + 3] == r[3]);
        assert(s.subrange(j + 2, j + 4) =~= seq!['%', '>']);
        assert(b =~= Seq::<u8>::empty());
    } else {
        assert(s[j + 2] == r[2]);
        assert(r == seq!['<', '%', ' '] + (hex_join(b) + seq![' ', '%', '>']));
        lemma_holds_split(s, j, seq!['<', '%', ' '], hex_join(b) + seq![' ', '%', '>']);
        lemma_parse_hex_join(b, s, j + 3, Seq::empty());
        assert(Seq::<u8>::empty() + b =~= b);
        lemma_not_starts(s, j + 2, seq!['%', '>'], 0);
    }
}

#[verifier::rlimit(100)]
pub proof fn lemma_real_at<F: Fn(u64) -> String, G: Fn(&str) -> u64>(
    b: u64,
    o: SerializeOptions,
    d: nat,
    f: F,
    g: G,
    s: Seq<char>,
    j: int,
)
    requires
        real_round_trips(b, f, g),
        0 <= j,
        holds_at(s, j, real_text(f, b)),
        value_boundary(s, j + real_text(f, b).len()),
    ensures
        parse_at(s, j, d as int, g) == Ok::<(Val, int), Fault>((Val::Real(b), j + real_text(f, b).len())),
{
    let r = real_text(f, b);
    lemma_render_start(Val::Real(b), o, d, f, g);
    let z: int = 0;
    assert(s[j + z] == r[z]);
    if real_is_infinite(b) {
        lemma_infinity_bits(b);
        if real_is_negative(b) {
            let w = seq!['-'] + word_infinity();
            assert(r == w);
            assert(s.subrange(j, j + 9) =~= w) by {
                assert forall|x: int| 0 <= x < 9 implies #[trigger] s.subrange(j, j + 9)[x]
                    == w[x] by {
                    assert(s[j + x] == r[x]);
                }
            }
        } else {
            assert(r == word_infinity());
            lemma_not_starts(s, j, word_true(), 0);
            lemma_not_starts(s, j, word_false(), 0);
            lemma_not_starts(s, j, word_null(), 0);
            lemma_not_starts(s, j, word_void(), 0);
            lemma_not_starts(s, j, word_nan(), 0);
            assert(s.subrange(j, j + 8) =~= word_infinity()) by {
                assert forall|x: int| 0 <= x < 8 implies #[trigger] s.subrange(j, j + 8)[x]
                    == word_infinity()[x] by {
                    assert(s[j + x] == r[x]);
                }
            }
        }
    } else {
        lemma_parse_decimal_real(r, b, s, j, g);
    }
}

/// The text of `v`, standing at `j` after whitespace from `i`, reads back as `v`.
#[verifier::rlimit(100)]
pub proof fn lemma_parse_rendered<F: Fn(u64) -> String, G: Fn(&str) -> u64>(
    v: Val,
    o: SerializeOptions,
    d: nat,
    f: F,
    g: G,
    s: Seq<char>,
    i: int,
    j: int,
)
    requires
        well_formed(v),
        reals_round_trip(v, f, g),
        fits_depth(v, d as int),
        0 <= i <= j,
        forall|x: int| i <= x < j ==> white_space(#[trigger] s[x]),
        holds_at(s, j, render(v, o, d, f)),
        value_boundary(s, j + render(v, o, d, f).len()),
    ensures
        parse_value(s, i, d as int, g) == Ok::<(Val, int), Fault>((v, j + render(v, o, d, f).len())),
    decreases v, 1int,
{
    lemma_value_prefix(v, o, d, f, g, s, i, j);
    match v {
        Val::Array(items) => lemma_array_at(items, o, d, f, g, s, j),
        Val::Dict(es) => lemma_dict_at(es, o, d, f, g, s, j),
        _ => lemma_scalar_at(v, o, d, f, g, s, j),
    }
}

/// The text of an array at `j`, past its hint, reads back as the array.
#[verifier::rlimit(100)]
pub proof fn lemma_array_at<F: Fn(u64) -> String, G: Fn(&str) -> u64>(
    items: Seq<Val>,
    o: SerializeOptions,
    d: nat,
    f: F,
    g: G,
    s: Seq<char>,
    j: int,
)
    requires
        well_formed(Val::Array(items)),
        reals_round_trip(Val::Array(items), f, g),
        fits_depth(Val::Array(items), d as int),
        0 <= j,
        holds_at(s, j, render(Val::Array(items), o, d, f)),
        value_boundary(s, j + render(Val::Array(items), o, d, f).len()),
    ensures
        parse_at(s, j + hint_len(Val::Array(items), o), d as int, g) == Ok::<(Val, int), Fault>(
            (Val::Array(items), j + render(Val::Array(items), o, d, f).len()),
        ),
    decreases items, items.len() + 2,
{
    let v = Val::Array(items);
    let r = render(v, o, d, f);
    let z: int = 0;
    let body = if items.len() == 0 {
        Seq::<char>::empty()
    } else {
        open_body(o) + items_join(items, o, d, f) + close_body(o, d)
    };
    assert(r == hint(o) + seq!['['] + body + seq![']']);
    let h = hint(o).len() as int;
    let k = j + h;
    assert(h == hint_len(v, o));
    assert(s[j + h] == r[h]);
    assert(r[h] == '[');
    lemma_holds_split(s, j, hint(o) + seq!['['], body + seq![']']);
    if items.len() == 0 {
        assert(items =~= Seq::<Val>::empty());
        assert(s[k + 1 + z] == (body + seq![']'])[z]);
        lemma_skip_ws_run(s, k + 1, k + 1);
    } else {
        lemma_ws_lead(o, d);
        assert(items.subrange(0, items.len() as int) =~= items);
        assert(body + seq![']'] =~= open_body(o) + items_join(
            items.subrange(0, items.len() as int),
            o,
            d,
            f,
        ) + close_body(o, d) + seq![']']);
        lemma_items_tail(items, o, d, f, g, s, 0, k + 1, open_body(o));
        assert(items.subrange(0, 0) =~= Seq::<Val>::empty());
    }
}

/// The text of a dictionary at `j`, past its hint, reads back as the dictionary.
#[verifier::rlimit(100)]
pub proof fn lemma_dict_at<F: Fn(u64) -> String, G: Fn(&str) -> u64>(
    es: Seq<(Seq<char>, Val)>,
    o: SerializeOptions,
    d: nat,
    f: F,
    g: G,
    s: Seq<char>,
    j: int,
)
    requires
        well_formed(Val::Dict(es)),
        reals_round_trip(Val::Dict(es), f, g),
        fits_depth(Val::Dict(es), d as int),
        0 <= j,
        holds_at(s, j, render(Val::Dict(es), o, d, f)),
        value_boundary(s, j + render(Val::Dict(es), o, d, f).len()),
    ensures
        parse_at(s, j + hint_len(Val::Dict(es), o), d as int, g) == Ok::<(Val, int), Fault>(
            (Val::Dict(es), j + render(Val::Dict(es), o, d, f).len()),
        ),
    decreases es, es.len() + 2,
{
    let v = Val::Dict(es);
    let r = render(v, o, d, f);
    let z: int = 0;
    let body = if es.len() == 0 {
        Seq::<char>::empty()
    } else {
        open_body(o) + entries_join(es, o, d, f) + close_body(o, d)
    };
    assert(r == hint(o) + seq!['%', '['] + body + seq![']']);
    let h = hint(o).len() as int;
    let k = j + h;
    assert(h == hint_len(v, o));
    assert(s[j + h] == r[h]);
    assert(s[j + (h + 1)] == r[h + 1]);
    assert(r[h] == '%' && r[h + 1] == '[');
    lemma_skip_ws_run(s, k + 1, k + 1);
    lemma_holds_split(s, j, hint(o) + seq!['%', '['], body + seq![']']);
    if es.len() == 0 {
        assert(es =~= Seq::<(Seq<char>, Val)>::empty());
        assert(s[k + 2 + z] == (body + seq![']'])[z]);
        lemma_skip_ws_run(s, k + 2, k + 2);
    } else {
        lemma_ws_lead(o, d);
        assert(es.subrange(0, es.len() as int) =~= es);
        assert(body + seq![']'] =~= open_body(o) + entries_join(
            es.subrange(0, es.len() as int),
            o,
            d,
            f,
        ) + close_body(o, d) + seq![']']);
        lemma_entries_tail(es, o, d, f, g, s, 0, k + 2, open_body(o));
        assert(es.subrange(0, 0) =~= Seq::<(Seq<char>, Val)>::empty());
    }
}

/// The elements of an array from the `k`-th on, preceded by whitespace `w`
/// and followed by the closing of the body, read back.
#[verifier::rlimit(100)]
pub proof fn lemma_items_tail<F: Fn(u64) -> String, G: Fn(&str) -> u64>(
    items: Seq<Val>,
    o: SerializeOptions,
    d: nat,
    f: F,
    g: G,
    s: Seq<char>,
    k: int,
    q: int,
    w: Seq<char>,
)
    requires
        0 <= k < items.len(),
        forall|x: int| 0 <= x < items.len() ==> well_formed(#[trigger] items[x]),
        forall|x: int| 0 <= x < items.len() ==> reals_round_trip(#[trigger] items[x], f, g),
        forall|x: int| 0 <= x < items.len() ==> fits_depth(#[trigger] items[x], d + 1 as int),
        d < MAX_DEPTH,
        forall|x: int| 0 <= x < w.len() ==> white_space(#[trigger] w[x]),
        0 <= q,
        holds_at(
            s,
            q,
            w + items_join(items.subrange(k, items.len() as int), o, d, f) + close_body(o, d)
                + seq![']'],
        ),
    ensures
        parse_items(s, q, items.subrange(0, k), (d + 1) as int, g) == Ok::<(Val, int), Fault>(
            (
                Val::Array(items),
                q + w.len() + items_join(items.subrange(k, items.len() as int), o, d, f).len()
                    + close_body(o, d).len() + 1,
            ),
        ),
    decreases items, items.len() - k + 1,
{
    let n = items.len() as int;
    let sub = items.subrange(k, n);
    let x = items[k];
    let rx = render(x, o, d + 1, f);
    let ld = lead(o, d + 1);
    lemma_ws_lead(o, d);
    lemma_ws_lead(o, d + 1);
    let rest = if sub.len() == 1 {
        close_body(o, d) + seq![']']
    } else {
        sep(o) + items_join(items.subrange(k + 1, n), o, d, f) + close_body(o, d) + seq![']']
    };
    if sub.len() == 1 {
        assert(sub[0] == x);
        assert(items_join(sub, o, d, f) == ld + rx);
    } else {
        lemma_items_join_front(sub, o, d, f);
        assert(sub.drop_first() =~= items.subrange(k + 1, n));
        assert(sub[0] == x);
    }
    let whole = w + items_join(sub, o, d, f) + close_body(o, d) + seq![']'];
    assert(whole =~= (w + ld) + (rx + rest));
    lemma_holds_split(s, q, w + ld, rx + rest);
    lemma_holds_split(s, q + (w + ld).len(), rx, rest);
    let j = q + w.len() + ld.len();
    let e = j + rx.len();
    assert forall|y: int| q <= y < j implies white_space(#[trigger] s[y]) by {
        assert(s[q + (y - q)] == (w + ld)[y - q]);
    }
    lemma_render_start(x, o, d + 1, f, g);
    let z: int = 0;
    assert(s[j + z] == rx[z]);
    lemma_skip_ws_run(s, q, j);
    assert(s[e + z] == rest[z]);
    assert(value_boundary(s, e));
    lemma_parse_rendered(x, o, d + 1, f, g, s, j, j);
    assert(items.subrange(0, k).push(x) =~= items.subrange(0, k + 1));
    if sub.len() == 1 {
        assert(k + 1 == n);
        assert(items.subrange(0, k + 1) =~= items);
        let c = close_body(o, d);
        assert forall|y: int| e <= y < e + c.len() implies white_space(#[trigger] s[y]) by {
            assert(s[e + (y - e)] == rest[y - e]);
        }
        assert(s[e + c.len()] == rest[c.len() as int]);
        lemma_skip_ws_run(s, e, e + c.len());
    } else {
        lemma_skip_ws_run(s, e, e);
        let w2 = sep(o).drop_first();
        assert(rest =~= seq![','] + (w2 + items_join(items.subrange(k + 1, n), o, d, f) + close_body(o, d) + seq![']']));
        lemma_holds_split(s, e, seq![','], w2 + items_join(items.subrange(k + 1, n), o, d, f) + close_body(o, d) + seq![']']);
        lemma_items_tail(items, o, d, f, g, s, k + 1, e + 1, w2);
    }
}

/// The entries of a dictionary from the `k`-th on, preceded by whitespace `w`
/// and followed by the closing of the body, read back.
#[verifier::rlimit(100)]
pub proof fn lemma_entries_tail<F: Fn(u64) -> String, G: Fn(&str) -> u64>(
    es: Seq<(Seq<char>, Val)>,
    o: SerializeOptions,
    d: nat,
    f: F,
    g: G,
    s: Seq<char>,
    k: int,
    q: int,
    w: Seq<char>,
)
    requires
        0 <= k < es.len(),
        forall|a: int, b: int| 0 <= a < b < es.len() ==> #[trigger] es[a].0 != #[trigger] es[b].0,
        forall|x: int| 0 <= x < es.len() ==> well_formed(#[trigger] es[x].1),
        forall|x: int| 0 <= x < es.len() ==> reals_round_trip(#[trigger] es[x].1, f, g),
        forall|x: int| 0 <= x < es.len() ==> fits_depth(#[trigger] es[x].1, d + 1 as int),
        d < MAX_DEPTH,
        forall|x: int| 0 <= x < w.len() ==> white_space(#[trigger] w[x]),
        0 <= q,
        holds_at(
            s,
            q,
            w + entries_join(es.subrange(k, es.len() as int), o, d, f) + close_body(o, d)
                + seq![']'],
        ),
    ensures
        parse_entries(s, q, es.subrange(0, k), (d + 1) as int, g) == Ok::<(Val, int), Fault>(
            (
                Val::Dict(es),
                q + w.len() + entries_join(es.subrange(k, es.len() as int), o, d, f).len()
                    + close_body(o, d).len() + 1,
            ),
        ),
    decreases es, es.len() - k + 1,
{
    let n = es.len() as int;
    let sub = es.subrange(k, n);
    let key = es[k].0;
    let x = es[k].1;
    let rx = render(x, o, d + 1, f);
    let ld = lead(o, d + 1);
    let qk = quoted(key);
    lemma_ws_lead(o, d);
    lemma_ws_lead(o, d + 1);
    let rest = if sub.len() == 1 {
        close_body(o, d) + seq![']']
    } else {
        sep(o) + entries_join(es.subrange(k + 1, n), o, d, f) + close_body(o, d) + seq![']']
    };
    if sub.len() == 1 {
        assert(sub[0] == es[k]);
        assert(entries_join(sub, o, d, f) == ld + qk + arrow() + rx);
    } else {
        lemma_entries_join_front(sub, o, d, f);
        assert(sub.drop_first() =~= es.subrange(k + 1, n));
        assert(sub[0] == es[k]);
    }
    let whole = w + entries_join(sub, o, d, f) + close_body(o, d) + seq![']'];
    assert(whole =~= (w + ld) + (qk + (arrow() + (rx + rest))));
    lemma_holds_split(s, q, w + ld, qk + (arrow() + (rx + rest)));
    let p = q + w.len() + ld.len();
    lemma_holds_split(s, p, qk, arrow() + (rx + rest));
    let a = p + qk.len();
    lemma_holds_split(s, a, arrow(), rx + rest);
    let j = a + 4;
    lemma_holds_split(s, j, rx, rest);
    let e = j + rx.len();
    assert forall|y: int| q <= y < p implies white_space(#[trigger] s[y]) by {
        assert(s[q + (y - q)] == (w + ld)[y - q]);
    }
    let z: int = 0;
    assert(s[p + z] == qk[z]);
    lemma_skip_ws_run(s, q, p);
    // the key
    assert(qk == seq!['"'] + (escaped(key) + seq!['"']));
    lemma_holds_split(s, p, seq!['"'], escaped(key) + seq!['"']);
    lemma_parse_escaped(key, s, p + 1, Seq::empty());
    assert(Seq::<char>::empty() + key =~= key);
    // the arrow
    assert(s[a + z] == arrow()[z]);
    assert(s[a + 1] == arrow()[1]);
    assert(s[a + 2] == arrow()[2]);
    assert(s[a + 3] == arrow()[3]);
    lemma_skip_ws_run(s, a, a + 1);
    assert(s.subrange(a + 1, a + 3) =~= seq!['=', '>']);
    // the value
    lemma_render_start(x, o, d + 1, f, g);
    assert(s[e + z] == rest[z]);
    assert(value_boundary(s, e));
    assert(forall|y: int| a + 3 <= y < j ==> white_space(#[trigger] s[y]));
    lemma_parse_rendered(x, o, d + 1, f, g, s, a + 3, j);
    // the insertion
    let acc = es.subrange(0, k);
    lemma_find_key(acc, key);
    assert(forall|y: int| 0 <= y < acc.len() ==> #[trigger] acc[y] == es[y]);
    if find_key(acc, key) >= 0 {
        let y = find_key(acc, key);
        assert(acc[y].0 == key);
        assert(es[y].0 != es[k].0);
    }
    assert(entries_insert(acc, key, x) =~= es.subrange(0, k + 1));
    if sub.len() == 1 {
        assert(k + 1 == n);
        assert(es.subrange(0, k + 1) =~= es);
        let c = close_body(o, d);
        assert forall|y: int| e <= y < e + c.len() implies white_space(#[trigger] s[y]) by {
            assert(s[e + (y - e)] == rest[y - e]);
        }
        assert(s[e + c.len()] == rest[c.len() as int]);
        lemma_skip_ws_run(s, e, e + c.len());
    } else {
        lemma_skip_ws_run(s, e, e);
        let w2 = sep(o).drop_first();
        assert(rest =~= seq![','] + (w2 + entries_join(es.subrange(k + 1, n), o, d, f) + close_body(o, d) + seq![']']));
        lemma_holds_split(s, e, seq![','], w2 + entries_join(es.subrange(k + 1, n), o, d, f) + close_body(o, d) + seq![']']);
        lemma_entries_tail(es, o, d, f, g, s, k + 1, e + 1, w2);
    }
}

/// Printing a well-formed value whose reals round-trip, and parsing the text,
/// gives back the value: in compact and indented form, with or without hints.
pub proof fn lemma_round_trip<F: Fn(u64) -> String, G: Fn(&str) -> u64>(
    v: Val,
    o: SerializeOptions,
    f: F,
    g: G,
)
    requires
        well_formed(v),
        reals_round_trip(v, f, g),
        fits_depth(v, 0),
    ensures
        parse_text(render(v, o, 0, f), g) == Ok::<Val, Fault>(v),
{
    let s = render(v, o, 0, f);
    lemma_render_start(v, o, 0, f, g);
    assert(holds_at(s, 0, s)) by {
        assert forall|x: int| 0 <= x < s.len() implies #[trigger] s[0 + x] == s[x] by {}
    }
    lemma_skip_ws_run(s, 0, 0);
    lemma_parse_rendered(v, o, 0, f, g, s, 0, 0);
    lemma_skip_ws_run(s, s.len() as int, s.len() as int);
}

/// A variant without payload is written as its bare name and read back from
/// it; a variant with a payload (one value, an array of positional fields or a
/// dictionary of named fields) is written as a one-entry dictionary and read
/// back from it; a dictionary without entries is no variant.
pub proof fn lemma_enum_forms(name: Seq<char>, payload: Val)
    ensures
        enum_parts(variant_value(name, None)) == Ok::<(Seq<char>, Option<Val>), Seq<char>>(
            (name, None),
        ),
        enum_parts(variant_value(name, Some(payload))) == Ok::<
            (Seq<char>, Option<Val>),
            Seq<char>,
        >((name, Some(payload))),
        enum_parts(Val::Dict(Seq::empty())) is Err,
{
}

/// A value read from any text, printed again and read back, is the same value,
/// provided its reals round-trip.
pub proof fn lemma_reparse<F: Fn(u64) -> String, G: Fn(&str) -> u64>(
    t: Seq<char>,
    o: SerializeOptions,
    f: F,
    g: G,
)
    requires
        parse_text(t, g) matches Ok(v) ==> reals_round_trip(v, f, g),
    ensures
        parse_text(t, g) matches Ok(v) ==> parse_text(render(v, o, 0, f), g) == Ok::<
            Val,
            Fault,
        >(v),
{
    lemma_text_well_formed(t, g);
    if let Ok(v) = parse_text(t, g) {
        lemma_round_trip(v, o, f, g);
    }
}

} // verus!
