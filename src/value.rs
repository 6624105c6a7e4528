//! The value model and its rendering to text.
use vstd::prelude::*;

use crate::parser::MAX_DEPTH;

use crate::text::{
    chars_of, hex2, int_text, push_char, push_hex2, push_int, push_str, spaces,
};

verus! {

broadcast use vstd::std_specs::vec::group_vec_axioms, vstd::seq::group_seq_axioms;

/// A TJS2 value: a tree of scalars, arrays and ordered dictionaries.
///
/// A real number is held as its IEEE-754 binary64 bit pattern. A dictionary is
/// a sequence of entries in insertion order; its keys are distinct.
#[derive(Debug, PartialEq)]
pub enum Value {
    Void,
    Null,
    Bool(bool),
    Integer(i64),
    Real(u64),
    String(String),
    Octet(Vec<u8>),
    Array(Vec<Value>),
    Dictionary(Vec<(String, Value)>),
}

impl From<bool> for Value {
    fn from(v: bool) -> Value {
        Value::Bool(v)
    }
}

impl vstd::std_specs::convert::FromSpecImpl<bool> for Value {
    open spec fn obeys_from_spec() -> bool {
        true
    }

    open spec fn from_spec(v: bool) -> Value {
        Value::Bool(v)
    }
}

impl From<i64> for Value {
    fn from(v: i64) -> Value {
        Value::Integer(v)
    }
}

impl vstd::std_specs::convert::FromSpecImpl<i64> for Value {
    open spec fn obeys_from_spec() -> bool {
        true
    }

    open spec fn from_spec(v: i64) -> Value {
        Value::Integer(v)
    }
}

impl From<String> for Value {
    fn from(v: String) -> Value {
        Value::String(v)
    }
}

impl vstd::std_specs::convert::FromSpecImpl<String> for Value {
    open spec fn obeys_from_spec() -> bool {
        true
    }

    open spec fn from_spec(v: String) -> Value {
        Value::String(v)
    }
}

impl From<Vec<Value>> for Value {
    fn from(v: Vec<Value>) -> Value {
        Value::Array(v)
    }
}

impl vstd::std_specs::convert::FromSpecImpl<Vec<Value>> for Value {
    open spec fn obeys_from_spec() -> bool {
        true
    }

    open spec fn from_spec(v: Vec<Value>) -> Value {
        Value::Array(v)
    }
}

/// The mathematical content of a [`Value`].
pub enum Val {
    Void,
    Null,
    Bool(bool),
    Integer(i64),
    Real(u64),
    Str(Seq<char>),
    Octet(Seq<u8>),
    Array(Seq<Val>),
    Dict(Seq<(Seq<char>, Val)>),
}

pub open spec fn value_view(v: Value) -> Val
    decreases v,
{
    match v {
        Value::Void => Val::Void,
        Value::Null => Val::Null,
        Value::Bool(b) => Val::Bool(b),
        Value::Integer(i) => Val::Integer(i),
        Value::Real(r) => Val::Real(r),
        Value::String(s) => Val::Str(s@),
        Value::Octet(b) => Val::Octet(b@),
        Value::Array(items) => Val::Array(items_view(items@)),
        Value::Dictionary(entries) => Val::Dict(entries_view(entries@)),
    }
}

pub open spec fn items_view(s: Seq<Value>) -> Seq<Val>
    decreases s,
{
    if s.len() == 0 {
        Seq::empty()
    } else {
        items_view(s.subrange(0, s.len() - 1)).push(value_view(s[s.len() - 1]))
    }
}

pub open spec fn entries_view(s: Seq<(String, Value)>) -> Seq<(Seq<char>, Val)>
    decreases s,
{
    if s.len() == 0 {
        Seq::empty()
    } else {
        entries_view(s.subrange(0, s.len() - 1)).push(
            (s[s.len() - 1].0@, value_view(s[s.len() - 1].1)),
        )
    }
}

/// The keys of the entries are distinct.
pub open spec fn keys_distinct(es: Seq<(Seq<char>, Val)>) -> bool {
    forall|a: int, b: int| 0 <= a < b < es.len() ==> #[trigger] es[a].0 != #[trigger] es[b].0
}

/// The invariant of a value: the keys of every dictionary in it are distinct.
pub open spec fn well_formed(v: Val) -> bool
    decreases v,
{
    match v {
        Val::Array(items) => forall|k: int| 0 <= k < items.len() ==> well_formed(#[trigger] items[k]),
        Val::Dict(es) => keys_distinct(es) && forall|k: int|
            0 <= k < es.len() ==> well_formed(#[trigger] es[k].1),
        _ => true,
    }
}

/// The arrays and dictionaries of `v`, standing at nesting depth `d`, nest
/// no deeper than the parser accepts.
pub open spec fn fits_depth(v: Val, d: int) -> bool
    decreases v,
{
    match v {
        Val::Array(items) => d < MAX_DEPTH && forall|k: int|
            0 <= k < items.len() ==> fits_depth(#[trigger] items[k], d + 1),
        Val::Dict(es) => d < MAX_DEPTH && forall|k: int|
            0 <= k < es.len() ==> fits_depth(#[trigger] es[k].1, d + 1),
        _ => true,
    }
}

impl View for Value {
    type V = Val;

    open spec fn view(&self) -> Val {
        value_view(*self)
    }
}

/// Options for printing a [`Value`].
#[derive(Clone, Copy, Debug)]
pub struct SerializeOptions {
    /// Emit `(const) ` before every array and dictionary.
    pub const_hint: bool,
    /// `None`: one line with `, ` separators; `Some(w)`: one element per line,
    /// indented by `w` spaces per level of nesting.
    pub indent: Option<usize>,
}

impl Default for SerializeOptions {
    fn default() -> (r: SerializeOptions)
        ensures
            r.const_hint,
            r.indent is None,
    {
        SerializeOptions { const_hint: true, indent: None }
    }
}

/// The options of pretty printing: the default ones, with an indent of two.
pub fn pretty_options() -> (r: SerializeOptions)
    ensures
        r.const_hint,
        r.indent == Some(2usize),
{
    SerializeOptions { const_hint: true, indent: Some(2) }
}

// ----- IEEE-754 binary64 bit patterns -----

pub open spec fn real_exponent(b: u64) -> int {
    (b as int / 0x10000000000000) % 2048
}

pub open spec fn real_mantissa(b: u64) -> int {
    b as int % 0x10000000000000
}

pub open spec fn real_is_nan(b: u64) -> bool {
    real_exponent(b) == 2047 && real_mantissa(b) != 0
}

pub open spec fn real_is_infinite(b: u64) -> bool {
    real_exponent(b) == 2047 && real_mantissa(b) == 0
}

pub open spec fn real_is_negative(b: u64) -> bool {
    b >= 0x8000000000000000
}

/// The lowest `k` bits of `m` are zero.
pub open spec fn low_bits_zero(m: int, k: nat) -> bool
    decreases k,
{
    k == 0 || (m % 2 == 0 && low_bits_zero(m / 2, (k - 1) as nat))
}

/// A finite bit pattern whose value has no fractional part.
pub open spec fn real_is_integral(b: u64) -> bool {
    let e = real_exponent(b);
    let m = real_mantissa(b);
    if e == 0 {
        m == 0
    } else if e >= 1075 {
        true
    } else if e < 1023 {
        false
    } else {
        low_bits_zero(m, (1075 - e) as nat)
    }
}

/// `f` turns any bit pattern into text, the same text each time.
pub open spec fn formats_reals<F: Fn(u64) -> String>(f: F) -> bool {
    &&& forall|b: u64| f.requires((b,))
    &&& forall|b: u64, s1: String, s2: String|
        #![trigger f.ensures((b,), s1), f.ensures((b,), s2)]
        f.ensures((b,), s1) && f.ensures((b,), s2) ==> s1@ == s2@
}

/// The text that `f` gives for `b`.
pub open spec fn finite_text<F: Fn(u64) -> String>(f: F, b: u64) -> Seq<char> {
    (choose|s: String| f.ensures((b,), s))@
}

/// The rendering of a real: `NaN`, `Infinity`, `-Infinity`, or the text of a
/// finite number with `.0` appended when it has no fractional part.
pub open spec fn real_text<F: Fn(u64) -> String>(f: F, b: u64) -> Seq<char> {
    if real_is_nan(b) {
        seq!['N', 'a', 'N']
    } else if real_is_infinite(b) {
        if real_is_negative(b) {
            seq!['-', 'I', 'n', 'f', 'i', 'n', 'i', 't', 'y']
        } else {
            seq!['I', 'n', 'f', 'i', 'n', 'i', 't', 'y']
        }
    } else if real_is_integral(b) {
        finite_text(f, b) + seq!['.', '0']
    } else {
        finite_text(f, b)
    }
}

// ----- strings and octets -----

/// A control character: general category Cc.
pub open spec fn is_control(c: char) -> bool {
    (c as u32) <= 0x1f || (0x7f <= (c as u32) && (c as u32) <= 0x9f)
}

/// The escaped form of one character inside a quoted string. Every control
/// character lies below 0x100, so it takes the two-digit `\x` form.
pub open spec fn escape_char(c: char) -> Seq<char> {
    if c == '\\' {
        seq!['\\', '\\']
    } else if c == '"' {
        seq!['\\', '"']
    } else if c == '\n' {
        seq!['\\', 'n']
    } else if c == '\r' {
        seq!['\\', 'r']
    } else if c == '\t' {
        seq!['\\', 't']
    } else if c == '\x08' {
        seq!['\\', 'b']
    } else if c == '\x0c' {
        seq!['\\', 'f']
    } else if is_control(c) {
        seq!['\\', 'x'] + hex2((c as u32) as u8)
    } else {
        seq![c]
    }
}

pub open spec fn escaped(s: Seq<char>) -> Seq<char>
    decreases s.len(),
{
    if s.len() == 0 {
        Seq::empty()
    } else {
        escaped(s.subrange(0, s.len() - 1)) + escape_char(s[s.len() - 1])
    }
}

/// A string literal in double quotes.
pub open spec fn quoted(s: Seq<char>) -> Seq<char> {
    seq!['"'] + escaped(s) + seq!['"']
}

/// Hexadecimal byte pairs separated by single spaces.
pub open spec fn hex_join(b: Seq<u8>) -> Seq<char>
    decreases b.len(),
{
    if b.len() == 0 {
        Seq::empty()
    } else if b.len() == 1 {
        hex2(b[0])
    } else {
        hex_join(b.subrange(0, b.len() - 1)) + seq![' '] + hex2(b[b.len() - 1])
    }
}

/// An octet literal: `<%%>` when empty, else `<% ` + pairs + ` %>`.
pub open spec fn octet_text(b: Seq<u8>) -> Seq<char> {
    if b.len() == 0 {
        seq!['<', '%', '%', '>']
    } else {
        seq!['<', '%', ' '] + hex_join(b) + seq![' ', '%', '>']
    }
}

// ----- arrays and dictionaries -----

pub open spec fn const_prefix() -> Seq<char> {
    seq!['(', 'c', 'o', 'n', 's', 't', ')', ' ']
}

pub open spec fn hint(o: SerializeOptions) -> Seq<char> {
    if o.const_hint {
        const_prefix()
    } else {
        Seq::empty()
    }
}

/// Spaces per level of nesting: none in compact mode.
pub open spec fn width(o: SerializeOptions) -> nat {
    match o.indent {
        Some(w) => w as nat,
        None => 0,
    }
}

/// What stands before each element at nesting depth `d`.
pub open spec fn lead(o: SerializeOptions, d: nat) -> Seq<char> {
    spaces(width(o) * d)
}

/// What stands between two elements.
pub open spec fn sep(o: SerializeOptions) -> Seq<char> {
    match o.indent {
        Some(_) => seq![',', '\n'],
        None => seq![',', ' '],
    }
}

/// What encloses a non-empty body at depth `d`: nothing in compact mode, else
/// a newline before, and a newline and the parent's indentation after.
pub open spec fn open_body(o: SerializeOptions) -> Seq<char> {
    match o.indent {
        Some(_) => seq!['\n'],
        None => Seq::empty(),
    }
}

pub open spec fn close_body(o: SerializeOptions, d: nat) -> Seq<char> {
    match o.indent {
        Some(_) => seq!['\n'] + lead(o, d),
        None => Seq::empty(),
    }
}

pub open spec fn arrow() -> Seq<char> {
    seq![' ', '=', '>', ' ']
}

/// The text of `v` at nesting depth `d`.
pub open spec fn render<F: Fn(u64) -> String>(v: Val, o: SerializeOptions, d: nat, f: F) -> Seq<
    char,
>
    decreases v,
{
    match v {
        Val::Void => seq!['v', 'o', 'i', 'd'],
        Val::Null => seq!['n', 'u', 'l', 'l'],
        Val::Bool(b) => if b {
            seq!['t', 'r', 'u', 'e']
        } else {
            seq!['f', 'a', 'l', 's', 'e']
        },
        Val::Integer(i) => int_text(i as int),
        Val::Real(b) => real_text(f, b),
        Val::Str(s) => quoted(s),
        Val::Octet(b) => octet_text(b),
        Val::Array(items) => hint(o) + seq!['['] + (if items.len() == 0 {
            Seq::empty()
        } else {
            open_body(o) + items_join(items, o, d, f) + close_body(o, d)
        }) + seq![']'],
        Val::Dict(es) => hint(o) + seq!['%', '['] + (if es.len() == 0 {
            Seq::empty()
        } else {
            open_body(o) + entries_join(es, o, d, f) + close_body(o, d)
        }) + seq![']'],
    }
}

/// The elements of an array at depth `d`, each led by its indentation.
pub open spec fn items_join<F: Fn(u64) -> String>(
    items: Seq<Val>,
    o: SerializeOptions,
    d: nat,
    f: F,
) -> Seq<char>
    decreases items,
{
    if items.len() == 0 {
        Seq::empty()
    } else {
        let piece = lead(o, d + 1) + render(items[items.len() - 1], o, d + 1, f);
        if items.len() == 1 {
            piece
        } else {
            items_join(items.subrange(0, items.len() - 1), o, d, f) + sep(o) + piece
        }
    }
}

/// The entries of a dictionary at depth `d`, each as `"key" => value`.
pub open spec fn entries_join<F: Fn(u64) -> String>(
    es: Seq<(Seq<char>, Val)>,
    o: SerializeOptions,
    d: nat,
    f: F,
) -> Seq<char>
    decreases es,
{
    if es.len() == 0 {
        Seq::empty()
    } else {
        let e = es[es.len() - 1];
        let piece = lead(o, d + 1) + quoted(e.0) + arrow() + render(e.1, o, d + 1, f);
        if es.len() == 1 {
            piece
        } else {
            entries_join(es.subrange(0, es.len() - 1), o, d, f) + sep(o) + piece
        }
    }
}

// ----- printing -----

pub proof fn lemma_items_view(s: Seq<Value>)
    ensures
        items_view(s).len() == s.len(),
        forall|i: int| 0 <= i < s.len() ==> #[trigger] items_view(s)[i] == value_view(s[i]),
    decreases s.len(),
{
    if s.len() > 0 {
        lemma_items_view(s.subrange(0, s.len() - 1));
    }
}

pub proof fn lemma_entries_view(s: Seq<(String, Value)>)
    ensures
        entries_view(s).len() == s.len(),
        forall|i: int|
            0 <= i < s.len() ==> #[trigger] entries_view(s)[i] == (s[i].0@, value_view(s[i].1)),
    decreases s.len(),
{
    if s.len() > 0 {
        lemma_entries_view(s.subrange(0, s.len() - 1));
    }
}

fn write_real<F: Fn(u64) -> String>(out: &mut String, b: u64, f: &F)
    requires
        formats_reals(*f),
    ensures
        final(out)@ == old(out)@ + real_text(*f, b),
{
    let e = (b / 0x10000000000000) % 2048;
    let m = b % 0x10000000000000;
    if e == 2047 {
        if m != 0 {
            proof { reveal_strlit("NaN"); }
            push_str(out, "NaN");
        } else if b >= 0x8000000000000000 {
            proof { reveal_strlit("-Infinity"); }
            push_str(out, "-Infinity");
        } else {
            proof { reveal_strlit("Infinity"); }
            push_str(out, "Infinity");
        }
    } else {
        let s = f(b);
        proof {
            let c = choose|c: String| f.ensures((b,), c);
            assert(c@ == s@);
        }
        push_str(out, s.as_str());
        if is_integral(b) {
            proof { reveal_strlit(".0"); }
            push_str(out, ".0");
        }
    }
}

fn is_integral(b: u64) -> (r: bool)
    requires
        real_exponent(b) != 2047,
    ensures
        r == real_is_integral(b),
{
    let e = (b / 0x10000000000000) % 2048;
    let m = b % 0x10000000000000;
    if e == 0 {
        m == 0
    } else if e >= 1075 {
        true
    } else if e < 1023 {
        false
    } else {
        let mut k = 1075 - e;
        let mut x = m;
        assert(real_is_integral(b) == low_bits_zero(m as int, (1075 - e) as nat));
        while k > 0
            invariant
                real_is_integral(b) == low_bits_zero(m as int, (1075 - e) as nat),
                low_bits_zero(m as int, (1075 - e) as nat) == low_bits_zero(x as int, k as nat),
            decreases k,
        {
            if x % 2 != 0 {
                assert(!low_bits_zero(x as int, k as nat));
                return false;
            }
            x = x / 2;
            k = k - 1;
        }
        true
    }
}

/// Appends a string literal in double quotes with its escapes.
fn write_string(out: &mut String, text: &str)
    ensures
        final(out)@ == old(out)@ + quoted(text@),
{
    let chars = chars_of(text);
    push_char(out, '"');
    let ghost start = out@;
    let mut i: usize = 0;
    while i < chars.len()
        invariant
            chars@ == text@,
            i <= chars@.len(),
            out@ == start + escaped(chars@.subrange(0, i as int)),
        decreases chars@.len() - i,
    {
        let c = chars[i];
        proof { reveal_strlit("\\\\"); reveal_strlit("\\\""); reveal_strlit("\\n"); reveal_strlit("\\r"); reveal_strlit("\\t"); reveal_strlit("\\b"); reveal_strlit("\\f"); reveal_strlit("\\x"); }
        if c == '\\' {
            push_str(out, "\\\\");
        } else if c == '"' {
            push_str(out, "\\\"");
        } else if c == '\n' {
            push_str(out, "\\n");
        } else if c == '\r' {
            push_str(out, "\\r");
        } else if c == '\t' {
            push_str(out, "\\t");
        } else if c == '\x08' {
            push_str(out, "\\b");
        } else if c == '\x0c' {
            push_str(out, "\\f");
        } else if (c as u32) <= 0x1f || (0x7f <= (c as u32) && (c as u32) <= 0x9f) {
            push_str(out, "\\x");
            push_hex2(out, (c as u32) as u8);
        } else {
            push_char(out, c);
        }
        assert(chars@.subrange(0, i + 1).subrange(0, i as int) =~= chars@.subrange(0, i as int));
        i = i + 1;
        assert(out@ =~= start + escaped(chars@.subrange(0, i as int)));
    }
    assert(chars@.subrange(0, i as int) =~= text@);
    push_char(out, '"');
    assert(final(out)@ =~= old(out)@ + quoted(text@));
}

/// Appends an octet literal.
fn write_octet(out: &mut String, bytes: &Vec<u8>)
    ensures
        final(out)@ == old(out)@ + octet_text(bytes@),
{
    if bytes.len() == 0 {
        proof { reveal_strlit("<%%>"); }
        push_str(out, "<%%>");
        return;
    }
    proof { reveal_strlit("<% "); reveal_strlit(" %>"); }
    push_str(out, "<% ");
    let ghost start = out@;
    let mut i: usize = 0;
    while i < bytes.len()
        invariant
            i <= bytes@.len(),
            out@ == start + hex_join(bytes@.subrange(0, i as int)),
        decreases bytes@.len() - i,
    {
        if i > 0 {
            push_char(out, ' ');
        }
        push_hex2(out, bytes[i]);
        assert(bytes@.subrange(0, i + 1).subrange(0, i as int) =~= bytes@.subrange(0, i as int));
        i = i + 1;
        assert(out@ =~= start + hex_join(bytes@.subrange(0, i as int)));
    }
    assert(bytes@.subrange(0, i as int) =~= bytes@);
    push_str(out, " %>");
    assert(final(out)@ =~= old(out)@ + octet_text(bytes@));
}

proof fn lemma_spaces_add(a: nat, b: nat)
    ensures
        spaces(a) + spaces(b) =~= spaces(a + b),
{
}

/// The indentation of the children of a node whose own indentation is `pad`.
fn child_pad(o: &SerializeOptions, pad: &String, Ghost(d): Ghost<nat>) -> (r: String)
    requires
        pad@ == lead(*o, d),
    ensures
        r@ == lead(*o, d + 1),
{
    let mut p = pad.clone();
    match o.indent {
        Some(w) => {
            crate::text::push_spaces(&mut p, w);
        },
        None => {},
    }
    proof {
        lemma_spaces_add(width(*o) * d, width(*o));
        assert(width(*o) * d + width(*o) == width(*o) * (d + 1)) by (nonlinear_arith);
    }
    p
}

/// Appends the text of `v`, nested `d` levels deep; `pad` is the indentation of that depth.
#[verifier::rlimit(40)]
fn write_value<F: Fn(u64) -> String>(
    out: &mut String,
    v: &Value,
    o: &SerializeOptions,
    pad: &String,
    Ghost(d): Ghost<nat>,
    f: &F,
)
    requires
        formats_reals(*f),
        pad@ == lead(*o, d),
    ensures
        final(out)@ == old(out)@ + render(v@, *o, d, *f),
    decreases v,
{
    match v {
        Value::Void => {
            proof { reveal_strlit("void"); }
            push_str(out, "void");
        },
        Value::Null => {
            proof { reveal_strlit("null"); }
            push_str(out, "null");
        },
        Value::Bool(b) => {
            if *b {
                proof { reveal_strlit("true"); }
                push_str(out, "true");
            } else {
                proof { reveal_strlit("false"); }
                push_str(out, "false");
            }
        },
        Value::Integer(i) => push_int(out, *i),
        Value::Real(b) => write_real(out, *b, f),
        Value::String(text) => write_string(out, text.as_str()),
        Value::Octet(bytes) => write_octet(out, bytes),
        Value::Array(items) => {
            let ghost s0 = out@;
            write_hint(out, o);
            push_char(out, '[');
            write_items(out, items, o, pad, Ghost(d), f);
            push_char(out, ']');
            proof {
                assert(v@ == Val::Array(items_view(items@)));
                let body = if items@.len() == 0 {
                    Seq::<char>::empty()
                } else {
                    open_body(*o) + items_join(items_view(items@), *o, d, *f) + close_body(*o, d)
                };
                lemma_items_view(items@);
                assert(render(v@, *o, d, *f) == hint(*o) + seq!['['] + body + seq![']']);
                assert(out@ =~= s0 + (hint(*o) + seq!['['] + body + seq![']']));
            }
        },
        Value::Dictionary(entries) => {
            let ghost s0 = out@;
            write_hint(out, o);
            proof { reveal_strlit("%["); }
            push_str(out, "%[");
            write_entries(out, entries, o, pad, Ghost(d), f);
            push_char(out, ']');
            proof {
                assert(v@ == Val::Dict(entries_view(entries@)));
                let body = if entries@.len() == 0 {
                    Seq::<char>::empty()
                } else {
                    open_body(*o) + entries_join(entries_view(entries@), *o, d, *f) + close_body(*o, d)
                };
                lemma_entries_view(entries@);
                assert(render(v@, *o, d, *f) == hint(*o) + seq!['%', '['] + body + seq![']']);
                assert(out@ =~= s0 + (hint(*o) + seq!['%', '['] + body + seq![']']));
            }
        },
    }
}

/// Appends the body of an array: its elements with their separators.
fn write_items<F: Fn(u64) -> String>(
    out: &mut String,
    items: &Vec<Value>,
    o: &SerializeOptions,
    pad: &String,
    Ghost(d): Ghost<nat>,
    f: &F,
)
    requires
        formats_reals(*f),
        pad@ == lead(*o, d),
    ensures
        final(out)@ == old(out)@ + (if items@.len() == 0 {
            Seq::empty()
        } else {
            open_body(*o) + items_join(items_view(items@), *o, d, *f) + close_body(*o, d)
        }),
    decreases items,
{
    proof { lemma_items_view(items@); }
    let ghost vs = items_view(items@);
    if items.len() == 0 {
        assert(final(out)@ =~= old(out)@ + Seq::<char>::empty());
        return;
    }
    let cp = child_pad(o, pad, Ghost(d));
    write_open(out, o);
    let ghost start = out@;
    let mut i: usize = 0;
    while i < items.len()
        invariant
            formats_reals(*f),
            vs == items_view(items@),
            vs.len() == items@.len(),
            forall|j: int| 0 <= j < items@.len() ==> #[trigger] vs[j] == value_view(items@[j]),
            cp@ == lead(*o, d + 1),
            i <= items@.len(),
            out@ == start + items_join(vs.subrange(0, i as int), *o, d, *f),
        decreases items@.len() - i,
    {
        if i > 0 {
            write_sep(out, o);
        }
        push_str(out, cp.as_str());
        proof {
            vstd::std_specs::vec::axiom_vec_index_decreases(*items, i as int);
        }
        write_value(out, &items[i], o, &cp, Ghost(d + 1), f);
        assert(vs.subrange(0, i + 1).subrange(0, i as int) =~= vs.subrange(0, i as int));
        i = i + 1;
        assert(out@ =~= start + items_join(vs.subrange(0, i as int), *o, d, *f));
    }
    assert(vs.subrange(0, i as int) =~= vs);
    write_close(out, o, pad, Ghost(d));
    assert(final(out)@ =~= old(out)@ + (open_body(*o) + items_join(vs, *o, d, *f) + close_body(*o, d)));
}

/// Appends the body of a dictionary: its entries with their separators.
fn write_entries<F: Fn(u64) -> String>(
    out: &mut String,
    entries: &Vec<(String, Value)>,
    o: &SerializeOptions,
    pad: &String,
    Ghost(d): Ghost<nat>,
    f: &F,
)
    requires
        formats_reals(*f),
        pad@ == lead(*o, d),
    ensures
        final(out)@ == old(out)@ + (if entries@.len() == 0 {
            Seq::empty()
        } else {
            open_body(*o) + entries_join(entries_view(entries@), *o, d, *f) + close_body(*o, d)
        }),
    decreases entries,
{
    proof { lemma_entries_view(entries@); }
    let ghost es = entries_view(entries@);
    if entries.len() == 0 {
        assert(final(out)@ =~= old(out)@ + Seq::<char>::empty());
        return;
    }
    let cp = child_pad(o, pad, Ghost(d));
    write_open(out, o);
    let ghost start = out@;
    let mut i: usize = 0;
    while i < entries.len()
        invariant
            formats_reals(*f),
            es == entries_view(entries@),
            es.len() == entries@.len(),
            forall|j: int|
                0 <= j < entries@.len() ==> #[trigger] es[j] == (
                    entries@[j].0@,
                    value_view(entries@[j].1),
                ),
            cp@ == lead(*o, d + 1),
            i <= entries@.len(),
            out@ == start + entries_join(es.subrange(0, i as int), *o, d, *f),
        decreases entries@.len() - i,
    {
        if i > 0 {
            write_sep(out, o);
        }
        push_str(out, cp.as_str());
        write_string(out, entries[i].0.as_str());
        proof { reveal_strlit(" => "); }
        push_str(out, " => ");
        proof {
            vstd::std_specs::vec::axiom_vec_index_decreases(*entries, i as int);
        }
        write_value(out, &entries[i].1, o, &cp, Ghost(d + 1), f);
        assert(es.subrange(0, i + 1).subrange(0, i as int) =~= es.subrange(0, i as int));
        i = i + 1;
        assert(out@ =~= start + entries_join(es.subrange(0, i as int), *o, d, *f));
    }
    assert(es.subrange(0, i as int) =~= es);
    write_close(out, o, pad, Ghost(d));
    assert(final(out)@ =~= old(out)@ + (open_body(*o) + entries_join(es, *o, d, *f) + close_body(*o, d)));
}

fn write_hint(out: &mut String, o: &SerializeOptions)
    ensures
        final(out)@ == old(out)@ + hint(*o),
{
    if o.const_hint {
        proof { reveal_strlit("(const) "); }
        push_str(out, "(const) ");
    } else {
        assert(old(out)@ + hint(*o) =~= old(out)@);
    }
}

fn write_sep(out: &mut String, o: &SerializeOptions)
    ensures
        final(out)@ == old(out)@ + sep(*o),
{
    match o.indent {
        Some(_) => {
            proof { reveal_strlit(",\n"); }
            push_str(out, ",\n");
        },
        None => {
            proof { reveal_strlit(", "); }
            push_str(out, ", ");
        },
    }
}

fn write_open(out: &mut String, o: &SerializeOptions)
    ensures
        final(out)@ == old(out)@ + open_body(*o),
{
    match o.indent {
        Some(_) => push_char(out, '\n'),
        None => assert(old(out)@ + open_body(*o) =~= old(out)@),
    }
}

fn write_close(out: &mut String, o: &SerializeOptions, pad: &String, Ghost(d): Ghost<nat>)
    requires
        pad@ == lead(*o, d),
    ensures
        final(out)@ == old(out)@ + close_body(*o, d),
{
    match o.indent {
        Some(_) => {
            push_char(out, '\n');
            push_str(out, pad.as_str());
            assert(final(out)@ =~= old(out)@ + close_body(*o, d));
        },
        None => assert(old(out)@ + close_body(*o, d) =~= old(out)@),
    }
}

impl Value {
    /// The text of this value under `options`. `real_text` gives the decimal
    /// text of a finite real from its bit pattern.
    pub fn to_string_with_options<F: Fn(u64) -> String>(
        &self,
        options: &SerializeOptions,
        real_text: &F,
    ) -> (r: String)
        requires
            formats_reals(*real_text),
        ensures
            r@ == render(self@, *options, 0, *real_text),
    {
        let mut out = String::new();
        let pad = String::new();
        proof {
            assert(pad@ =~= lead(*options, 0));
        }
        write_value(&mut out, self, options, &pad, Ghost(0), real_text);
        assert(out@ =~= render(self@, *options, 0, *real_text));
        out
    }
}

} // verus!
