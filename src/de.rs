//! Reading typed data out of values: the deserialization side of the bridge
//! between typed data and [`Value`].
use vstd::prelude::*;

use crate::error::Error;
use crate::parser::{parse_str, parse_text, reads_reals};
use crate::text::{byte_len, chars_of, push_str};
use crate::value::{Val, Value, fits_depth, well_formed, entries_view, items_view, lemma_entries_view, lemma_items_view};

verus! {

/// The name of the kind of a value, as error messages give it.
pub open spec fn kind_name(v: Val) -> Seq<char> {
    match v {
        Val::Void => "Void"@,
        Val::Null => "Null"@,
        Val::Bool(_) => "Bool"@,
        Val::Integer(_) => "Integer"@,
        Val::Real(_) => "Real"@,
        Val::Str(_) => "String"@,
        Val::Octet(_) => "Octet"@,
        Val::Array(_) => "Array"@,
        Val::Dict(_) => "Dictionary"@,
    }
}

/// The message for a value of the wrong kind.
pub open spec fn mismatch(expected: &str, found: Val) -> Seq<char> {
    "expected "@ + expected@ + ", found "@ + kind_name(found)
}

fn kind_of(v: &Value) -> (r: &'static str)
    ensures
        r@ == kind_name(v@),
{
    match v {
        Value::Void => "Void",
        Value::Null => "Null",
        Value::Bool(_) => "Bool",
        Value::Integer(_) => "Integer",
        Value::Real(_) => "Real",
        Value::String(_) => "String",
        Value::Octet(_) => "Octet",
        Value::Array(_) => "Array",
        Value::Dictionary(_) => "Dictionary",
    }
}

/// The error for a value of the wrong kind.
fn mismatch_error(expected: &str, found: &Value) -> (r: Error)
    ensures
        r.message@ == mismatch(expected, found@),
        r.position is None,
{
    let mut m = String::new();
    push_str(&mut m, "expected ");
    push_str(&mut m, expected);
    push_str(&mut m, ", found ");
    push_str(&mut m, kind_of(found));
    Error::new(m)
}

/// Parses `input` as one TJS2 value; `read_real` gives the bit pattern of a
/// real-number literal from its text.
pub fn parse_value<G: Fn(&str) -> u64>(input: &str, read_real: &G) -> (r: Result<Value, Error>)
    requires
        reads_reals(*read_real),
    ensures
        match parse_text(input@, *read_real) {
            Ok(v) => r matches Ok(x) && x@ == v,
            Err(e) => r matches Err(err) && err.message@ == e.msg && 0 <= e.at <= input@.len()
                && err.position == Some(byte_len(input@.subrange(0, e.at)) as usize),
        },
        r matches Ok(x) ==> well_formed(x@) && fits_depth(x@, 0),
{
    parse_str(input, read_real)
}

/// Reads typed data out of one value.
pub struct ValueDeserializer {
    pub value: Value,
}

impl ValueDeserializer {
    pub fn new(value: Value) -> (r: ValueDeserializer)
        ensures
            r.value == value,
    {
        ValueDeserializer { value }
    }

    pub fn deserialize_bool(self) -> (r: Result<bool, Error>)
        ensures
            match self.value@ {
                Val::Bool(b) => r == Ok::<bool, Error>(b),
                other => r matches Err(e) && e.position is None && e.message@ == mismatch("bool", other),
            },
    {
        match self.value {
            Value::Bool(b) => Ok(b),
            other => Err(mismatch_error("bool", &other)),
        }
    }

    /// A signed integer: only an integer value gives one.
    pub fn deserialize_i64(self) -> (r: Result<i64, Error>)
        ensures
            match self.value@ {
                Val::Integer(n) => r == Ok::<i64, Error>(n),
                other => r matches Err(e) && e.position is None && e.message@ == mismatch("integer", other),
            },
    {
        match self.value {
            Value::Integer(n) => Ok(n),
            other => Err(mismatch_error("integer", &other)),
        }
    }

    /// An unsigned integer: only a non-negative integer value gives one.
    pub fn deserialize_u64(self) -> (r: Result<u64, Error>)
        ensures
            match self.value@ {
                Val::Integer(n) => if n >= 0 {
                    r == Ok::<u64, Error>(n as u64)
                } else {
                    r matches Err(e) && e.position is None && e.message@ == mismatch("unsigned integer", self.value@)
                },
                other => r matches Err(e) && e.position is None && e.message@ == mismatch("unsigned integer", other),
            },
    {
        match self.value {
            Value::Integer(n) => {
                if n >= 0 {
                    Ok(n as u64)
                } else {
                    Err(mismatch_error("unsigned integer", &Value::Integer(n)))
                }
            },
            other => Err(mismatch_error("unsigned integer", &other)),
        }
    }

    /// A number for a floating-point target: a real, or an integer to widen.
    pub fn deserialize_f64(self) -> (r: Result<Value, Error>)
        ensures
            match self.value@ {
                Val::Real(_) => r matches Ok(x) && x@ == self.value@,
                Val::Integer(_) => r matches Ok(x) && x@ == self.value@,
                other => r matches Err(e) && e.position is None && e.message@ == mismatch("float", other),
            },
    {
        match self.value {
            Value::Real(b) => Ok(Value::Real(b)),
            Value::Integer(n) => Ok(Value::Integer(n)),
            other => Err(mismatch_error("float", &other)),
        }
    }

    /// A character: a string of exactly one character.
    pub fn deserialize_char(self) -> (r: Result<char, Error>)
        ensures
            match self.value@ {
                Val::Str(t) => if t.len() == 1 {
                    r == Ok::<char, Error>(t[0])
                } else {
                    r matches Err(e) && e.position is None && e.message@ == "expected single character"@
                },
                other => r matches Err(e) && e.position is None && e.message@ == mismatch("char", other),
            },
    {
        match self.value {
            Value::String(s) => {
                let cs = chars_of(s.as_str());
                if cs.len() == 1 {
                    Ok(cs[0])
                } else {
                    Err(Error::new("expected single character".to_owned()))
                }
            },
            other => Err(mismatch_error("char", &other)),
        }
    }

    /// A string, also for an identifier.
    pub fn deserialize_string(self) -> (r: Result<String, Error>)
        ensures
            match self.value@ {
                Val::Str(t) => r matches Ok(x) && x@ == t,
                other => r matches Err(e) && e.position is None && e.message@ == mismatch("string", other),
            },
    {
        match self.value {
            Value::String(s) => Ok(s),
            other => Err(mismatch_error("string", &other)),
        }
    }

    /// A byte buffer: an octet value, or the UTF-8 bytes of a string.
    pub fn deserialize_bytes(self) -> (r: Result<Vec<u8>, Error>)
        ensures
            match self.value@ {
                Val::Octet(b) => r matches Ok(x) && x@ == b,
                Val::Str(t) => r matches Ok(x) && x@ == vstd::utf8::encode_utf8(t),
                other => r matches Err(e) && e.position is None && e.message@ == mismatch("byte buffer", other),
            },
    {
        match self.value {
            Value::Octet(b) => Ok(b),
            Value::String(s) => {
                let b = s.as_str().as_bytes();
                let mut out: Vec<u8> = Vec::new();
                let mut i: usize = 0;
                while i < b.len()
                    invariant
                        i <= b@.len(),
                        out@ == b@.subrange(0, i as int),
                    decreases b@.len() - i,
                {
                    out.push(b[i]);
                    i = i + 1;
                    assert(out@ =~= b@.subrange(0, i as int));
                }
                assert(out@ =~= b@);
                Ok(out)
            },
            other => Err(mismatch_error("byte buffer", &other)),
        }
    }

    /// An optional value: void and null are absent, anything else is present.
    pub fn deserialize_option(self) -> (r: Option<Value>)
        ensures
            (self.value@ is Void || self.value@ is Null) ==> r is None,
            !(self.value@ is Void || self.value@ is Null) ==> r == Some(self.value),
    {
        match self.value {
            Value::Void => None,
            Value::Null => None,
            other => Some(other),
        }
    }

    /// A unit: void or null.
    pub fn deserialize_unit(self) -> (r: Result<(), Error>)
        ensures
            (self.value@ is Void || self.value@ is Null) ==> r is Ok,
            !(self.value@ is Void || self.value@ is Null) ==> (r matches Err(e) && e.position is None && e.message@
                == mismatch("unit", self.value@)),
    {
        match self.value {
            Value::Void => Ok(()),
            Value::Null => Ok(()),
            other => Err(mismatch_error("unit", &other)),
        }
    }

    /// The elements of an array, to be read in order.
    pub fn deserialize_seq(self) -> (r: Result<SeqDeserializer, Error>)
        ensures
            match self.value@ {
                Val::Array(items) => r matches Ok(x) && x@ == items,
                other => r matches Err(e) && e.position is None && e.message@ == mismatch("array", other),
            },
    {
        match self.value {
            Value::Array(items) => Ok(SeqDeserializer::new(items)),
            other => Err(mismatch_error("array", &other)),
        }
    }

    /// The entries of a dictionary, to be read in order.
    pub fn deserialize_map(self) -> (r: Result<MapDeserializer, Error>)
        ensures
            match self.value@ {
                Val::Dict(es) => r matches Ok(x) && x@ == es && x.pending is None,
                other => r matches Err(e) && e.position is None && e.message@ == mismatch("dictionary", other),
            },
    {
        match self.value {
            Value::Dictionary(entries) => Ok(MapDeserializer::new(entries)),
            other => Err(mismatch_error("dictionary", &other)),
        }
    }

    /// A variant: a bare name, or a dictionary of exactly one entry from the
    /// name to the payload.
    pub fn deserialize_enum(self) -> (r: Result<EnumDeserializer, Error>)
        ensures
            match enum_parts(self.value@) {
                Ok((name, payload)) => r matches Ok(x) && x.variant@ == name && x.payload()
                    == payload,
                Err(m) => r matches Err(e) && e.position is None && e.message@ == m,
            },
    {
        match self.value {
            Value::String(name) => Ok(EnumDeserializer { variant: name, value: None }),
            Value::Dictionary(mut entries) => {
                proof {
                    lemma_entries_view(entries@);
                }
                if entries.len() != 1 {
                    return Err(
                        Error::new("enum representation must contain exactly one entry".to_owned()),
                    );
                }
                let (name, value) = entries.pop().unwrap();
                Ok(EnumDeserializer { variant: name, value: Some(value) })
            },
            other => Err(mismatch_error("enum", &other)),
        }
    }
}

/// The name and payload of a variant's value, or the error message.
pub open spec fn enum_parts(v: Val) -> Result<(Seq<char>, Option<Val>), Seq<char>> {
    match v {
        Val::Str(name) => Ok((name, None)),
        Val::Dict(es) => if es.len() == 1 {
            Ok((es[0].0, Some(es[0].1)))
        } else {
            Err("enum representation must contain exactly one entry"@)
        },
        other => Err(mismatch("enum", other)),
    }
}

/// The elements of an array that are left to read.
pub struct SeqDeserializer {
    /// The elements left, last first.
    pub rest: Vec<Value>,
}

impl View for SeqDeserializer {
    type V = Seq<Val>;

    open spec fn view(&self) -> Seq<Val> {
        items_view(self.rest@).reverse()
    }
}

impl SeqDeserializer {
    pub fn new(items: Vec<Value>) -> (r: SeqDeserializer)
        ensures
            r@ == items_view(items@),
    {
        let ghost orig = items_view(items@);
        proof {
            lemma_items_view(items@);
        }
        let mut items = items;
        let mut rest: Vec<Value> = Vec::new();
        while items.len() > 0
            invariant
                orig.len() == items@.len() + rest@.len(),
                items_view(items@) == orig.subrange(0, items@.len() as int),
                items_view(rest@).reverse() == orig.subrange(items@.len() as int, orig.len() as int),
            decreases items@.len(),
        {
            let ghost before = items@;
            let ghost rb = rest@;
            let x = items.pop().unwrap();
            proof {
                lemma_items_view(before);
                lemma_items_view(items@);
                assert(items@ =~= before.subrange(0, before.len() - 1));
                assert(items_view(items@) =~= orig.subrange(0, items@.len() as int));
            }
            rest.push(x);
            proof {
                assert(rest@.subrange(0, rest@.len() - 1) =~= rb);
                assert(items_view(rest@) == items_view(rb).push(x@));
                assert(x == before[before.len() - 1]);
                assert(items_view(before)[before.len() - 1] == x@);
                assert(orig.subrange(0, before.len() as int)[before.len() - 1] == orig[before.len() - 1]);
                assert(x@ == orig[items@.len() as int]);
                lemma_items_view(rb);
                lemma_items_view(rest@);
                let i = items@.len() as int;
                let nv = items_view(rest@).reverse();
                let ov = items_view(rb).reverse();
                assert(ov == orig.subrange(i + 1, orig.len() as int));
                assert forall|t: int| 0 <= t < nv.len() implies #[trigger] nv[t] == orig.subrange(
                    i,
                    orig.len() as int,
                )[t] by {
                    if t > 0 {
                        assert(nv[t] == ov[t - 1]);
                    }
                }
                assert(nv =~= orig.subrange(i, orig.len() as int));
            }
        }
        assert(orig.subrange(0, orig.len() as int) =~= orig);
        SeqDeserializer { rest }
    }

    /// The next element, if any.
    pub fn next_element(&mut self) -> (r: Option<Value>)
        ensures
            old(self)@.len() == 0 ==> r is None && final(self)@ == old(self)@,
            old(self)@.len() > 0 ==> (r matches Some(x) && x@ == old(self)@[0] && final(self)@
                == old(self)@.drop_first()),
    {
        let ghost before = self.rest@;
        proof {
            lemma_items_view(before);
        }
        match self.rest.pop() {
            Some(x) => {
                proof {
                    assert(self.rest@ =~= before.subrange(0, before.len() - 1));
                    assert(items_view(before) == items_view(self.rest@).push(x@));
                    assert(items_view(self.rest@).reverse() =~= items_view(before).reverse().drop_first());
                }
                Some(x)
            },
            None => None,
        }
    }
}

/// The entries of a dictionary that are left to read, a key and then its value.
pub struct MapDeserializer {
    /// The entries left, last first.
    pub rest: Vec<(String, Value)>,
    /// The value of the key read last, not read yet.
    pub pending: Option<Value>,
}

impl View for MapDeserializer {
    type V = Seq<(Seq<char>, Val)>;

    open spec fn view(&self) -> Seq<(Seq<char>, Val)> {
        entries_view(self.rest@).reverse()
    }
}

impl MapDeserializer {
    pub fn new(entries: Vec<(String, Value)>) -> (r: MapDeserializer)
        ensures
            r@ == entries_view(entries@),
            r.pending is None,
    {
        let ghost orig = entries_view(entries@);
        proof {
            lemma_entries_view(entries@);
        }
        let mut entries = entries;
        let mut rest: Vec<(String, Value)> = Vec::new();
        while entries.len() > 0
            invariant
                orig.len() == entries@.len() + rest@.len(),
                entries_view(entries@) == orig.subrange(0, entries@.len() as int),
                entries_view(rest@).reverse() == orig.subrange(
                    entries@.len() as int,
                    orig.len() as int,
                ),
            decreases entries@.len(),
        {
            let ghost before = entries@;
            let ghost rb = rest@;
            let x = entries.pop().unwrap();
            proof {
                lemma_entries_view(before);
                lemma_entries_view(entries@);
                assert(entries@ =~= before.subrange(0, before.len() - 1));
                assert(entries_view(entries@) =~= orig.subrange(0, entries@.len() as int));
            }
            let ghost xv = (x.0@, x.1@);
            rest.push(x);
            proof {
                assert(rest@.subrange(0, rest@.len() - 1) =~= rb);
                assert(entries_view(rest@) == entries_view(rb).push(xv));
                assert(x == before[before.len() - 1]);
                assert(entries_view(before)[before.len() - 1] == xv);
                assert(orig.subrange(0, before.len() as int)[before.len() - 1] == orig[before.len() - 1]);
                assert(xv == orig[entries@.len() as int]);
                lemma_entries_view(rb);
                lemma_entries_view(rest@);
                let i = entries@.len() as int;
                let nv = entries_view(rest@).reverse();
                let ov = entries_view(rb).reverse();
                assert(ov == orig.subrange(i + 1, orig.len() as int));
                assert forall|t: int| 0 <= t < nv.len() implies #[trigger] nv[t] == orig.subrange(
                    i,
                    orig.len() as int,
                )[t] by {
                    if t > 0 {
                        assert(nv[t] == ov[t - 1]);
                    }
                }
                assert(nv =~= orig.subrange(i, orig.len() as int));
            }
        }
        assert(orig.subrange(0, orig.len() as int) =~= orig);
        MapDeserializer { rest, pending: None }
    }

    /// The next key, if any; its value waits for [`MapDeserializer::next_value`].
    pub fn next_key(&mut self) -> (r: Result<Option<String>, Error>)
        ensures
            old(self).pending is Some ==> (r matches Err(e) && e.position is None && e.message@
                == "key requested before the value of the previous key"@) && *final(self) == *old(self),
            old(self).pending is None && old(self)@.len() == 0 ==> r == Ok::<Option<String>, Error>(None)
                && final(self)@ == old(self)@ && final(self).pending is None,
            old(self).pending is None && old(self)@.len() > 0 ==> (r matches Ok(Some(k)) && k@
                == old(self)@[0].0 && final(self)@ == old(self)@.drop_first() && (final(self).pending matches Some(v) && v@ == old(self)@[0].1)),
    {
        if self.pending.is_some() {
            return Err(Error::new("key requested before the value of the previous key".to_owned()));
        }
        let ghost before = self.rest@;
        proof {
            lemma_entries_view(before);
        }
        match self.rest.pop() {
            Some((k, v)) => {
                proof {
                    assert(self.rest@ =~= before.subrange(0, before.len() - 1));
                    assert(entries_view(before) == entries_view(self.rest@).push((k@, v@)));
                    assert(entries_view(self.rest@).reverse() =~= entries_view(before).reverse().drop_first());
                }
                self.pending = Some(v);
                Ok(Some(k))
            },
            None => Ok(None),
        }
    }

    /// The value of the key read last.
    pub fn next_value(&mut self) -> (r: Result<Value, Error>)
        ensures
            final(self).rest == old(self).rest,
            final(self).pending is None,
            match old(self).pending {
                Some(v) => r == Ok::<Value, Error>(v),
                None => r matches Err(e) && e.position is None && e.message@ == "value missing for key"@,
            },
    {
        match self.pending.take() {
            Some(v) => Ok(v),
            None => Err(Error::new("value missing for key".to_owned())),
        }
    }
}

/// A variant's name and its payload, if any.
pub struct EnumDeserializer {
    pub variant: String,
    pub value: Option<Value>,
}

impl EnumDeserializer {
    pub open spec fn payload(&self) -> Option<Val> {
        match self.value {
            Some(v) => Some(v@),
            None => None,
        }
    }

    /// The variant's name, and what reads its payload.
    pub fn variant_seed(self) -> (r: (String, VariantDeserializer))
        ensures
            r.0@ == self.variant@,
            r.1.value == self.value,
    {
        (self.variant, VariantDeserializer { value: self.value })
    }
}

/// Reads the payload of a variant by the shape the variant has.
pub struct VariantDeserializer {
    pub value: Option<Value>,
}

impl VariantDeserializer {
    /// A variant without payload.
    pub fn unit_variant(self) -> (r: Result<(), Error>)
        ensures
            self.value is None ==> r is Ok,
            self.value is Some ==> (r matches Err(e) && e.position is None && e.message@ == "expected unit variant"@),
    {
        match self.value {
            None => Ok(()),
            Some(_) => Err(Error::new("expected unit variant".to_owned())),
        }
    }

    /// A variant with one payload.
    pub fn newtype_variant(self) -> (r: Result<Value, Error>)
        ensures
            (self.value matches Some(v) ==> r == Ok::<Value, Error>(v)),
            self.value is None ==> (r matches Err(e) && e.position is None && e.message@
                == "expected value for newtype variant"@),
    {
        match self.value {
            Some(v) => Ok(v),
            None => Err(Error::new("expected value for newtype variant".to_owned())),
        }
    }

    /// A variant with positional fields: its payload is an array.
    pub fn tuple_variant(self) -> (r: Result<SeqDeserializer, Error>)
        ensures
            match self.value {
                Some(Value::Array(items)) => r matches Ok(x) && x@ == items_view(items@),
                _ => r matches Err(e) && e.position is None && e.message@ == "tuple variant expected an array"@,
            },
    {
        match self.value {
            Some(Value::Array(items)) => Ok(SeqDeserializer::new(items)),
            _ => Err(Error::new("tuple variant expected an array".to_owned())),
        }
    }

    /// A variant with named fields: its payload is a dictionary.
    pub fn struct_variant(self) -> (r: Result<MapDeserializer, Error>)
        ensures
            match self.value {
                Some(Value::Dictionary(es)) => r matches Ok(x) && x@ == entries_view(es@)
                    && x.pending is None,
                _ => r matches Err(e) && e.position is None && e.message@ == "struct variant expected a dictionary"@,
            },
    {
        match self.value {
            Some(Value::Dictionary(es)) => Ok(MapDeserializer::new(es)),
            _ => Err(Error::new("struct variant expected a dictionary".to_owned())),
        }
    }
}

} // verus!
