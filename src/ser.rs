//! Building values from the shapes of typed data: the serialization side of the
//! bridge between typed data and [`Value`].
use vstd::prelude::*;

use crate::error::Error;
use crate::parser::{entries_insert, insert_entry, lemma_insert_keys_distinct};
use crate::text::{int_text, nat_text, push_char, push_int, push_nat, push_str};
use crate::value::{Val, Value, keys_distinct, entries_view, items_view, lemma_entries_view, lemma_items_view};

verus! {

/// The binary64 bit pattern nearest to `v`, ties to even: the value of
/// `v as f64`, for `v` at or above 2^63.
pub open spec fn u64_real_bits(v: u64) -> u64 {
    let q = v as int / 2048;
    let r = v as int % 2048;
    let m = if r > 1024 || (r == 1024 && q % 2 == 1) {
        q + 1
    } else {
        q
    };
    if m == 0x20000000000000 {
        (1087 * 0x10000000000000) as u64
    } else {
        (1086 * 0x10000000000000 + (m - 0x10000000000000)) as u64
    }
}

/// The value of a variant: its bare name without a payload, else a dictionary
/// of one entry from its name to the payload.
pub open spec fn variant_value(name: Seq<char>, payload: Option<Val>) -> Val {
    match payload {
        None => Val::Str(name),
        Some(p) => Val::Dict(seq![(name, p)]),
    }
}

/// Turns the scalars of typed data into values.
pub struct ValueSerializer;

impl ValueSerializer {
    pub fn serialize_bool(self, v: bool) -> (r: Value)
        ensures
            r@ == Val::Bool(v),
    {
        Value::Bool(v)
    }

    pub fn serialize_i8(self, v: i8) -> (r: Value)
        ensures
            r@ == Val::Integer(v as i64),
    {
        Value::Integer(v as i64)
    }

    pub fn serialize_i16(self, v: i16) -> (r: Value)
        ensures
            r@ == Val::Integer(v as i64),
    {
        Value::Integer(v as i64)
    }

    pub fn serialize_i32(self, v: i32) -> (r: Value)
        ensures
            r@ == Val::Integer(v as i64),
    {
        Value::Integer(v as i64)
    }

    pub fn serialize_i64(self, v: i64) -> (r: Value)
        ensures
            r@ == Val::Integer(v),
    {
        Value::Integer(v)
    }

    pub fn serialize_u8(self, v: u8) -> (r: Value)
        ensures
            r@ == Val::Integer(v as i64),
    {
        Value::Integer(v as i64)
    }

    pub fn serialize_u16(self, v: u16) -> (r: Value)
        ensures
            r@ == Val::Integer(v as i64),
    {
        Value::Integer(v as i64)
    }

    pub fn serialize_u32(self, v: u32) -> (r: Value)
        ensures
            r@ == Val::Integer(v as i64),
    {
        Value::Integer(v as i64)
    }

    /// An integer when it fits in 64 signed bits, else the nearest real.
    pub fn serialize_u64(self, v: u64) -> (r: Value)
        ensures
            v <= i64::MAX ==> r@ == Val::Integer(v as i64),
            v > i64::MAX ==> r@ == Val::Real(u64_real_bits(v)),
    {
        if v <= 0x7fffffffffffffff {
            Value::Integer(v as i64)
        } else {
            let q = v / 2048;
            let r = v % 2048;
            let m = if r > 1024 || (r == 1024 && q % 2 == 1) {
                q + 1
            } else {
                q
            };
            if m == 0x20000000000000 {
                Value::Real(1087 * 0x10000000000000)
            } else {
                Value::Real(1086 * 0x10000000000000 + (m - 0x10000000000000))
            }
        }
    }

    /// A real, from its bit pattern.
    pub fn serialize_f64(self, bits: u64) -> (r: Value)
        ensures
            r@ == Val::Real(bits),
    {
        Value::Real(bits)
    }

    pub fn serialize_char(self, c: char) -> (r: Value)
        ensures
            r@ == Val::Str(seq![c]),
    {
        let mut s = String::new();
        push_char(&mut s, c);
        Value::String(s)
    }

    pub fn serialize_str(self, v: &str) -> (r: Value)
        ensures
            r@ == Val::Str(v@),
    {
        Value::String(v.to_owned())
    }

    pub fn serialize_bytes(self, v: &[u8]) -> (r: Value)
        ensures
            r@ == Val::Octet(v@),
    {
        let mut out: Vec<u8> = Vec::new();
        let mut i: usize = 0;
        while i < v.len()
            invariant
                i <= v@.len(),
                out@ == v@.subrange(0, i as int),
            decreases v@.len() - i,
        {
            out.push(v[i]);
            i = i + 1;
            assert(out@ =~= v@.subrange(0, i as int));
        }
        assert(out@ =~= v@);
        Value::Octet(out)
    }

    /// An absent optional value.
    pub fn serialize_none(self) -> (r: Value)
        ensures
            r@ == Val::Void,
    {
        Value::Void
    }

    pub fn serialize_unit(self) -> (r: Value)
        ensures
            r@ == Val::Void,
    {
        Value::Void
    }

    pub fn serialize_unit_struct(self) -> (r: Value)
        ensures
            r@ == Val::Void,
    {
        Value::Void
    }

    /// A variant without payload: its name.
    pub fn serialize_unit_variant(self, variant: &str) -> (r: Value)
        ensures
            r@ == variant_value(variant@, None),
    {
        Value::String(variant.to_owned())
    }

    /// A variant with one payload: its name mapped to the payload.
    pub fn serialize_newtype_variant(self, variant: &str, value: Value) -> (r: Value)
        ensures
            r@ == variant_value(variant@, Some(value@)),
    {
        let ghost p = value@;
        let entries = vec![(variant.to_owned(), value)];
        proof {
            lemma_entries_view(entries@);
            assert(entries_view(entries@) =~= seq![(variant@, p)]);
        }
        Value::Dictionary(entries)
    }

    /// The builder of a sequence.
    pub fn serialize_seq(self) -> (r: SeqSerializer)
        ensures
            r@ == Seq::<Val>::empty(),
    {
        let r = SeqSerializer { elements: Vec::new() };
        assert(r@ =~= Seq::<Val>::empty());
        r
    }

    /// The builder of a variant with positional fields.
    pub fn serialize_tuple_variant(self, variant: &str) -> (r: TupleVariantSerializer)
        ensures
            r.name@ == variant@,
            r@ == Seq::<Val>::empty(),
    {
        let r = TupleVariantSerializer { name: variant.to_owned(), fields: Vec::new() };
        assert(r@ =~= Seq::<Val>::empty());
        r
    }

    /// The builder of a map or a record.
    pub fn serialize_map(self) -> (r: MapSerializer)
        ensures
            r.wf(),
            r.entries@ == Seq::<(String, Value)>::empty(),
            r.next_key is None,
    {
        let r = MapSerializer { entries: Vec::new(), next_key: None };
        assert(entries_view(r.entries@) =~= Seq::<(Seq<char>, Val)>::empty());
        r
    }

    /// The builder of a variant with named fields.
    pub fn serialize_struct_variant(self, variant: &str) -> (r: StructVariantSerializer)
        ensures
            r.wf(),
            r.name@ == variant@,
            r.map@ == Seq::<(String, Value)>::empty(),
    {
        let r = StructVariantSerializer { name: variant.to_owned(), map: Vec::new() };
        assert(entries_view(r.map@) =~= Seq::<(Seq<char>, Val)>::empty());
        r
    }
}

/// Collects the elements of a sequence, in order.
pub struct SeqSerializer {
    pub elements: Vec<Value>,
}

impl View for SeqSerializer {
    type V = Seq<Val>;

    open spec fn view(&self) -> Seq<Val> {
        items_view(self.elements@)
    }
}

impl SeqSerializer {
    pub fn serialize_element(&mut self, value: Value)
        ensures
            final(self)@ == old(self)@.push(value@),
    {
        let ghost before = self.elements@;
        self.elements.push(value);
        assert(self.elements@.subrange(0, self.elements@.len() - 1) =~= before);
    }

    /// The array of the elements collected.
    pub fn end(self) -> (r: Value)
        ensures
            r@ == Val::Array(self@),
    {
        Value::Array(self.elements)
    }
}

/// Collects the positional fields of a variant.
pub struct TupleVariantSerializer {
    pub name: String,
    pub fields: Vec<Value>,
}

impl View for TupleVariantSerializer {
    type V = Seq<Val>;

    open spec fn view(&self) -> Seq<Val> {
        items_view(self.fields@)
    }
}

impl TupleVariantSerializer {
    pub fn serialize_field(&mut self, value: Value)
        ensures
            final(self).name == old(self).name,
            final(self)@ == old(self)@.push(value@),
    {
        let ghost before = self.fields@;
        self.fields.push(value);
        assert(self.fields@.subrange(0, self.fields@.len() - 1) =~= before);
    }

    /// The variant's name mapped to the array of its fields.
    pub fn end(self) -> (r: Value)
        ensures
            r@ == variant_value(self.name@, Some(Val::Array(self@))),
    {
        let ghost fs = self@;
        let ghost n = self.name@;
        let entries = vec![(self.name, Value::Array(self.fields))];
        proof {
            lemma_entries_view(entries@);
            assert(entries_view(entries@) =~= seq![(n, Val::Array(fs))]);
        }
        Value::Dictionary(entries)
    }
}

/// Collects the entries of a map or the fields of a record, in order; a key
/// given again keeps its place and takes the new value.
pub struct MapSerializer {
    pub entries: Vec<(String, Value)>,
    pub next_key: Option<String>,
}

impl MapSerializer {
    /// The keys of the entries collected are distinct.
    pub open spec fn wf(&self) -> bool {
        keys_distinct(entries_view(self.entries@))
    }

    /// Records the key of the next entry.
    pub fn serialize_key(&mut self, key: String) -> (r: Result<(), Error>)
        ensures
            final(self).entries == old(self).entries,
            old(self).next_key is None ==> r is Ok && final(self).next_key == Some(key),
            old(self).next_key is Some ==> (r matches Err(e) && e.position is None && e.message@
                == "key serialized twice without a value"@) && final(self).next_key == old(self).next_key,
    {
        if self.next_key.is_some() {
            return Err(Error::new("key serialized twice without a value".to_owned()));
        }
        self.next_key = Some(key);
        Ok(())
    }

    /// Adds an entry under the key recorded before.
    pub fn serialize_value(&mut self, value: Value) -> (r: Result<(), Error>)
        requires
            old(self).wf(),
        ensures
            final(self).wf(),
            final(self).next_key is None,
            match old(self).next_key {
                Some(k) => r is Ok && entries_view(final(self).entries@) == entries_insert(
                    entries_view(old(self).entries@),
                    k@,
                    value@,
                ),
                None => (r matches Err(e) && e.position is None && e.message@ == "value serialized before key"@)
                    && final(self).entries == old(self).entries,
            },
    {
        match self.next_key.take() {
            Some(k) => {
                proof {
                    lemma_insert_keys_distinct(entries_view(self.entries@), k@, value@);
                }
                insert_entry(&mut self.entries, k, value);
                Ok(())
            },
            None => Err(Error::new("value serialized before key".to_owned())),
        }
    }

    /// Adds a named field.
    pub fn serialize_field(&mut self, key: &str, value: Value)
        requires
            old(self).wf(),
        ensures
            final(self).wf(),
            final(self).next_key == old(self).next_key,
            entries_view(final(self).entries@) == entries_insert(
                entries_view(old(self).entries@),
                key@,
                value@,
            ),
    {
        proof {
            lemma_insert_keys_distinct(entries_view(self.entries@), key@, value@);
        }
        insert_entry(&mut self.entries, key.to_owned(), value);
    }

    /// The dictionary of the entries collected.
    pub fn end(self) -> (r: Value)
        ensures
            r@ == Val::Dict(entries_view(self.entries@)),
    {
        Value::Dictionary(self.entries)
    }
}

/// Collects the named fields of a variant.
pub struct StructVariantSerializer {
    pub name: String,
    pub map: Vec<(String, Value)>,
}

impl StructVariantSerializer {
    /// The keys of the fields collected are distinct.
    pub open spec fn wf(&self) -> bool {
        keys_distinct(entries_view(self.map@))
    }

    pub fn serialize_field(&mut self, key: &str, value: Value)
        requires
            old(self).wf(),
        ensures
            final(self).wf(),
            final(self).name == old(self).name,
            entries_view(final(self).map@) == entries_insert(
                entries_view(old(self).map@),
                key@,
                value@,
            ),
    {
        proof {
            lemma_insert_keys_distinct(entries_view(self.map@), key@, value@);
        }
        insert_entry(&mut self.map, key.to_owned(), value);
    }

    /// The variant's name mapped to the dictionary of its fields.
    pub fn end(self) -> (r: Value)
        ensures
            r@ == variant_value(self.name@, Some(Val::Dict(entries_view(self.map@)))),
    {
        let ghost fs = entries_view(self.map@);
        let ghost n = self.name@;
        let entries = vec![(self.name, Value::Dictionary(self.map))];
        proof {
            lemma_entries_view(entries@);
            assert(entries_view(entries@) =~= seq![(n, Val::Dict(fs))]);
        }
        Value::Dictionary(entries)
    }
}

/// Turns the scalars that may key a dictionary into key text; other shapes
/// cannot key one.
pub struct MapKeySerializer;

impl MapKeySerializer {
    pub fn serialize_bool(self, v: bool) -> (r: String)
        ensures
            r@ == if v {
                seq!['t', 'r', 'u', 'e']
            } else {
                seq!['f', 'a', 'l', 's', 'e']
            },
    {
        let mut s = String::new();
        if v {
            proof {
                reveal_strlit("true");
            }
            push_str(&mut s, "true");
        } else {
            proof {
                reveal_strlit("false");
            }
            push_str(&mut s, "false");
        }
        assert(s@ =~= if v {
            seq!['t', 'r', 'u', 'e']
        } else {
            seq!['f', 'a', 'l', 's', 'e']
        });
        s
    }

    /// The decimal numeral of a signed integer.
    pub fn serialize_i64(self, v: i64) -> (r: String)
        ensures
            r@ == int_text(v as int),
    {
        let mut s = String::new();
        push_int(&mut s, v);
        assert(s@ =~= int_text(v as int));
        s
    }

    /// The decimal numeral of an unsigned integer.
    pub fn serialize_u64(self, v: u64) -> (r: String)
        ensures
            r@ == nat_text(v as nat),
    {
        let mut s = String::new();
        push_nat(&mut s, v);
        assert(s@ =~= nat_text(v as nat));
        s
    }

    pub fn serialize_char(self, c: char) -> (r: String)
        ensures
            r@ == seq![c],
    {
        let mut s = String::new();
        push_char(&mut s, c);
        assert(s@ =~= seq![c]);
        s
    }

    pub fn serialize_str(self, v: &str) -> (r: String)
        ensures
            r@ == v@,
    {
        v.to_owned()
    }

    /// The error for a shape that cannot key a dictionary.
    pub fn reject(self) -> (r: Error)
        ensures
            r.message@ == "dictionary keys must be strings"@,
            r.position is None,
    {
        Error::new("dictionary keys must be strings".to_owned())
    }
}

} // verus!
