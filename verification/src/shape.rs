//! The shapes by which values are decoded, and the decoder that follows a shape.

use crate::de::{
    absent_of, bool_of, char_of, enum_end_of, int_of, mapping_end_of, mapping_start_of, null_of,
    real_of, sequence_end_of, sequence_start_of, string_of, stalled, unexpected, unexpected_token,
    behind_preamble, Errors, YamlDeserializer,
};
use crate::event::{advance, lemma_advance_well_formed, yaml_events, Marker, Token};
use crate::text::same_text;
use crate::value::{lemma_char_model, pair_models, value_models, Value, ValueModel};
use crate::wrapper::{node_at, read_node, YamlNodeWrapper};
use vstd::prelude::*;
use yaml_rust2::parser::Event;

verus! {

/// The shape of a target: what the decoder is asked to read.
#[derive(Debug, PartialEq)]
pub enum Shape {
    /// A boolean.
    Bool,
    /// An integer of 8 bits with a sign.
    I8,
    /// An integer of 16 bits with a sign.
    I16,
    /// An integer of 32 bits with a sign.
    I32,
    /// An integer of 64 bits with a sign.
    I64,
    /// An integer of 8 bits without a sign.
    U8,
    /// An integer of 16 bits without a sign.
    U16,
    /// An integer of 32 bits without a sign.
    U32,
    /// An integer of 64 bits without a sign.
    U64,
    /// A real number, read as its text.
    Real,
    /// A character.
    Char,
    /// A string.
    Text,
    /// A borrowed string: never decoded.
    Str,
    /// Raw bytes: never decoded.
    Bytes,
    /// A unit or a unit struct.
    Unit,
    /// An optional value.
    Optional(Box<Shape>),
    /// A sequence of any length, all of one shape.
    Sequence(Box<Shape>),
    /// A tuple or a tuple struct: a sequence with one shape for each place.
    Tuple(Vec<Shape>),
    /// A mapping with one shape for the keys and one for the values.
    Mapping(Box<Shape>, Box<Shape>),
    /// A struct: a mapping whose keys name the fields, in any order. A key that
    /// names no field is skipped with its value; a field whose key is missing is
    /// nothing where its shape is optional.
    Struct(Vec<(String, Shape)>),
    /// An enum, by its variants.
    Enum(Vec<(String, Variant)>),
    /// Any node.
    Any,
}

/// The payload of a variant of an enum.
#[derive(Debug, PartialEq)]
pub enum Variant {
    /// No payload.
    Unit,
    /// One value.
    Newtype(Box<Shape>),
    /// A tuple of values.
    Tuple(Vec<Shape>),
    /// Named fields.
    Struct(Vec<(String, Shape)>),
}

/// The model of what a decoder returns.
pub open spec fn outcome(r: Result<Value, Errors>) -> Result<ValueModel, Errors> {
    match r {
        Ok(v) => Ok(v@),
        Err(e) => Err(e),
    }
}

/// The integer with a sign that a token holds, between `min` and `max`.
pub open spec fn signed_of(t: Token, min: int, max: int) -> Result<ValueModel, Errors> {
    match int_of(t, true, min, max) {
        Ok(v) => Ok(ValueModel::Int(v as i64)),
        Err(e) => Err(e),
    }
}

/// The integer without a sign that a token holds, up to `max`.
pub open spec fn unsigned_of(t: Token, max: int) -> Result<ValueModel, Errors> {
    match int_of(t, false, 0, max) {
        Ok(v) => Ok(ValueModel::UInt(v as u64)),
        Err(e) => Err(e),
    }
}

/// The value that a token holds for a target that reads one scalar.
pub open spec fn scalar_of(t: Token, shape: Shape) -> Result<ValueModel, Errors> {
    match shape {
        Shape::Bool => match bool_of(t) {
            Ok(b) => Ok(ValueModel::Bool(b)),
            Err(e) => Err(e),
        },
        Shape::I8 => signed_of(t, i8::MIN as int, i8::MAX as int),
        Shape::I16 => signed_of(t, i16::MIN as int, i16::MAX as int),
        Shape::I32 => signed_of(t, i32::MIN as int, i32::MAX as int),
        Shape::I64 => signed_of(t, i64::MIN as int, i64::MAX as int),
        Shape::U8 => unsigned_of(t, u8::MAX as int),
        Shape::U16 => unsigned_of(t, u16::MAX as int),
        Shape::U32 => unsigned_of(t, u32::MAX as int),
        Shape::U64 => unsigned_of(t, u64::MAX as int),
        Shape::Real => match real_of(t) {
            Ok(text) => Ok(ValueModel::Real(text@)),
            Err(e) => Err(e),
        },
        Shape::Char => match char_of(t) {
            Ok(c) => Ok(ValueModel::Char(c)),
            Err(e) => Err(e),
        },
        Shape::Text => match string_of(t) {
            Ok(text) => Ok(ValueModel::Text(text@)),
            Err(e) => Err(e),
        },
        _ => match null_of(t, "'null' or '~'") {
            Ok(()) => Ok(ValueModel::Null),
            Err(e) => Err(e),
        },
    }
}

/// The text and the position of a scalar that names a field or a variant.
pub open spec fn key_of(t: Token) -> Result<(String, Marker), Errors> {
    match t {
        Ok((Event::Scalar(text, _, _, _), marker)) => Ok((text, marker)),
        _ => Err(unexpected("Scalar", t)),
    }
}

/// The place of the first variant with the given name.
pub open spec fn variant_index(variants: Seq<(String, Variant)>, name: Seq<char>) -> Option<int>
    decreases variants.len(),
{
    if variants.len() == 0 {
        None
    } else if variants[0].0@ == name {
        Some(0)
    } else {
        match variant_index(variants.drop_first(), name) {
            Some(i) => Some(i + 1),
            None => None,
        }
    }
}

/// The value that a stream of tokens starts with for a target of the given shape,
/// and the stream behind it. The first error ends the reading. Where a stream does
/// not go on behind a token that is not its last, which a well-formed stream always
/// does, the result is the error of a stalled stream.
pub open spec fn value_at(s: Seq<Token>, shape: Shape) -> (Result<ValueModel, Errors>, Seq<Token>)
    decreases shape, s.len(), 0int,
{
    match shape {
        Shape::Str => (Err(Errors::Custom("Deserialization of &str is not supported")), s),
        Shape::Bytes => (Err(Errors::Custom("Deserialization of bytes is not supported")), s),
        Shape::Optional(inner) => match absent_of(s[0]) {
            Err(e) => (Err(e), s),
            Ok(true) => (Ok(ValueModel::Null), advance(s)),
            Ok(false) => value_at(s, *inner),
        },
        Shape::Sequence(element) => match sequence_start_of(s[0]) {
            Err(e) => (Err(e), advance(s)),
            Ok(()) => match values_at(advance(s), *element) {
                (Ok(items), rest) => (Ok(ValueModel::Sequence(items)), advance(rest)),
                (Err(e), rest) => (Err(e), rest),
            },
        },
        Shape::Tuple(shapes) => match tuple_at(s, shapes@) {
            (Ok(items), rest) => (Ok(ValueModel::Sequence(items)), rest),
            (Err(e), rest) => (Err(e), rest),
        },
        Shape::Mapping(_, _) => match mapping_start_of(s[0]) {
            Err(e) => (Err(e), advance(s)),
            Ok(()) => if s.len() > 1 {
                match pairs_at(s.drop_first(), shape) {
                    (Ok(entries), rest) => (Ok(ValueModel::Mapping(entries)), advance(rest)),
                    (Err(e), rest) => (Err(e), rest),
                }
            } else {
                (Err(stalled()), s)
            },
        },
        Shape::Struct(fields) => match struct_at(s, fields@) {
            (Ok(entries), rest) => (Ok(ValueModel::Mapping(entries)), rest),
            (Err(e), rest) => (Err(e), rest),
        },
        Shape::Enum(variants) => match mapping_start_of(s[0]) {
            Err(e) => (Err(e), advance(s)),
            Ok(()) => {
                let named = advance(s);
                match key_of(named[0]) {
                    Err(e) => (Err(e), advance(named)),
                    Ok((name, marker)) => match variant_index(variants@, name@) {
                        None => (
                            Err(Errors::UnexpectedScalarValueError("Variant name", name, marker)),
                            advance(named),
                        ),
                        Some(k) => if 0 <= k < variants@.len() {
                            match payload_at(advance(named), name@, variants@[k].1) {
                                (Err(e), rest) => (Err(e), rest),
                                (Ok(v), rest) => match enum_end_of(rest[0]) {
                                    Ok(()) => (Ok(v), advance(rest)),
                                    Err(e) => (Err(e), advance(rest)),
                                },
                            }
                        } else {
                            (Err(stalled()), s)
                        },
                    },
                }
            },
        },
        Shape::Any => match node_at(s) {
            (Ok(n), rest) => (Ok(ValueModel::Dynamic(n)), rest),
            (Err(e), rest) => (Err(e), rest),
        },
        _ => (scalar_of(s[0], shape), advance(s)),
    }
}

/// The values of one shape that a stream holds before the end of a sequence, and the
/// stream from that end on.
pub open spec fn values_at(s: Seq<Token>, element: Shape) -> (
    Result<Seq<ValueModel>, Errors>,
    Seq<Token>,
)
    decreases element, s.len(), 1int,
{
    if s.len() == 0 || s[0] matches Ok((Event::SequenceEnd, _)) {
        (Ok(Seq::empty()), s)
    } else {
        match value_at(s, element) {
            (Err(e), rest) => (Err(e), rest),
            (Ok(first), rest) => if rest.len() < s.len() {
                match values_at(rest, element) {
                    (Ok(others), after) => (Ok(seq![first] + others), after),
                    (Err(e), after) => (Err(e), after),
                }
            } else {
                (Err(stalled()), s)
            },
        }
    }
}

/// The pairs of a key and a value that a stream holds before the end of a mapping,
/// and the stream from that end on; `mapping` is the shape of the mapping.
pub open spec fn pairs_at(s: Seq<Token>, mapping: Shape) -> (
    Result<Seq<(ValueModel, ValueModel)>, Errors>,
    Seq<Token>,
)
    decreases mapping, s.len(), 1int,
{
    match mapping {
        Shape::Mapping(key, value) => {
            if s.len() == 0 || s[0] matches Ok((Event::MappingEnd, _)) {
                (Ok(Seq::empty()), s)
            } else {
                match value_at(s, *key) {
                    (Err(e), rest) => (Err(e), rest),
                    (Ok(k), rest) => match value_at(rest, *value) {
                        (Err(e), after) => (Err(e), after),
                        (Ok(v), after) => if after.len() < s.len() {
                            match pairs_at(after, mapping) {
                                (Ok(others), end) => (Ok(seq![(k, v)] + others), end),
                                (Err(e), end) => (Err(e), end),
                            }
                        } else {
                            (Err(stalled()), s)
                        },
                    },
                }
            }
        },
        _ => (Err(stalled()), s),
    }
}

/// The values that a stream holds for the places of a tuple, in order, and the
/// stream behind them.
pub open spec fn places_at(s: Seq<Token>, shapes: Seq<Shape>) -> (
    Result<Seq<ValueModel>, Errors>,
    Seq<Token>,
)
    decreases shapes, s.len(), 1int,
{
    if shapes.len() == 0 {
        (Ok(Seq::empty()), s)
    } else {
        match value_at(s, shapes[0]) {
            (Err(e), rest) => (Err(e), rest),
            (Ok(first), rest) => match places_at(rest, shapes.drop_first()) {
                (Ok(others), after) => (Ok(seq![first] + others), after),
                (Err(e), after) => (Err(e), after),
            },
        }
    }
}

/// The values of a tuple: the start of a sequence, a value for each place, and the
/// end of the sequence.
pub open spec fn tuple_at(s: Seq<Token>, shapes: Seq<Shape>) -> (
    Result<Seq<ValueModel>, Errors>,
    Seq<Token>,
)
    decreases shapes, s.len(), 2int,
{
    match sequence_start_of(s[0]) {
        Err(e) => (Err(e), advance(s)),
        Ok(()) => match places_at(advance(s), shapes) {
            (Err(e), rest) => (Err(e), rest),
            (Ok(items), rest) => match sequence_end_of(rest[0], "Expected SequenceEnd") {
                Ok(()) => (Ok(items), advance(rest)),
                Err(e) => (Err(e), advance(rest)),
            },
        },
    }
}

/// The place of the first field with the given name.
pub open spec fn field_index(fields: Seq<(String, Shape)>, name: Seq<char>) -> Option<int>
    decreases fields.len(),
{
    if fields.len() == 0 {
        None
    } else if fields[0].0@ == name {
        Some(0)
    } else {
        match field_index(fields.drop_first(), name) {
            Some(i) => Some(i + 1),
            None => None,
        }
    }
}

/// The values of the fields of a struct that a stream holds before the end of a
/// mapping, each at the place of its field, and the stream from that end on. The
/// keys come in any order. A key that names a field reads a value of that field's
/// shape; a field is read once. A key that names no field is skipped with its value,
/// which is read as a node of any kind. `slots` holds the values that were read
/// before.
pub open spec fn slots_at(
    s: Seq<Token>,
    fields: Seq<(String, Shape)>,
    slots: Seq<Option<ValueModel>>,
) -> (Result<Seq<Option<ValueModel>>, Errors>, Seq<Token>)
    decreases fields, s.len(), 1int,
{
    if s.len() == 0 || s[0] matches Ok((Event::MappingEnd, _)) {
        (Ok(slots), s)
    } else {
        match key_of(s[0]) {
            Err(e) => (Err(e), advance(s)),
            Ok((name, marker)) => match field_index(fields, name@) {
                None => match node_at(advance(s)) {
                    (Err(e), rest) => (Err(e), rest),
                    (Ok(_), rest) => if rest.len() < s.len() {
                        slots_at(rest, fields, slots)
                    } else {
                        (Err(stalled()), s)
                    },
                },
                Some(k) => if 0 <= k < fields.len() && k < slots.len() {
                    if slots[k] is Some {
                        (
                            Err(
                                Errors::UnexpectedScalarValueError(
                                    "Field that was not read before",
                                    name,
                                    marker,
                                ),
                            ),
                            advance(s),
                        )
                    } else {
                        match value_at(advance(s), fields[k].1) {
                            (Err(e), rest) => (Err(e), rest),
                            (Ok(v), rest) => if rest.len() < s.len() {
                                slots_at(rest, fields, slots.update(k, Some(v)))
                            } else {
                                (Err(stalled()), s)
                            },
                        }
                    }
                } else {
                    (Err(stalled()), s)
                },
            },
        }
    }
}

/// The entry of a field: its name and the value that was read for it. A field for
/// which none was read is nothing where its shape is optional, else it is missing.
pub open spec fn entry_of(field: (String, Shape), slot: Option<ValueModel>) -> Result<
    (ValueModel, ValueModel),
    Errors,
> {
    match slot {
        Some(v) => Ok((ValueModel::Text(field.0@), v)),
        None => if field.1 is Optional {
            Ok((ValueModel::Text(field.0@), ValueModel::Null))
        } else {
            Err(Errors::Custom("Missing field"))
        },
    }
}

/// The entries of the fields of a struct, in the order of the fields.
pub open spec fn entries_of(fields: Seq<(String, Shape)>, slots: Seq<Option<ValueModel>>) -> Result<
    Seq<(ValueModel, ValueModel)>,
    Errors,
>
    decreases fields.len(),
{
    if fields.len() == 0 || slots.len() == 0 {
        Ok(Seq::empty())
    } else {
        match entry_of(fields[0], slots[0]) {
            Err(e) => Err(e),
            Ok(first) => match entries_of(fields.drop_first(), slots.drop_first()) {
                Ok(others) => Ok(seq![first] + others),
                Err(e) => Err(e),
            },
        }
    }
}

/// No value for any of `n` fields.
pub open spec fn no_slots(n: nat) -> Seq<Option<ValueModel>> {
    Seq::new(n, |i: int| None::<ValueModel>)
}

/// The entries that a stream holds for the fields of a struct, in the order of the
/// fields, whatever the order of the keys.
pub open spec fn fields_at(s: Seq<Token>, fields: Seq<(String, Shape)>) -> (
    Result<Seq<(ValueModel, ValueModel)>, Errors>,
    Seq<Token>,
)
    decreases fields, s.len(), 2int,
{
    match slots_at(s, fields, no_slots(fields.len())) {
        (Err(e), rest) => (Err(e), rest),
        (Ok(slots), rest) => (entries_of(fields, slots), rest),
    }
}

/// The entries of a struct: the start of a mapping, the fields, and the end of the
/// mapping.
pub open spec fn struct_at(s: Seq<Token>, fields: Seq<(String, Shape)>) -> (
    Result<Seq<(ValueModel, ValueModel)>, Errors>,
    Seq<Token>,
)
    decreases fields, s.len(), 3int,
{
    match mapping_start_of(s[0]) {
        Err(e) => (Err(e), advance(s)),
        Ok(()) => match fields_at(advance(s), fields) {
            (Err(e), rest) => (Err(e), rest),
            (Ok(entries), rest) => match mapping_end_of(rest[0]) {
                Ok(()) => (Ok(entries), advance(rest)),
                Err(e) => (Err(e), advance(rest)),
            },
        },
    }
}

/// The variant with the given name that a stream holds the payload of.
pub open spec fn payload_at(s: Seq<Token>, name: Seq<char>, variant: Variant) -> (
    Result<ValueModel, Errors>,
    Seq<Token>,
)
    decreases variant, s.len(), 3int,
{
    match variant {
        Variant::Unit => match null_of(s[0], "'~' or 'null'") {
            Ok(()) => (Ok(ValueModel::UnitVariant(name)), advance(s)),
            Err(e) => (Err(e), advance(s)),
        },
        Variant::Newtype(shape) => match value_at(s, *shape) {
            (Ok(v), rest) => (Ok(ValueModel::NewtypeVariant(name, Box::new(v))), rest),
            (Err(e), rest) => (Err(e), rest),
        },
        Variant::Tuple(shapes) => match tuple_at(s, shapes@) {
            (Ok(items), rest) => (Ok(ValueModel::TupleVariant(name, items)), rest),
            (Err(e), rest) => (Err(e), rest),
        },
        Variant::Struct(fields) => match struct_at(s, fields@) {
            (Ok(entries), rest) => (Ok(ValueModel::StructVariant(name, entries)), rest),
            (Err(e), rest) => (Err(e), rest),
        },
    }
}

/// The model of what a decoder of several values returns.
pub open spec fn outcomes(r: Result<Vec<Value>, Errors>) -> Result<Seq<ValueModel>, Errors> {
    match r {
        Ok(items) => Ok(value_models(items@)),
        Err(e) => Err(e),
    }
}

/// The model of what a decoder of several entries returns.
pub open spec fn pair_outcomes(r: Result<Vec<(Value, Value)>, Errors>) -> Result<
    Seq<(ValueModel, ValueModel)>,
    Errors,
> {
    match r {
        Ok(entries) => Ok(pair_models(entries@)),
        Err(e) => Err(e),
    }
}

/// The first variant with a name is found where no variant before it has the name.
pub proof fn lemma_variant_index(variants: Seq<(String, Variant)>, name: Seq<char>, k: int)
    requires
        0 <= k <= variants.len(),
        forall|j: int| 0 <= j < k ==> (#[trigger] variants[j]).0@ != name,
        k < variants.len() ==> variants[k].0@ == name,
    ensures
        variant_index(variants, name) == if k < variants.len() {
            Some(k)
        } else {
            None::<int>
        },
    decreases k,
{
    if k > 0 {
        let rest = variants.drop_first();
        assert forall|j: int| 0 <= j < k - 1 implies (#[trigger] rest[j]).0@ != name by {
            assert(rest[j] == variants[j + 1]);
        }
        assert(variants[0].0@ != name);
        lemma_variant_index(rest, name, k - 1);
    }
}

/// Finds the first variant with the given name.
pub fn find_variant(variants: &Vec<(String, Variant)>, name: &str) -> (r: Option<usize>)
    ensures
        match r {
            Some(k) => k < variants.len() && variant_index(variants@, name@) == Some(k as int),
            None => variant_index(variants@, name@) is None,
        },
{
    let mut i: usize = 0;
    while i < variants.len()
        invariant
            i <= variants.len(),
            forall|j: int| 0 <= j < i ==> (#[trigger] variants@[j]).0@ != name@,
        decreases variants.len() - i,
    {
        if same_text(variants[i].0.as_str(), name) {
            proof {
                lemma_variant_index(variants@, name@, i as int);
            }
            return Some(i);
        }
        i += 1;
    }
    proof {
        lemma_variant_index(variants@, name@, variants.len() as int);
    }
    None
}

/// Reads the text and the position of a scalar that names a field or a variant.
pub fn key_from_token(t: Token) -> (r: Result<(String, Marker), Errors>)
    ensures
        r == key_of(t),
{
    match t {
        Ok((Event::Scalar(text, _, _, _), marker)) => Ok((text, marker)),
        t => Err(unexpected_token("Scalar", t)),
    }
}

/// The first field with a name is found where no field before it has the name.
pub proof fn lemma_field_index(fields: Seq<(String, Shape)>, name: Seq<char>, k: int)
    requires
        0 <= k <= fields.len(),
        forall|j: int| 0 <= j < k ==> (#[trigger] fields[j]).0@ != name,
        k < fields.len() ==> fields[k].0@ == name,
    ensures
        field_index(fields, name) == if k < fields.len() {
            Some(k)
        } else {
            None::<int>
        },
    decreases k,
{
    if k > 0 {
        let rest = fields.drop_first();
        assert forall|j: int| 0 <= j < k - 1 implies (#[trigger] rest[j]).0@ != name by {
            assert(rest[j] == fields[j + 1]);
        }
        assert(fields[0].0@ != name);
        lemma_field_index(rest, name, k - 1);
    }
}

/// Finds the first field with the given name.
pub fn find_field(fields: &Vec<(String, Shape)>, name: &str) -> (r: Option<usize>)
    ensures
        match r {
            Some(k) => k < fields.len() && field_index(fields@, name@) == Some(k as int),
            None => field_index(fields@, name@) is None,
        },
{
    let mut i: usize = 0;
    while i < fields.len()
        invariant
            i <= fields.len(),
            forall|j: int| 0 <= j < i ==> (#[trigger] fields@[j]).0@ != name@,
        decreases fields.len() - i,
    {
        if same_text(fields[i].0.as_str(), name) {
            proof {
                lemma_field_index(fields@, name@, i as int);
            }
            return Some(i);
        }
        i += 1;
    }
    proof {
        lemma_field_index(fields@, name@, fields.len() as int);
    }
    None
}

/// The models of the values that were read for some fields.
pub open spec fn slot_models(slots: Seq<Option<Value>>) -> Seq<Option<ValueModel>> {
    Seq::new(
        slots.len(),
        |i: int|
            match slots[i] {
                Some(v) => Some(v@),
                None => None,
            },
    )
}

/// Reads a value from one scalar: a boolean, a number, a character, a string, or a
/// unit for any other shape.
pub fn read_scalar(de: &mut YamlDeserializer, shape: &Shape) -> (r: Result<Value, Errors>)
    requires
        old(de).wf(),
    ensures
        final(de).wf(),
        outcome(r) == scalar_of(old(de)@[0], *shape),
        final(de)@ == advance(old(de)@),
        r is Ok ==> final(de)@.len() < old(de)@.len(),
        final(de)@.len() <= old(de)@.len(),
{
    proof {
        de.lemma_wf();
        lemma_advance_well_formed(de@);
    }
    match shape {
        Shape::Bool => match de.deserialize_bool() {
            Ok(b) => Ok(Value::Bool(b)),
            Err(e) => Err(e),
        },
        Shape::I8 => match de.deserialize_i8() {
            Ok(v) => Ok(Value::Int(v as i64)),
            Err(e) => Err(e),
        },
        Shape::I16 => match de.deserialize_i16() {
            Ok(v) => Ok(Value::Int(v as i64)),
            Err(e) => Err(e),
        },
        Shape::I32 => match de.deserialize_i32() {
            Ok(v) => Ok(Value::Int(v as i64)),
            Err(e) => Err(e),
        },
        Shape::I64 => match de.deserialize_i64() {
            Ok(v) => Ok(Value::Int(v)),
            Err(e) => Err(e),
        },
        Shape::U8 => match de.deserialize_u8() {
            Ok(v) => Ok(Value::UInt(v as u64)),
            Err(e) => Err(e),
        },
        Shape::U16 => match de.deserialize_u16() {
            Ok(v) => Ok(Value::UInt(v as u64)),
            Err(e) => Err(e),
        },
        Shape::U32 => match de.deserialize_u32() {
            Ok(v) => Ok(Value::UInt(v as u64)),
            Err(e) => Err(e),
        },
        Shape::U64 => match de.deserialize_u64() {
            Ok(v) => Ok(Value::UInt(v)),
            Err(e) => Err(e),
        },
        Shape::Real => match de.deserialize_real() {
            Ok(text) => Ok(Value::Real(text)),
            Err(e) => Err(e),
        },
        Shape::Char => match de.deserialize_char() {
            Ok(c) => {
                proof {
                    lemma_char_model(c);
                }
                Ok(Value::Char(c))
            },
            Err(e) => Err(e),
        },
        Shape::Text => match de.deserialize_string() {
            Ok(text) => Ok(Value::Text(text)),
            Err(e) => Err(e),
        },
        _ => match de.deserialize_unit() {
            Ok(()) => Ok(Value::Null),
            Err(e) => Err(e),
        },
    }
}

/// Reads a value of the given shape from the decoder.
pub fn read_value(de: &mut YamlDeserializer, shape: &Shape) -> (r: Result<Value, Errors>)
    requires
        old(de).wf(),
    ensures
        final(de).wf(),
        value_at(old(de)@, *shape) == (outcome(r), final(de)@),
        r is Ok ==> final(de)@.len() < old(de)@.len(),
        final(de)@.len() <= old(de)@.len(),
    decreases shape, 0int,
{
    let ghost s = de@;
    proof {
        de.lemma_wf();
        lemma_advance_well_formed(s);
    }
    match shape {
        Shape::Str => match de.deserialize_str() {
            Ok(()) => Ok(Value::Null),
            Err(e) => Err(e),
        },
        Shape::Bytes => match de.deserialize_bytes() {
            Ok(()) => Ok(Value::Null),
            Err(e) => Err(e),
        },
        Shape::Optional(inner) => {
            let r = match de.deserialize_option() {
                Err(e) => Err(e),
                Ok(true) => Ok(Value::Null),
                Ok(false) => read_value(de, inner),
            };
            r
        },
        Shape::Sequence(element) => {
            match de.deserialize_seq() {
                Ok(()) => {},
                Err(e) => {
                    return Err(e);
                },
            }
            let ghost inner = de@;
            let mut items: Vec<Value> = Vec::new();
            loop
                invariant
                    de.wf(),
                    s == old(de)@,
                    *shape == Shape::Sequence(*element),
                    sequence_start_of(s[0]) is Ok,
                    inner == advance(s),
                    s.len() > 1,
                    de@.len() <= inner.len(),
                    values_at(inner, **element) == match values_at(de@, **element) {
                        (Ok(others), after) => (
                            Ok::<Seq<ValueModel>, Errors>(value_models(items@) + others),
                            after,
                        ),
                        (Err(e), after) => (Err(e), after),
                    },
                decreases de@.len(),
            {
                let ghost here = de@;
                let ghost before = items@;
                proof {
                    de.lemma_wf();
                    lemma_advance_well_formed(here);
                }
                if !de.next_element() {
                    let r = de.end_seq("Expected SequenceEnd");
                    proof {
                        assert(value_models(items@) + Seq::<ValueModel>::empty() =~= value_models(
                            items@,
                        ));
                    }
                    return match r {
                        Ok(()) => Ok(Value::Sequence(items)),
                        Err(e) => Err(e),
                    };
                }
                proof {
                    assert(decreases_to!(*shape => shape->Sequence_0));
                }
                match read_value(de, element) {
                    Err(e) => {
                        return Err(e);
                    },
                    Ok(v) => {
                        items.push(v);
                        proof {
                            assert(items@.drop_last() =~= before);
                            match values_at(de@, **element) {
                                (Ok(others), after) => {
                                    assert(value_models(items@) + others =~= value_models(before)
                                        + (seq![v@] + others));
                                },
                                (Err(e), after) => {},
                            }
                        }
                    },
                }
            }
        },
        Shape::Tuple(shapes) => {
            let r = match read_tuple(de, shapes) {
                Ok(items) => Ok(Value::Sequence(items)),
                Err(e) => Err(e),
            };
            r
        },
        Shape::Mapping(key, value) => {
            match de.deserialize_map() {
                Ok(()) => {},
                Err(e) => {
                    return Err(e);
                },
            }
            let ghost inner = de@;
            let mut entries: Vec<(Value, Value)> = Vec::new();
            loop
                invariant
                    de.wf(),
                    s == old(de)@,
                    *shape == Shape::Mapping(*key, *value),
                    mapping_start_of(s[0]) is Ok,
                    inner == s.drop_first(),
                    s.len() > 1,
                    de@.len() <= inner.len(),
                    pairs_at(inner, *shape) == match pairs_at(de@, *shape) {
                        (Ok(others), after) => (
                            Ok::<Seq<(ValueModel, ValueModel)>, Errors>(
                                pair_models(entries@) + others,
                            ),
                            after,
                        ),
                        (Err(e), after) => (Err(e), after),
                    },
                decreases de@.len(),
            {
                let ghost here = de@;
                let ghost before = entries@;
                proof {
                    de.lemma_wf();
                    lemma_advance_well_formed(here);
                }
                if !de.next_key() {
                    let r = de.end_map();
                    proof {
                        assert(pair_models(entries@) + Seq::<(ValueModel, ValueModel)>::empty()
                            =~= pair_models(entries@));
                    }
                    return match r {
                        Ok(()) => Ok(Value::Mapping(entries)),
                        Err(e) => Err(e),
                    };
                }
                proof {
                    assert(decreases_to!(*shape => shape->Mapping_0));
                    assert(decreases_to!(*shape => shape->Mapping_1));
                }
                let k = match read_value(de, key) {
                    Err(e) => {
                        return Err(e);
                    },
                    Ok(k) => k,
                };
                let v = match read_value(de, value) {
                    Err(e) => {
                        return Err(e);
                    },
                    Ok(v) => v,
                };
                let ghost pair = (k@, v@);
                entries.push((k, v));
                proof {
                    assert(entries@.drop_last() =~= before);
                    match pairs_at(de@, *shape) {
                        (Ok(others), after) => {
                            assert(pair_models(entries@) + others =~= pair_models(before) + (
                            seq![pair] + others));
                        },
                        (Err(e), after) => {},
                    }
                }
            }
        },
        Shape::Struct(fields) => {
            let r = match read_struct(de, fields) {
                Ok(entries) => Ok(Value::Mapping(entries)),
                Err(e) => Err(e),
            };
            r
        },
        Shape::Enum(variants) => {
            match de.deserialize_enum("") {
                Ok(()) => {},
                Err(e) => {
                    return Err(e);
                },
            }
            proof {
                de.lemma_wf();
                lemma_advance_well_formed(de@);
            }
            let (name, marker) = match key_from_token(de.next_token()) {
                Ok(key) => key,
                Err(e) => {
                    return Err(e);
                },
            };
            let k = match find_variant(variants, name.as_str()) {
                Some(k) => k,
                None => {
                    return Err(Errors::UnexpectedScalarValueError("Variant name", name, marker));
                },
            };
            let v = match read_payload(de, name, &variants[k].1) {
                Ok(v) => v,
                Err(e) => {
                    return Err(e);
                },
            };
            proof {
                de.lemma_wf();
                lemma_advance_well_formed(de@);
            }
            let r = match de.end_enum() {
                Ok(()) => Ok(v),
                Err(e) => Err(e),
            };
            r
        },
        Shape::Any => {
            let r = match YamlNodeWrapper::deserialize(de) {
                Ok(node) => Ok(Value::Dynamic(node)),
                Err(e) => Err(e),
            };
            r
        },
        _ => read_scalar(de, shape),
    }
}

/// Reads a value for each place of a tuple.
pub fn read_places(de: &mut YamlDeserializer, shapes: &Vec<Shape>) -> (r: Result<
    Vec<Value>,
    Errors,
>)
    requires
        old(de).wf(),
    ensures
        final(de).wf(),
        places_at(old(de)@, shapes@) == (outcomes(r), final(de)@),
        final(de)@.len() <= old(de)@.len(),
    decreases shapes, 0int,
{
    let ghost s = de@;
    let mut items: Vec<Value> = Vec::new();
    let mut i: usize = 0;
    assert(shapes@.skip(0) =~= shapes@);
    while i < shapes.len()
        invariant
            i <= shapes.len(),
            de.wf(),
            s == old(de)@,
            de@.len() <= s.len(),
            places_at(s, shapes@) == match places_at(de@, shapes@.skip(i as int)) {
                (Ok(others), after) => (
                    Ok::<Seq<ValueModel>, Errors>(value_models(items@) + others),
                    after,
                ),
                (Err(e), after) => (Err(e), after),
            },
        decreases shapes.len() - i,
    {
        let ghost before = items@;
        proof {
            assert(shapes@.skip(i as int)[0] == shapes@[i as int]);
            assert(shapes@.skip(i as int).drop_first() =~= shapes@.skip(i + 1));
            assert(decreases_to!(*shapes => shapes@));
            assert(decreases_to!(shapes@ => shapes@[i as int]));
        }
        match read_value(de, &shapes[i]) {
            Err(e) => {
                return Err(e);
            },
            Ok(v) => {
                items.push(v);
                proof {
                    assert(items@.drop_last() =~= before);
                    match places_at(de@, shapes@.skip(i + 1)) {
                        (Ok(others), after) => {
                            assert(value_models(items@) + others =~= value_models(before) + (
                            seq![v@] + others));
                        },
                        (Err(e), after) => {},
                    }
                }
            },
        }
        i += 1;
    }
    proof {
        assert(shapes@.skip(shapes.len() as int) =~= Seq::<Shape>::empty());
        assert(value_models(items@) + Seq::<ValueModel>::empty() =~= value_models(items@));
    }
    Ok(items)
}

/// Reads a tuple: the start of a sequence, a value for each place, and the end of
/// the sequence.
pub fn read_tuple(de: &mut YamlDeserializer, shapes: &Vec<Shape>) -> (r: Result<
    Vec<Value>,
    Errors,
>)
    requires
        old(de).wf(),
    ensures
        final(de).wf(),
        tuple_at(old(de)@, shapes@) == (outcomes(r), final(de)@),
        r is Ok ==> final(de)@.len() < old(de)@.len(),
        final(de)@.len() <= old(de)@.len(),
    decreases shapes, 1int,
{
    proof {
        de.lemma_wf();
        lemma_advance_well_formed(de@);
    }
    match de.deserialize_tuple(shapes.len()) {
        Ok(()) => {},
        Err(e) => {
            return Err(e);
        },
    }
    let items = match read_places(de, shapes) {
        Ok(items) => items,
        Err(e) => {
            return Err(e);
        },
    };
    proof {
        de.lemma_wf();
        lemma_advance_well_formed(de@);
    }
    match de.end_seq("Expected SequenceEnd") {
        Ok(()) => Ok(items),
        Err(e) => Err(e),
    }
}

/// Whether a shape is that of an optional value.
pub fn is_optional(shape: &Shape) -> (r: bool)
    ensures
        r == (*shape is Optional),
{
    match shape {
        Shape::Optional(_) => true,
        _ => false,
    }
}

/// Reads the values of the fields of a struct up to the end of the mapping, each to
/// the place of its field.
pub fn read_slots(de: &mut YamlDeserializer, fields: &Vec<(String, Shape)>) -> (r: Result<
    Vec<Option<Value>>,
    Errors,
>)
    requires
        old(de).wf(),
    ensures
        final(de).wf(),
        slots_at(old(de)@, fields@, no_slots(fields@.len())) == (
            match r {
                Ok(slots) => Ok::<Seq<Option<ValueModel>>, Errors>(slot_models(slots@)),
                Err(e) => Err(e),
            },
            final(de)@,
        ),
        r matches Ok(slots) ==> slots.len() == fields.len(),
        final(de)@.len() <= old(de)@.len(),
    decreases fields, 0int,
{
    let ghost s = de@;
    let n = fields.len();
    let mut slots: Vec<Option<Value>> = Vec::new();
    while slots.len() < n
        invariant
            slots.len() <= n,
            forall|j: int| 0 <= j < slots.len() ==> #[trigger] slots@[j] is None,
        decreases n - slots.len(),
    {
        slots.push(None);
    }
    assert(slot_models(slots@) =~= no_slots(n as nat));
    loop
        invariant
            de.wf(),
            s == old(de)@,
            n == fields.len(),
            slots.len() == n,
            de@.len() <= s.len(),
            slots_at(s, fields@, no_slots(n as nat)) == slots_at(
                de@,
                fields@,
                slot_models(slots@),
            ),
        decreases de@.len(),
    {
        let ghost here = de@;
        let ghost before = slots@;
        proof {
            de.lemma_wf();
            lemma_advance_well_formed(here);
        }
        if !de.next_key() {
            return Ok(slots);
        }
        let (name, marker) = match key_from_token(de.next_token()) {
            Ok(key) => key,
            Err(e) => {
                return Err(e);
            },
        };
        proof {
            de.lemma_wf();
            lemma_advance_well_formed(de@);
        }
        match find_field(fields, name.as_str()) {
            None => {
                match read_node(de) {
                    Ok(_) => {},
                    Err(e) => {
                        return Err(e);
                    },
                }
            },
            Some(k) => {
                if slots[k].is_some() {
                    return Err(
                        Errors::UnexpectedScalarValueError(
                            "Field that was not read before",
                            name,
                            marker,
                        ),
                    );
                }
                proof {
                    assert(decreases_to!(*fields => fields@));
                    assert(decreases_to!(fields@ => fields@[k as int]));
                    assert(decreases_to!(fields@[k as int] => fields@[k as int].1));
                }
                match read_value(de, &fields[k].1) {
                    Ok(v) => {
                        let ghost model = v@;
                        slots.set(k, Some(v));
                        assert(slot_models(slots@) =~= slot_models(before).update(
                            k as int,
                            Some(model),
                        ));
                    },
                    Err(e) => {
                        return Err(e);
                    },
                }
            },
        }
    }
}

/// Reads the fields of a struct: the keys in any order, the entries in the order of
/// the fields.
pub fn read_fields(de: &mut YamlDeserializer, fields: &Vec<(String, Shape)>) -> (r: Result<
    Vec<(Value, Value)>,
    Errors,
>)
    requires
        old(de).wf(),
    ensures
        final(de).wf(),
        fields_at(old(de)@, fields@) == (pair_outcomes(r), final(de)@),
        final(de)@.len() <= old(de)@.len(),
    decreases fields, 1int,
{
    let mut slots = match read_slots(de, fields) {
        Ok(slots) => slots,
        Err(e) => {
            return Err(e);
        },
    };
    let ghost filled = slot_models(slots@);
    let n = fields.len();
    let mut entries: Vec<(Value, Value)> = Vec::new();
    let mut i: usize = 0;
    assert(fields@.skip(0) =~= fields@);
    assert(filled.skip(0) =~= filled);
    while i < n
        invariant
            i <= n,
            n == fields.len(),
            slots.len() == n,
            filled.len() == n,
            de.wf(),
            de@.len() <= old(de)@.len(),
            slots_at(old(de)@, fields@, no_slots(fields@.len())) == (
                Ok::<Seq<Option<ValueModel>>, Errors>(filled),
                de@,
            ),
            forall|j: int| i <= j < n ==> slot_models(slots@)[j] == #[trigger] filled[j],
            entries_of(fields@, filled) == match entries_of(
                fields@.skip(i as int),
                filled.skip(i as int),
            ) {
                Ok(others) => Ok::<Seq<(ValueModel, ValueModel)>, Errors>(
                    pair_models(entries@) + others,
                ),
                Err(e) => Err(e),
            },
        decreases n - i,
    {
        let ghost before = entries@;
        proof {
            assert(fields@.skip(i as int)[0] == fields@[i as int]);
            assert(filled.skip(i as int)[0] == filled[i as int]);
            assert(fields@.skip(i as int).drop_first() =~= fields@.skip(i + 1));
            assert(filled.skip(i as int).drop_first() =~= filled.skip(i + 1));
            assert(slot_models(slots@)[i as int] == filled[i as int]);
        }
        let slot = slots[i].take();
        let value = match slot {
            Some(v) => v,
            None => {
                if is_optional(&fields[i].1) {
                    Value::Null
                } else {
                    return Err(Errors::Custom("Missing field"));
                }
            },
        };
        let key = Value::Text(fields[i].0.clone());
        let ghost pair = (key@, value@);
        entries.push((key, value));
        proof {
            assert(entries@.drop_last() =~= before);
            match entries_of(fields@.skip(i + 1), filled.skip(i + 1)) {
                Ok(others) => {
                    assert(pair_models(entries@) + others =~= pair_models(before) + (seq![pair]
                        + others));
                },
                Err(e) => {},
            }
        }
        i += 1;
    }
    proof {
        assert(fields@.skip(n as int) =~= Seq::<(String, Shape)>::empty());
        assert(pair_models(entries@) + Seq::<(ValueModel, ValueModel)>::empty() =~= pair_models(
            entries@,
        ));
    }
    Ok(entries)
}

/// Reads a struct: the start of a mapping, the fields in order, and the end of the
/// mapping.
pub fn read_struct(de: &mut YamlDeserializer, fields: &Vec<(String, Shape)>) -> (r: Result<
    Vec<(Value, Value)>,
    Errors,
>)
    requires
        old(de).wf(),
    ensures
        final(de).wf(),
        struct_at(old(de)@, fields@) == (pair_outcomes(r), final(de)@),
        r is Ok ==> final(de)@.len() < old(de)@.len(),
        final(de)@.len() <= old(de)@.len(),
    decreases fields, 2int,
{
    proof {
        de.lemma_wf();
        lemma_advance_well_formed(de@);
    }
    match de.deserialize_struct("") {
        Ok(()) => {},
        Err(e) => {
            return Err(e);
        },
    }
    let entries = match read_fields(de, fields) {
        Ok(entries) => entries,
        Err(e) => {
            return Err(e);
        },
    };
    proof {
        de.lemma_wf();
        lemma_advance_well_formed(de@);
    }
    match de.end_map() {
        Ok(()) => Ok(entries),
        Err(e) => Err(e),
    }
}

/// Reads the payload of the variant with the given name.
pub fn read_payload(de: &mut YamlDeserializer, name: String, variant: &Variant) -> (r: Result<
    Value,
    Errors,
>)
    requires
        old(de).wf(),
    ensures
        final(de).wf(),
        payload_at(old(de)@, name@, *variant) == (outcome(r), final(de)@),
        final(de)@.len() <= old(de)@.len(),
    decreases variant, 2int,
{
    proof {
        de.lemma_wf();
        lemma_advance_well_formed(de@);
    }
    match variant {
        Variant::Unit => match de.unit_variant() {
            Ok(()) => Ok(Value::UnitVariant(name)),
            Err(e) => Err(e),
        },
        Variant::Newtype(shape) => match read_value(de, shape) {
            Ok(v) => Ok(Value::NewtypeVariant(name, Box::new(v))),
            Err(e) => Err(e),
        },
        Variant::Tuple(shapes) => match read_tuple(de, shapes) {
            Ok(items) => Ok(Value::TupleVariant(name, items)),
            Err(e) => Err(e),
        },
        Variant::Struct(fields) => match read_struct(de, fields) {
            Ok(entries) => Ok(Value::StructVariant(name, entries)),
            Err(e) => Err(e),
        },
    }
}

/// Decodes a text into a value of the given shape.
pub fn from_str(data: &str, shape: &Shape) -> (r: Result<Value, Errors>)
    ensures
        match behind_preamble(yaml_events(data@)) {
            Ok(s) => outcome(r) == value_at(s, *shape).0,
            Err(e) => r == Err::<Value, Errors>(e),
        },
{
    let mut deserializer = match YamlDeserializer::from_str(data) {
        Ok(deserializer) => deserializer,
        Err(e) => {
            return Err(e);
        },
    };
    read_value(&mut deserializer, shape)
}

} // verus!
