//! Typed values as the codec sees them, and their text form.

use crate::ser::{
    bool_text, element_head, entry_tail, key_tail, null_text, str_text, variant_head, Errors,
    MapSerializer, SequenceSerializer, YamlSerializer,
};
use crate::text::{decimal_text, is_real_numeral, real_numeral};
use crate::wrapper::{
    no_real_number, node_fits, node_text, not_representable, representable, too_deep,
    NodeModel, YamlNodeWrapper,
};
use vstd::prelude::*;

verus! {

/// A typed value, as far as the codec tells values apart. A unit, a unit struct and
/// an absent optional value are all `Null`; a present optional value and a newtype
/// struct are the value inside; a tuple is a sequence; a struct is a mapping whose
/// keys are the names of its fields.
#[derive(Debug, PartialEq)]
pub enum Value {
    /// A boolean.
    Bool(bool),
    /// An integer with a sign.
    Int(i64),
    /// An integer without a sign.
    UInt(u64),
    /// A real number, as its decimal text.
    Real(String),
    /// A character.
    Char(char),
    /// A string.
    Text(String),
    /// Raw bytes.
    Bytes(Vec<u8>),
    /// Nothing.
    Null,
    /// A sequence.
    Sequence(Vec<Value>),
    /// A mapping, as its entries in order.
    Mapping(Vec<(Value, Value)>),
    /// A variant without a payload, by its name.
    UnitVariant(String),
    /// A variant with one value.
    NewtypeVariant(String, Box<Value>),
    /// A variant with a tuple of values.
    TupleVariant(String, Vec<Value>),
    /// A variant with named fields, as entries in order.
    StructVariant(String, Vec<(Value, Value)>),
    /// An untyped node.
    Dynamic(YamlNodeWrapper),
}

/// The mathematical model of a value.
pub enum ValueModel {
    Bool(bool),
    Int(i64),
    UInt(u64),
    Real(Seq<char>),
    Char(char),
    Text(Seq<char>),
    Bytes(Seq<u8>),
    Null,
    Sequence(Seq<ValueModel>),
    Mapping(Seq<(ValueModel, ValueModel)>),
    UnitVariant(Seq<char>),
    NewtypeVariant(Seq<char>, Box<ValueModel>),
    TupleVariant(Seq<char>, Seq<ValueModel>),
    StructVariant(Seq<char>, Seq<(ValueModel, ValueModel)>),
    Dynamic(NodeModel),
}

/// The model of a value.
pub open spec fn value_model(v: Value) -> ValueModel
    decreases v,
{
    match v {
        Value::Bool(b) => ValueModel::Bool(b),
        Value::Int(i) => ValueModel::Int(i),
        Value::UInt(u) => ValueModel::UInt(u),
        Value::Real(text) => ValueModel::Real(text@),
        Value::Char(c) => ValueModel::Char(c),
        Value::Text(text) => ValueModel::Text(text@),
        Value::Bytes(bytes) => ValueModel::Bytes(bytes@),
        Value::Null => ValueModel::Null,
        Value::Sequence(items) => ValueModel::Sequence(value_models(items@)),
        Value::Mapping(entries) => ValueModel::Mapping(pair_models(entries@)),
        Value::UnitVariant(name) => ValueModel::UnitVariant(name@),
        Value::NewtypeVariant(name, inner) => ValueModel::NewtypeVariant(
            name@,
            Box::new(value_model(*inner)),
        ),
        Value::TupleVariant(name, items) => ValueModel::TupleVariant(name@, value_models(items@)),
        Value::StructVariant(name, fields) => ValueModel::StructVariant(
            name@,
            pair_models(fields@),
        ),
        Value::Dynamic(node) => ValueModel::Dynamic(node@),
    }
}

/// The models of some values, in order.
pub open spec fn value_models(items: Seq<Value>) -> Seq<ValueModel>
    decreases items,
{
    if items.len() == 0 {
        Seq::empty()
    } else {
        value_models(items.drop_last()).push(value_model(items.last()))
    }
}

/// The models of some pairs of values, in order.
pub open spec fn pair_models(entries: Seq<(Value, Value)>) -> Seq<(ValueModel, ValueModel)>
    decreases entries,
{
    if entries.len() == 0 {
        Seq::empty()
    } else {
        pair_models(entries.drop_last()).push(
            (value_model(entries.last().0), value_model(entries.last().1)),
        )
    }
}

impl View for Value {
    type V = ValueModel;

    open spec fn view(&self) -> ValueModel {
        value_model(*self)
    }
}

/// The model of a character is the character.
pub proof fn lemma_char_model(c: char)
    ensures
        value_model(Value::Char(c)) == ValueModel::Char(c),
{
}

/// The models of some values are as many, and stand at the same places.
pub proof fn lemma_value_models(items: Seq<Value>)
    ensures
        value_models(items).len() == items.len(),
        forall|j: int|
            0 <= j < items.len() ==> value_models(items)[j] == value_model(#[trigger] items[j]),
    decreases items.len(),
{
    if items.len() > 0 {
        lemma_value_models(items.drop_last());
        assert forall|j: int| 0 <= j < items.len() implies value_models(items)[j] == value_model(
            #[trigger] items[j],
        ) by {
            if j < items.len() - 1 {
                assert(items.drop_last()[j] == items[j]);
            }
        }
    }
}

/// The models of some pairs are as many, and stand at the same places.
pub proof fn lemma_pair_models(entries: Seq<(Value, Value)>)
    ensures
        pair_models(entries).len() == entries.len(),
        forall|j: int|
            0 <= j < entries.len() ==> pair_models(entries)[j] == (
                value_model((#[trigger] entries[j]).0),
                value_model(entries[j].1),
            ),
    decreases entries.len(),
{
    if entries.len() > 0 {
        lemma_pair_models(entries.drop_last());
        assert forall|j: int| 0 <= j < entries.len() implies pair_models(entries)[j] == (
            value_model((#[trigger] entries[j]).0),
            value_model(entries[j].1),
        ) by {
            if j < entries.len() - 1 {
                assert(entries.drop_last()[j] == entries[j]);
            }
        }
    }
}

/// Whether a value has a text form at `level`. Raw bytes have none, nor has a real
/// number whose text is no numeral, nor a node with an alias or a bad value, nor a
/// value whose parts go deeper than the encoder counts.
pub open spec fn value_fits(v: ValueModel, level: int) -> bool
    decreases v,
{
    match v {
        ValueModel::Real(text) => is_real_numeral(text),
        ValueModel::Text(_) => level < i32::MAX,
        ValueModel::Bytes(_) => false,
        ValueModel::Sequence(items) => values_fit(items, level),
        ValueModel::Mapping(entries) => pairs_fit(entries, level),
        ValueModel::NewtypeVariant(_, inner) => level < i32::MAX && value_fits(*inner, level + 1),
        ValueModel::TupleVariant(_, items) => items.len() == 0 || (level < i32::MAX && values_fit(
            items,
            level + 1,
        )),
        ValueModel::StructVariant(_, fields) => level < i32::MAX && pairs_fit(fields, level + 1),
        ValueModel::Dynamic(node) => representable(node) && node_fits(node, level),
        _ => true,
    }
}

/// Whether the elements of a sequence at `level` have a text form.
pub open spec fn values_fit(items: Seq<ValueModel>, level: int) -> bool
    decreases items,
{
    items.len() == 0 || (values_fit(items.drop_last(), level) && level < i32::MAX && value_fits(
        items.last(),
        level + 1,
    ))
}

/// Whether the entries of a mapping at `level` have a text form.
pub open spec fn pairs_fit(entries: Seq<(ValueModel, ValueModel)>, level: int) -> bool
    decreases entries,
{
    entries.len() == 0 || (pairs_fit(entries.drop_last(), level) && value_fits(
        entries.last().0,
        level,
    ) && level < i32::MAX && value_fits(entries.last().1, level + 1))
}

/// The text form of a value at `level`.
pub open spec fn value_text(v: ValueModel, level: int) -> Seq<char>
    decreases v,
{
    match v {
        ValueModel::Bool(b) => bool_text(b),
        ValueModel::Int(i) => decimal_text(i as int),
        ValueModel::UInt(u) => decimal_text(u as int),
        ValueModel::Real(text) => text,
        ValueModel::Char(c) => seq![c],
        ValueModel::Text(text) => str_text(text, level),
        ValueModel::Bytes(_) => Seq::empty(),
        ValueModel::Null => null_text(),
        ValueModel::Sequence(items) => if items.len() == 0 {
            seq!['[', ']']
        } else {
            elements_text(items, level)
        },
        ValueModel::Mapping(entries) => entries_text(entries, level),
        ValueModel::UnitVariant(name) => name + seq![':', ' '] + null_text(),
        ValueModel::NewtypeVariant(name, inner) => variant_head(name, level) + value_text(
            *inner,
            level + 1,
        ),
        ValueModel::TupleVariant(name, items) => if items.len() == 0 {
            name + seq![':', ' ', '[', ']']
        } else {
            variant_head(name, level) + elements_text(items, level + 1)
        },
        ValueModel::StructVariant(name, fields) => variant_head(name, level) + entries_text(
            fields,
            level + 1,
        ),
        ValueModel::Dynamic(node) => node_text(node, level),
    }
}

/// The elements of a sequence at `level`: each behind a dash on a line of its own,
/// a level deeper, and closed by a new line at `level`.
pub open spec fn elements_text(items: Seq<ValueModel>, level: int) -> Seq<char>
    decreases items,
{
    if items.len() == 0 {
        Seq::empty()
    } else {
        elements_text(items.drop_last(), level) + element_head(level) + value_text(
            items.last(),
            level + 1,
        ) + entry_tail(level)
    }
}

/// The entries of a mapping at `level`: the key, a colon, the value on a line of its
/// own, a level deeper, and a new line at `level`.
pub open spec fn entries_text(entries: Seq<(ValueModel, ValueModel)>, level: int) -> Seq<char>
    decreases entries,
{
    if entries.len() == 0 {
        Seq::empty()
    } else {
        entries_text(entries.drop_last(), level) + value_text(entries.last().0, level) + key_tail(
            level,
        ) + value_text(entries.last().1, level + 1) + entry_tail(level)
    }
}

/// What holds of all of some values holds of each, and of those before any place.
pub proof fn lemma_values_each(items: Seq<ValueModel>, level: int, k: int)
    requires
        0 <= k < items.len(),
    ensures
        values_fit(items, level) ==> level < i32::MAX && value_fits(items[k], level + 1)
            && values_fit(items.take(k), level),
    decreases items.len(),
{
    if k < items.len() - 1 {
        lemma_values_each(items.drop_last(), level, k);
        assert(items.drop_last().take(k) =~= items.take(k));
    } else {
        assert(items.drop_last() =~= items.take(k));
    }
}

/// What holds of all of some pairs holds of each, and of those before any place.
pub proof fn lemma_pairs_each(entries: Seq<(ValueModel, ValueModel)>, level: int, k: int)
    requires
        0 <= k < entries.len(),
    ensures
        pairs_fit(entries, level) ==> level < i32::MAX && value_fits(entries[k].0, level)
            && value_fits(entries[k].1, level + 1) && pairs_fit(entries.take(k), level),
    decreases entries.len(),
{
    if k < entries.len() - 1 {
        lemma_pairs_each(entries.drop_last(), level, k);
        assert(entries.drop_last().take(k) =~= entries.take(k));
    } else {
        assert(entries.drop_last() =~= entries.take(k));
    }
}

/// Writes the text form of a value.
pub fn write_value(v: &Value, ser: &mut YamlSerializer) -> (r: Result<(), Errors>)
    requires
        old(ser).level() >= 0,
    ensures
        r is Ok <==> value_fits(v@, old(ser).level()),
        r is Ok ==> final(ser).text() == old(ser).text() + value_text(v@, old(ser).level())
            && final(ser).level() == old(ser).level(),
        r matches Err(e) ==> e is UnsupportedSerializationError,
        v@ is Bytes ==> (r matches Err(Errors::UnsupportedSerializationError(message))
            && message@ == "Serialization of bytes is not supported"@),
    decreases v, 0int,
{
    let ghost level = ser.level();
    let ghost start = ser.text();
    match v {
        Value::Bool(b) => ser.serialize_bool(*b),
        Value::Int(i) => ser.serialize_i64(*i),
        Value::UInt(u) => ser.serialize_u64(*u),
        Value::Real(text) => {
            if !real_numeral(text.as_str()) {
                return Err(no_real_number());
            }
            ser.serialize_real(text.as_str())
        },
        Value::Char(c) => ser.serialize_char(*c),
        Value::Text(text) => {
            if !ser.can_nest() {
                return Err(too_deep());
            }
            ser.serialize_str(text.as_str())
        },
        Value::Bytes(bytes) => ser.serialize_bytes(bytes.as_slice()),
        Value::Null => ser.serialize_none(),
        Value::Sequence(items) => {
            let mut seq = match ser.serialize_seq(Some(items.len())) {
                Ok(seq) => seq,
                Err(e) => {
                    return Err(e);
                },
            };
            proof {
                lemma_value_models(items@);
            }
            match write_elements(items, &mut seq, ser) {
                Ok(()) => {},
                Err(e) => {
                    return Err(e);
                },
            }
            let r = seq.end(ser);
            proof {
                let models = value_models(items@);
                assert(v@ == ValueModel::Sequence(models));
                if items.len() == 0 {
                    assert(elements_text(models, level) =~= Seq::<char>::empty());
                    assert(ser.text() =~= start + seq!['[', ']']);
                } else {
                    assert(ser.text() =~= start + elements_text(models, level));
                }
            }
            r
        },
        Value::Mapping(entries) => {
            let mut map = match ser.serialize_map(Some(entries.len())) {
                Ok(map) => map,
                Err(e) => {
                    return Err(e);
                },
            };
            match write_entries(entries, &mut map, ser) {
                Ok(()) => {},
                Err(e) => {
                    return Err(e);
                },
            }
            let r = map.end(ser);
            assert(ser.text() =~= start + value_text(v@, level));
            r
        },
        Value::UnitVariant(name) => {
            let r = ser.serialize_unit_variant("", 0, name.as_str());
            assert(ser.text() =~= start + value_text(v@, level));
            r
        },
        Value::NewtypeVariant(name, inner) => {
            if !ser.can_nest() {
                return Err(too_deep());
            }
            ser.begin_variant(name.as_str());
            match write_value(inner, ser) {
                Ok(()) => {},
                Err(e) => {
                    return Err(e);
                },
            }
            ser.decr_level();
            assert(ser.text() =~= start + value_text(v@, level));
            Ok(())
        },
        Value::TupleVariant(name, items) => {
            proof {
                lemma_value_models(items@);
            }
            if items.len() > 0 && !ser.can_nest() {
                return Err(too_deep());
            }
            let mut seq = match ser.serialize_tuple_variant("", 0, name.as_str(), items.len()) {
                Ok(seq) => seq,
                Err(e) => {
                    return Err(e);
                },
            };
            match write_elements(items, &mut seq, ser) {
                Ok(()) => {},
                Err(e) => {
                    return Err(e);
                },
            }
            let r = seq.end_variant(ser);
            assert(ser.text() =~= start + value_text(v@, level));
            r
        },
        Value::StructVariant(name, fields) => {
            if !ser.can_nest() {
                return Err(too_deep());
            }
            let mut map = match ser.serialize_struct_variant("", 0, name.as_str(), fields.len()) {
                Ok(map) => map,
                Err(e) => {
                    return Err(e);
                },
            };
            match write_entries(fields, &mut map, ser) {
                Ok(()) => {},
                Err(e) => {
                    return Err(e);
                },
            }
            let r = map.end_variant(ser);
            assert(ser.text() =~= start + value_text(v@, level));
            r
        },
        Value::Dynamic(node) => {
            if !node.is_representable() {
                return Err(not_representable());
            }
            node.serialize(ser)
        },
    }
}

/// Writes the elements of a sequence.
pub fn write_elements(items: &Vec<Value>, seq: &mut SequenceSerializer, ser: &mut YamlSerializer) -> (r:
    Result<(), Errors>)
    requires
        old(ser).level() >= 0,
    ensures
        final(seq).len() == old(seq).len(),
        r is Ok <==> values_fit(value_models(items@), old(ser).level()),
        r is Ok ==> final(ser).text() == old(ser).text() + elements_text(
            value_models(items@),
            old(ser).level(),
        ) && final(ser).level() == old(ser).level(),
        r matches Err(e) ==> e is UnsupportedSerializationError,
    decreases items, 0int,
{
    let ghost level = ser.level();
    let ghost start = ser.text();
    let ghost models = value_models(items@);
    proof {
        lemma_value_models(items@);
    }
    let n = items.len();
    let mut i: usize = 0;
    assert(models.take(0) =~= Seq::<ValueModel>::empty());
    assert(start + elements_text(models.take(0), level) =~= start);
    while i < n
        invariant
            i <= n,
            n == items.len(),
            models == value_models(items@),
            models.len() == n,
            forall|j: int| 0 <= j < n ==> models[j] == (#[trigger] items@[j])@,
            values_fit(models.take(i as int), level),
            seq.len() == old(seq).len(),
            level >= 0,
            level == old(ser).level(),
            ser.level() == level,
            ser.text() == start + elements_text(models.take(i as int), level),
        decreases n - i,
    {
        proof {
            lemma_values_each(models, level, i as int);
            assert(models.take(i + 1).drop_last() =~= models.take(i as int));
            assert(models.take(i + 1).last() == models[i as int]);
            if i + 1 == n {
                assert(models.take(i + 1) =~= models);
            }
            assert(decreases_to!(*items => items@));
            assert(decreases_to!(items@ => items@[i as int]));
        }
        match seq.process_element(ser, &items[i]) {
            Ok(()) => {},
            Err(e) => {
                return Err(e);
            },
        }
        assert(ser.text() =~= start + elements_text(models.take(i + 1), level));
        i += 1;
    }
    assert(models.take(n as int) =~= models);
    Ok(())
}

/// Writes the entries of a mapping.
pub fn write_entries(
    entries: &Vec<(Value, Value)>,
    map: &mut MapSerializer,
    ser: &mut YamlSerializer,
) -> (r: Result<(), Errors>)
    requires
        old(ser).level() >= 0,
    ensures
        r is Ok <==> pairs_fit(pair_models(entries@), old(ser).level()),
        r is Ok ==> final(ser).text() == old(ser).text() + entries_text(
            pair_models(entries@),
            old(ser).level(),
        ) && final(ser).level() == old(ser).level(),
        r matches Err(e) ==> e is UnsupportedSerializationError,
    decreases entries, 0int,
{
    let ghost level = ser.level();
    let ghost start = ser.text();
    let ghost models = pair_models(entries@);
    proof {
        lemma_pair_models(entries@);
    }
    let n = entries.len();
    let mut i: usize = 0;
    assert(models.take(0) =~= Seq::<(ValueModel, ValueModel)>::empty());
    assert(start + entries_text(models.take(0), level) =~= start);
    while i < n
        invariant
            i <= n,
            n == entries.len(),
            models == pair_models(entries@),
            models.len() == n,
            forall|j: int|
                0 <= j < n ==> models[j] == ((#[trigger] entries@[j]).0@, entries@[j].1@),
            pairs_fit(models.take(i as int), level),
            level >= 0,
            level == old(ser).level(),
            ser.level() == level,
            ser.text() == start + entries_text(models.take(i as int), level),
        decreases n - i,
    {
        proof {
            lemma_pairs_each(models, level, i as int);
            assert(models.take(i + 1).drop_last() =~= models.take(i as int));
            assert(models.take(i + 1).last() == models[i as int]);
            if i + 1 == n {
                assert(models.take(i + 1) =~= models);
            }
            assert(decreases_to!(*entries => entries@));
            assert(decreases_to!(entries@ => entries@[i as int]));
            assert(decreases_to!(entries@[i as int] => entries@[i as int].0));
            assert(decreases_to!(entries@[i as int] => entries@[i as int].1));
        }
        match map.process_key(ser, &entries[i].0) {
            Ok(()) => {},
            Err(e) => {
                return Err(e);
            },
        }
        match map.process_value(ser, &entries[i].1) {
            Ok(()) => {},
            Err(e) => {
                return Err(e);
            },
        }
        assert(ser.text() =~= start + entries_text(models.take(i + 1), level));
        i += 1;
    }
    assert(models.take(n as int) =~= models);
    Ok(())
}

impl SequenceSerializer {
    /// Writes an element: a dash, the element a level deeper, and a new line.
    pub fn process_element(&mut self, ser: &mut YamlSerializer, value: &Value) -> (r: Result<
        (),
        Errors,
    >)
        requires
            old(ser).level() >= 0,
        ensures
            final(self).len() == old(self).len(),
            r is Ok <==> old(ser).level() < i32::MAX && value_fits(value@, old(ser).level() + 1),
            r is Ok ==> final(ser).text() == old(ser).text() + element_head(old(ser).level())
                + value_text(value@, old(ser).level() + 1) + entry_tail(old(ser).level())
                && final(ser).level() == old(ser).level(),
            r matches Err(e) ==> e is UnsupportedSerializationError,
        decreases value, 1int,
    {
        if !ser.can_nest() {
            return Err(too_deep());
        }
        self.begin_element(ser);
        match write_value(value, ser) {
            Ok(()) => {},
            Err(e) => {
                return Err(e);
            },
        }
        self.finish_element(ser)
    }

    /// Writes an element of a sequence or of a tuple.
    pub fn serialize_element(&mut self, ser: &mut YamlSerializer, value: &Value) -> (r: Result<
        (),
        Errors,
    >)
        requires
            old(ser).level() >= 0,
        ensures
            final(self).len() == old(self).len(),
            r is Ok <==> old(ser).level() < i32::MAX && value_fits(value@, old(ser).level() + 1),
            r is Ok ==> final(ser).text() == old(ser).text() + element_head(old(ser).level())
                + value_text(value@, old(ser).level() + 1) + entry_tail(old(ser).level())
                && final(ser).level() == old(ser).level(),
            r matches Err(e) ==> e is UnsupportedSerializationError,
    {
        self.process_element(ser, value)
    }

    /// Writes a field of a tuple struct or of a tuple variant.
    pub fn serialize_field(&mut self, ser: &mut YamlSerializer, value: &Value) -> (r: Result<
        (),
        Errors,
    >)
        requires
            old(ser).level() >= 0,
        ensures
            final(self).len() == old(self).len(),
            r is Ok <==> old(ser).level() < i32::MAX && value_fits(value@, old(ser).level() + 1),
            r is Ok ==> final(ser).text() == old(ser).text() + element_head(old(ser).level())
                + value_text(value@, old(ser).level() + 1) + entry_tail(old(ser).level())
                && final(ser).level() == old(ser).level(),
            r matches Err(e) ==> e is UnsupportedSerializationError,
    {
        self.process_element(ser, value)
    }
}

impl MapSerializer {
    /// Writes a key: the key, a colon, and the start of the value's line a level
    /// deeper.
    pub fn process_key(&mut self, ser: &mut YamlSerializer, key: &Value) -> (r: Result<(), Errors>)
        requires
            old(ser).level() >= 0,
        ensures
            r is Ok <==> value_fits(key@, old(ser).level()) && old(ser).level() < i32::MAX,
            r is Ok ==> final(ser).text() == old(ser).text() + value_text(key@, old(ser).level())
                + key_tail(old(ser).level()) && final(ser).level() == old(ser).level() + 1,
            r matches Err(e) ==> e is UnsupportedSerializationError,
        decreases key, 1int,
    {
        match write_value(key, ser) {
            Ok(()) => {},
            Err(e) => {
                return Err(e);
            },
        }
        if !ser.can_nest() {
            return Err(too_deep());
        }
        self.finish_key(ser)
    }

    /// Writes a value: the value, then a new line a level back.
    pub fn process_value(&mut self, ser: &mut YamlSerializer, value: &Value) -> (r: Result<
        (),
        Errors,
    >)
        requires
            old(ser).level() > 0,
        ensures
            r is Ok <==> value_fits(value@, old(ser).level()),
            r is Ok ==> final(ser).text() == old(ser).text() + value_text(
                value@,
                old(ser).level(),
            ) + entry_tail(old(ser).level() - 1) && final(ser).level() == old(ser).level() - 1,
            r matches Err(e) ==> e is UnsupportedSerializationError,
        decreases value, 1int,
    {
        match write_value(value, ser) {
            Ok(()) => {},
            Err(e) => {
                return Err(e);
            },
        }
        self.finish_value(ser)
    }

    /// Writes the key of an entry of a mapping.
    pub fn serialize_key(&mut self, ser: &mut YamlSerializer, key: &Value) -> (r: Result<
        (),
        Errors,
    >)
        requires
            old(ser).level() >= 0,
        ensures
            r is Ok <==> value_fits(key@, old(ser).level()) && old(ser).level() < i32::MAX,
            r is Ok ==> final(ser).text() == old(ser).text() + value_text(key@, old(ser).level())
                + key_tail(old(ser).level()) && final(ser).level() == old(ser).level() + 1,
            r matches Err(e) ==> e is UnsupportedSerializationError,
    {
        self.process_key(ser, key)
    }

    /// Writes the value of an entry of a mapping.
    pub fn serialize_value(&mut self, ser: &mut YamlSerializer, value: &Value) -> (r: Result<
        (),
        Errors,
    >)
        requires
            old(ser).level() > 0,
        ensures
            r is Ok <==> value_fits(value@, old(ser).level()),
            r is Ok ==> final(ser).text() == old(ser).text() + value_text(
                value@,
                old(ser).level(),
            ) + entry_tail(old(ser).level() - 1) && final(ser).level() == old(ser).level() - 1,
            r matches Err(e) ==> e is UnsupportedSerializationError,
    {
        self.process_value(ser, value)
    }

    /// Writes a field of a struct or of a struct variant: its name as a string, then
    /// its value.
    pub fn serialize_field(&mut self, ser: &mut YamlSerializer, key: &str, value: &Value) -> (r:
        Result<(), Errors>)
        requires
            old(ser).level() >= 0,
        ensures
            r is Ok <==> old(ser).level() < i32::MAX && value_fits(value@, old(ser).level() + 1),
            r is Ok ==> final(ser).text() == old(ser).text() + str_text(key@, old(ser).level())
                + key_tail(old(ser).level()) + value_text(value@, old(ser).level() + 1)
                + entry_tail(old(ser).level()) && final(ser).level() == old(ser).level(),
            r matches Err(e) ==> e is UnsupportedSerializationError,
    {
        if !ser.can_nest() {
            return Err(too_deep());
        }
        let _ = ser.serialize_str(key);
        let _ = self.finish_key(ser);
        self.process_value(ser, value)
    }
}

impl YamlSerializer {
    /// Writes the text form of a value behind what was written.
    pub fn write(&mut self, data: &Value) -> (r: Result<(), Errors>)
        requires
            old(self).level() >= 0,
        ensures
            r is Ok <==> value_fits(data@, old(self).level()),
            r is Ok ==> final(self).text() == old(self).text() + value_text(
                data@,
                old(self).level(),
            ) && final(self).level() == old(self).level(),
            r matches Err(e) ==> e is UnsupportedSerializationError,
            data@ is Bytes ==> (r matches Err(Errors::UnsupportedSerializationError(message))
                && message@ == "Serialization of bytes is not supported"@),
    {
        write_value(data, self)
    }
}

/// The text form of a value.
pub fn to_string(value: &Value) -> (r: Result<String, Errors>)
    ensures
        r is Ok <==> value_fits(value@, 0),
        r matches Ok(text) ==> text@ == value_text(value@, 0),
        r matches Err(e) ==> e is UnsupportedSerializationError,
        value@ is Bytes ==> (r matches Err(Errors::UnsupportedSerializationError(message))
            && message@ == "Serialization of bytes is not supported"@),
{
    let mut serializer = YamlSerializer::new(String::new());
    match serializer.write(value) {
        Ok(()) => {
            let out = serializer.into_inner();
            assert(Seq::<char>::empty() + value_text(value@, 0) =~= value_text(value@, 0));
            Ok(out)
        },
        Err(e) => Err(e),
    }
}

} // verus!
