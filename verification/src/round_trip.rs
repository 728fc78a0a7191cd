//! The round trip, as far as the library holds it: the events that stand for a value
//! are read back as that value.

use crate::de::{enum_end_of, is_null, mapping_start_of, Errors};
use crate::event::{advance, Token};
use crate::laws::{
    lemma_bool_round_trip, lemma_char_round_trip, lemma_integer_round_trip,
    lemma_null_round_trip,
};
use crate::ser::{bool_text, null_text};
use crate::shape::{
    entries_of, fields_at, key_of, lemma_field_index, no_slots, pairs_at, payload_at,
    places_at, slots_at, struct_at, tuple_at, value_at, values_at, variant_index, Shape,
    Variant,
};
use crate::text::{decimal_text, is_real_numeral};
use crate::value::ValueModel;
use vstd::prelude::*;
use yaml_rust2::parser::Event;

verus! {

/// What a decoder looks at in a token: the text of a scalar and whether it must be
/// plain, or the start or the end of a container.
pub enum Mark {
    Scalar(Seq<char>, bool),
    SequenceStart,
    SequenceEnd,
    MappingStart,
    MappingEnd,
}

/// Whether a token shows a mark.
pub open spec fn shows(t: Token, mark: Mark) -> bool {
    match mark {
        Mark::Scalar(text, plain) => t matches Ok((Event::Scalar(scalar, style, _, _), _))
            && scalar@ == text && (plain ==> style is Plain),
        Mark::SequenceStart => t matches Ok((Event::SequenceStart(_, _), _)),
        Mark::SequenceEnd => t matches Ok((Event::SequenceEnd, _)),
        Mark::MappingStart => t matches Ok((Event::MappingStart(_, _), _)),
        Mark::MappingEnd => t matches Ok((Event::MappingEnd, _)),
    }
}

/// Whether a stream starts with tokens that show the given marks, and goes on behind
/// them.
pub open spec fn starts_with(s: Seq<Token>, marks: Seq<Mark>) -> bool {
    &&& marks.len() < s.len()
    &&& forall|k: int| 0 <= k < marks.len() ==> shows(#[trigger] s[k], marks[k])
}

/// The marks of the events that stand for a value: a number, a boolean, a character
/// and nothing are plain scalars with the text that the encoder writes; a string is
/// a scalar of any style with its text; a sequence and a mapping stand between their
/// start and their end; a variant is a mapping whose one key is its name.
pub open spec fn marks_of(v: ValueModel) -> Seq<Mark>
    decreases v,
{
    match v {
        ValueModel::Bool(b) => seq![Mark::Scalar(bool_text(b), true)],
        ValueModel::Int(i) => seq![Mark::Scalar(decimal_text(i as int), true)],
        ValueModel::UInt(u) => seq![Mark::Scalar(decimal_text(u as int), true)],
        ValueModel::Real(text) => seq![Mark::Scalar(text, true)],
        ValueModel::Char(c) => seq![Mark::Scalar(seq![c], true)],
        ValueModel::Text(text) => seq![Mark::Scalar(text, false)],
        ValueModel::Bytes(_) => Seq::empty(),
        ValueModel::Null => seq![Mark::Scalar(null_text(), true)],
        ValueModel::Sequence(items) => seq![Mark::SequenceStart] + all_marks(items) + seq![
            Mark::SequenceEnd,
        ],
        ValueModel::Mapping(entries) => seq![Mark::MappingStart] + pair_marks(entries) + seq![
            Mark::MappingEnd,
        ],
        ValueModel::UnitVariant(name) => seq![
            Mark::MappingStart,
            Mark::Scalar(name, false),
            Mark::Scalar(null_text(), true),
            Mark::MappingEnd,
        ],
        ValueModel::NewtypeVariant(name, inner) => seq![
            Mark::MappingStart,
            Mark::Scalar(name, false),
        ] + marks_of(*inner) + seq![Mark::MappingEnd],
        ValueModel::TupleVariant(name, items) => seq![
            Mark::MappingStart,
            Mark::Scalar(name, false),
            Mark::SequenceStart,
        ] + all_marks(items) + seq![Mark::SequenceEnd, Mark::MappingEnd],
        ValueModel::StructVariant(name, fields) => seq![
            Mark::MappingStart,
            Mark::Scalar(name, false),
            Mark::MappingStart,
        ] + pair_marks(fields) + seq![Mark::MappingEnd, Mark::MappingEnd],
        ValueModel::Dynamic(_) => Seq::empty(),
    }
}

/// The marks of some values, one after the other.
pub open spec fn all_marks(items: Seq<ValueModel>) -> Seq<Mark>
    decreases items,
{
    if items.len() == 0 {
        Seq::empty()
    } else {
        marks_of(items[0]) + all_marks(items.drop_first())
    }
}

/// The marks of some entries, one after the other: of each its key, then its value.
pub open spec fn pair_marks(entries: Seq<(ValueModel, ValueModel)>) -> Seq<Mark>
    decreases entries,
{
    if entries.len() == 0 {
        Seq::empty()
    } else {
        marks_of(entries[0].0) + marks_of(entries[0].1) + pair_marks(entries.drop_first())
    }
}

/// Whether the events of a value start with a scalar `null` or `~`.
pub open spec fn starts_null(v: ValueModel) -> bool {
    marks_of(v).len() > 0 && (marks_of(v)[0] matches Mark::Scalar(text, _) && is_null(text))
}

/// Whether a value is one that a target of the given shape reads. An optional value
/// that is present must not start with a scalar `null` or `~`, which stands for an
/// absent one.
pub open spec fn conforms(v: ValueModel, shape: Shape) -> bool
    decreases shape, v,
{
    match shape {
        Shape::Bool => v is Bool,
        Shape::I8 => v matches ValueModel::Int(n) && i8::MIN <= n <= i8::MAX,
        Shape::I16 => v matches ValueModel::Int(n) && i16::MIN <= n <= i16::MAX,
        Shape::I32 => v matches ValueModel::Int(n) && i32::MIN <= n <= i32::MAX,
        Shape::I64 => v is Int,
        Shape::U8 => v matches ValueModel::UInt(n) && n <= u8::MAX,
        Shape::U16 => v matches ValueModel::UInt(n) && n <= u16::MAX,
        Shape::U32 => v matches ValueModel::UInt(n) && n <= u32::MAX,
        Shape::U64 => v is UInt,
        Shape::Real => v matches ValueModel::Real(text) && is_real_numeral(text),
        Shape::Char => v is Char,
        Shape::Text => v is Text,
        Shape::Str => false,
        Shape::Bytes => false,
        Shape::Unit => v is Null,
        Shape::Optional(inner) => v is Null || (conforms(v, *inner) && !starts_null(v)),
        Shape::Sequence(element) => v matches ValueModel::Sequence(items) && all_conform(
            items,
            *element,
        ),
        Shape::Tuple(shapes) => v matches ValueModel::Sequence(items) && places_conform(
            items,
            shapes@,
        ),
        Shape::Mapping(_, _) => v matches ValueModel::Mapping(entries) && pairs_conform(
            entries,
            shape,
        ),
        Shape::Struct(fields) => v matches ValueModel::Mapping(entries) && fields_conform(
            entries,
            fields@,
        ) && distinct_names(fields@),
        Shape::Enum(variants) => match v {
            ValueModel::UnitVariant(name) => match variant_index(variants@, name) {
                Some(k) => 0 <= k < variants@.len() && variants@[k].1 is Unit,
                None => false,
            },
            ValueModel::NewtypeVariant(name, inner) => match variant_index(variants@, name) {
                Some(k) => 0 <= k < variants@.len() && (variants@[k].1 matches Variant::Newtype(
                    payload,
                ) && conforms(*inner, *payload)),
                None => false,
            },
            ValueModel::TupleVariant(name, items) => match variant_index(variants@, name) {
                Some(k) => 0 <= k < variants@.len() && (variants@[k].1 matches Variant::Tuple(
                    shapes,
                ) && places_conform(items, shapes@)),
                None => false,
            },
            ValueModel::StructVariant(name, entries) => match variant_index(variants@, name) {
                Some(k) => 0 <= k < variants@.len() && (variants@[k].1 matches Variant::Struct(
                    fields,
                ) && fields_conform(entries, fields@) && distinct_names(fields@)),
                None => false,
            },
            _ => false,
        },
        Shape::Any => false,
    }
}

/// Whether each of some values conforms to one shape.
pub open spec fn all_conform(items: Seq<ValueModel>, element: Shape) -> bool
    decreases element, items,
{
    items.len() == 0 || (conforms(items[0], element) && all_conform(items.drop_first(), element))
}

/// Whether some values conform to the shapes of the places of a tuple, one for one.
pub open spec fn places_conform(items: Seq<ValueModel>, shapes: Seq<Shape>) -> bool
    decreases shapes, items,
{
    items.len() == shapes.len() && (shapes.len() == 0 || (conforms(items[0], shapes[0])
        && places_conform(items.drop_first(), shapes.drop_first())))
}

/// Whether the keys and the values of some entries conform to the shapes of a
/// mapping.
pub open spec fn pairs_conform(entries: Seq<(ValueModel, ValueModel)>, mapping: Shape) -> bool
    decreases mapping, entries,
{
    match mapping {
        Shape::Mapping(key, value) => entries.len() == 0 || (conforms(entries[0].0, *key)
            && conforms(entries[0].1, *value) && pairs_conform(entries.drop_first(), mapping)),
        _ => false,
    }
}

/// Whether no two fields have the same name.
pub open spec fn distinct_names(fields: Seq<(String, Shape)>) -> bool {
    forall|i: int, j: int|
        0 <= i < j < fields.len() ==> (#[trigger] fields[i]).0@ != (#[trigger] fields[j]).0@
}

/// Whether some entries are the fields of a struct, one for one: the key is the
/// field's name and the value conforms to the field's shape.
pub open spec fn fields_conform(
    entries: Seq<(ValueModel, ValueModel)>,
    fields: Seq<(String, Shape)>,
) -> bool
    decreases fields, entries,
{
    entries.len() == fields.len() && (fields.len() == 0 || (entries[0].0 == ValueModel::Text(
        fields[0].0@,
    ) && conforms(entries[0].1, fields[0].1) && fields_conform(
        entries.drop_first(),
        fields.drop_first(),
    )))
}

/// A stream that starts with two runs of marks starts with the first, and goes on
/// with the second behind it.
pub proof fn lemma_starts_with_split(s: Seq<Token>, a: Seq<Mark>, b: Seq<Mark>)
    requires
        starts_with(s, a + b),
    ensures
        starts_with(s, a),
        starts_with(s.skip(a.len() as int), b),
{
    assert forall|k: int| 0 <= k < a.len() implies shows(#[trigger] s[k], a[k]) by {
        assert((a + b)[k] == a[k]);
    }
    let rest = s.skip(a.len() as int);
    assert forall|k: int| 0 <= k < b.len() implies shows(#[trigger] rest[k], b[k]) by {
        assert(rest[k] == s[a.len() + k]);
        assert((a + b)[a.len() + k] == b[k]);
    }
}

/// The events of a value that conforms to a shape start with a scalar or with the
/// start of a container.
pub proof fn lemma_first_mark(v: ValueModel, shape: Shape)
    requires
        conforms(v, shape),
    ensures
        marks_of(v).len() > 0,
        !(marks_of(v)[0] is SequenceEnd),
        !(marks_of(v)[0] is MappingEnd),
    decreases shape,
{
    match shape {
        Shape::Optional(inner) => {
            if !(v is Null) {
                lemma_first_mark(v, *inner);
            }
        },
        _ => {},
    }
}

/// The round trip of a value through its events: where a stream starts with the
/// events that stand for a value, a target of a shape that the value conforms to
/// reads that value, and leaves the stream behind those events.
pub proof fn lemma_round_trip(v: ValueModel, shape: Shape, s: Seq<Token>)
    requires
        conforms(v, shape),
        starts_with(s, marks_of(v)),
    ensures
        value_at(s, shape) == (Ok::<ValueModel, Errors>(v), s.skip(marks_of(v).len() as int)),
    decreases shape, v, 0int,
{
    let t = s[0];
    lemma_first_mark(v, shape);
    assert(shows(t, marks_of(v)[0]));
    assert(advance(s) =~= s.skip(1));
    match shape {
        Shape::Bool => {
            lemma_bool_round_trip(t, v->Bool_0);
        },
        Shape::I8 => {
            lemma_integer_round_trip(t, v->Int_0 as int, true, i8::MIN as int, i8::MAX as int);
        },
        Shape::I16 => {
            lemma_integer_round_trip(t, v->Int_0 as int, true, i16::MIN as int, i16::MAX as int);
        },
        Shape::I32 => {
            lemma_integer_round_trip(t, v->Int_0 as int, true, i32::MIN as int, i32::MAX as int);
        },
        Shape::I64 => {
            lemma_integer_round_trip(t, v->Int_0 as int, true, i64::MIN as int, i64::MAX as int);
        },
        Shape::U8 => {
            lemma_integer_round_trip(t, v->UInt_0 as int, false, 0, u8::MAX as int);
        },
        Shape::U16 => {
            lemma_integer_round_trip(t, v->UInt_0 as int, false, 0, u16::MAX as int);
        },
        Shape::U32 => {
            lemma_integer_round_trip(t, v->UInt_0 as int, false, 0, u32::MAX as int);
        },
        Shape::U64 => {
            lemma_integer_round_trip(t, v->UInt_0 as int, false, 0, u64::MAX as int);
        },
        Shape::Real => {},
        Shape::Char => {
            lemma_char_round_trip(t, v->Char_0);
        },
        Shape::Text => {},
        Shape::Unit => {
            lemma_null_round_trip(t, "'null' or '~'");
        },
        Shape::Optional(inner) => {
            if v is Null {
                lemma_null_round_trip(t, "'null' or '~'");
            } else {
                lemma_round_trip(v, *inner, s);
            }
        },
        Shape::Sequence(element) => {
            let items = v->Sequence_0;
            let inner = all_marks(items);
            let end = seq![Mark::SequenceEnd];
            assert(marks_of(v) =~= seq![Mark::SequenceStart] + (inner + end));
            lemma_starts_with_split(s, seq![Mark::SequenceStart], inner + end);
            let behind = s.skip(1);
            lemma_starts_with_split(behind, inner, end);
            lemma_values_round_trip(items, *element, behind);
            let rest = behind.skip(inner.len() as int);
            assert(shows(rest[0], end[0]));
            assert(advance(rest) =~= s.skip(marks_of(v).len() as int));
        },
        Shape::Tuple(shapes) => {
            lemma_tuple_round_trip(v->Sequence_0, shapes@, s);
        },
        Shape::Mapping(_, _) => {
            let entries = v->Mapping_0;
            let inner = pair_marks(entries);
            let end = seq![Mark::MappingEnd];
            assert(marks_of(v) =~= seq![Mark::MappingStart] + (inner + end));
            lemma_starts_with_split(s, seq![Mark::MappingStart], inner + end);
            let behind = s.skip(1);
            assert(behind =~= s.drop_first());
            lemma_starts_with_split(behind, inner, end);
            lemma_pairs_round_trip(entries, shape, behind);
            let rest = behind.skip(inner.len() as int);
            assert(shows(rest[0], end[0]));
            assert(advance(rest) =~= s.skip(marks_of(v).len() as int));
        },
        Shape::Struct(fields) => {
            lemma_struct_round_trip(v->Mapping_0, fields@, s);
        },
        Shape::Enum(variants) => {
            lemma_variant_round_trip(v, variants@, s);
            let named = advance(s);
            assert(named[0] == s[1]);
            assert(advance(named) =~= s.skip(2));
        },
        Shape::Str => {},
        Shape::Bytes => {},
        Shape::Any => {},
    }
}

/// The round trip of the elements of a sequence.
pub proof fn lemma_values_round_trip(items: Seq<ValueModel>, element: Shape, s: Seq<Token>)
    requires
        all_conform(items, element),
        starts_with(s, all_marks(items) + seq![Mark::SequenceEnd]),
    ensures
        values_at(s, element) == (
            Ok::<Seq<ValueModel>, Errors>(items),
            s.skip(all_marks(items).len() as int),
        ),
    decreases element, items, 1int,
{
    let end = seq![Mark::SequenceEnd];
    if items.len() == 0 {
        assert(all_marks(items) + end =~= end);
        assert(shows(s[0], end[0]));
        assert(s.skip(0) =~= s);
        assert(items =~= Seq::<ValueModel>::empty());
    } else {
        let first = items[0];
        let others = items.drop_first();
        let head = marks_of(first);
        let tail = all_marks(others);
        assert(all_marks(items) + end =~= head + (tail + end));
        lemma_starts_with_split(s, head, tail + end);
        lemma_first_mark(first, element);
        assert(shows(s[0], head[0]));
        lemma_round_trip(first, element, s);
        let rest = s.skip(head.len() as int);
        lemma_values_round_trip(others, element, rest);
        assert(rest.skip(tail.len() as int) =~= s.skip(all_marks(items).len() as int));
        assert(seq![first] + others =~= items);
    }
}

/// The round trip of the places of a tuple.
pub proof fn lemma_places_round_trip(items: Seq<ValueModel>, shapes: Seq<Shape>, s: Seq<Token>)
    requires
        places_conform(items, shapes),
        starts_with(s, all_marks(items)),
    ensures
        places_at(s, shapes) == (
            Ok::<Seq<ValueModel>, Errors>(items),
            s.skip(all_marks(items).len() as int),
        ),
    decreases shapes, items, 1int,
{
    if shapes.len() == 0 {
        assert(s.skip(0) =~= s);
        assert(items =~= Seq::<ValueModel>::empty());
    } else {
        let first = items[0];
        let others = items.drop_first();
        let head = marks_of(first);
        let tail = all_marks(others);
        assert(all_marks(items) =~= head + tail);
        lemma_starts_with_split(s, head, tail);
        lemma_round_trip(first, shapes[0], s);
        let rest = s.skip(head.len() as int);
        lemma_places_round_trip(others, shapes.drop_first(), rest);
        assert(rest.skip(tail.len() as int) =~= s.skip(all_marks(items).len() as int));
        assert(seq![first] + others =~= items);
    }
}

/// The round trip of a tuple: a sequence with a value for each place.
pub proof fn lemma_tuple_round_trip(items: Seq<ValueModel>, shapes: Seq<Shape>, s: Seq<Token>)
    requires
        places_conform(items, shapes),
        starts_with(s, seq![Mark::SequenceStart] + all_marks(items) + seq![Mark::SequenceEnd]),
    ensures
        tuple_at(s, shapes) == (
            Ok::<Seq<ValueModel>, Errors>(items),
            s.skip(all_marks(items).len() as int + 2),
        ),
    decreases shapes, items, 2int,
{
    let inner = all_marks(items);
    let end = seq![Mark::SequenceEnd];
    let start = seq![Mark::SequenceStart];
    assert(start + inner + end =~= start + (inner + end));
    lemma_starts_with_split(s, start, inner + end);
    assert(shows(s[0], start[0]));
    let behind = s.skip(1);
    assert(advance(s) =~= behind);
    lemma_starts_with_split(behind, inner, end);
    lemma_places_round_trip(items, shapes, behind);
    let rest = behind.skip(inner.len() as int);
    assert(shows(rest[0], end[0]));
    assert(advance(rest) =~= s.skip(inner.len() as int + 2));
}

/// The round trip of the entries of a mapping.
pub proof fn lemma_pairs_round_trip(
    entries: Seq<(ValueModel, ValueModel)>,
    mapping: Shape,
    s: Seq<Token>,
)
    requires
        pairs_conform(entries, mapping),
        starts_with(s, pair_marks(entries) + seq![Mark::MappingEnd]),
    ensures
        pairs_at(s, mapping) == (
            Ok::<Seq<(ValueModel, ValueModel)>, Errors>(entries),
            s.skip(pair_marks(entries).len() as int),
        ),
    decreases mapping, entries, 1int,
{
    let end = seq![Mark::MappingEnd];
    match mapping {
        Shape::Mapping(key, value) => {
            if entries.len() == 0 {
                assert(pair_marks(entries) + end =~= end);
                assert(shows(s[0], end[0]));
                assert(s.skip(0) =~= s);
                assert(entries =~= Seq::<(ValueModel, ValueModel)>::empty());
            } else {
                let first = entries[0];
                let others = entries.drop_first();
                let head = marks_of(first.0);
                let body = marks_of(first.1);
                let tail = pair_marks(others);
                assert(pair_marks(entries) + end =~= head + (body + (tail + end)));
                lemma_starts_with_split(s, head, body + (tail + end));
                lemma_first_mark(first.0, *key);
                assert(shows(s[0], head[0]));
                lemma_round_trip(first.0, *key, s);
                let middle = s.skip(head.len() as int);
                lemma_starts_with_split(middle, body, tail + end);
                lemma_first_mark(first.1, *value);
                lemma_round_trip(first.1, *value, middle);
                let rest = middle.skip(body.len() as int);
                lemma_pairs_round_trip(others, mapping, rest);
                assert(rest.skip(tail.len() as int) =~= s.skip(pair_marks(entries).len() as int));
                assert(seq![first] + others =~= entries);
            }
        },
        _ => {},
    }
}

/// The values of the first `i` of some entries, each at its place among as many
/// places as there are entries, and nothing at the other places.
pub open spec fn filled_to(entries: Seq<(ValueModel, ValueModel)>, i: int) -> Seq<
    Option<ValueModel>,
> {
    Seq::new(
        entries.len(),
        |j: int|
            if j < i {
                Some(entries[j].1)
            } else {
                None
            },
    )
}

/// Entries that are the fields of a struct are as many as the fields, and each has
/// the name of its field and a value of its field's shape.
pub proof fn lemma_fields_conform_at(
    entries: Seq<(ValueModel, ValueModel)>,
    fields: Seq<(String, Shape)>,
    i: int,
)
    requires
        fields_conform(entries, fields),
        0 <= i < fields.len(),
    ensures
        entries.len() == fields.len(),
        entries[i].0 == ValueModel::Text(fields[i].0@),
        conforms(entries[i].1, fields[i].1),
    decreases i,
{
    if i > 0 {
        lemma_fields_conform_at(entries.drop_first(), fields.drop_first(), i - 1);
    }
}

/// The entries of fields that were all read are the entries that were read.
pub proof fn lemma_entries_of_filled(
    entries: Seq<(ValueModel, ValueModel)>,
    fields: Seq<(String, Shape)>,
)
    requires
        fields_conform(entries, fields),
    ensures
        entries_of(fields, filled_to(entries, entries.len() as int)) == Ok::<
            Seq<(ValueModel, ValueModel)>,
            Errors,
        >(entries),
    decreases fields.len(),
{
    if fields.len() == 0 {
        assert(entries =~= Seq::<(ValueModel, ValueModel)>::empty());
    } else {
        let others = entries.drop_first();
        lemma_entries_of_filled(others, fields.drop_first());
        let filled = filled_to(entries, entries.len() as int);
        assert(filled.drop_first() =~= filled_to(others, others.len() as int));
        assert(filled[0] == Some(entries[0].1));
        assert(seq![entries[0]] + others =~= entries);
    }
}

/// The round trip of the values of the fields of a struct, from the field at place
/// `i` on.
pub proof fn lemma_slots_round_trip(
    entries: Seq<(ValueModel, ValueModel)>,
    fields: Seq<(String, Shape)>,
    s: Seq<Token>,
    i: int,
)
    requires
        fields_conform(entries, fields),
        distinct_names(fields),
        0 <= i <= fields.len(),
        starts_with(s, pair_marks(entries.skip(i)) + seq![Mark::MappingEnd]),
    ensures
        slots_at(s, fields, filled_to(entries, i)) == (
            Ok::<Seq<Option<ValueModel>>, Errors>(filled_to(entries, entries.len() as int)),
            s.skip(pair_marks(entries.skip(i)).len() as int),
        ),
    decreases fields, entries, fields.len() - i,
{
    let end = seq![Mark::MappingEnd];
    let remaining = entries.skip(i);
    if fields.len() > 0 {
        lemma_fields_conform_at(entries, fields, 0);
    } else {
        assert(entries.len() == 0);
    }
    if i == fields.len() {
        assert(remaining =~= Seq::<(ValueModel, ValueModel)>::empty());
        assert(pair_marks(remaining) + end =~= end);
        assert(shows(s[0], end[0]));
        assert(s.skip(0) =~= s);
    } else {
        lemma_fields_conform_at(entries, fields, i);
        let first = entries[i];
        assert(remaining[0] == first);
        assert(remaining.drop_first() =~= entries.skip(i + 1));
        let head = marks_of(first.0);
        let body = marks_of(first.1);
        let tail = pair_marks(entries.skip(i + 1));
        assert(pair_marks(remaining) + end =~= head + (body + (tail + end)));
        lemma_starts_with_split(s, head, body + (tail + end));
        assert(shows(s[0], head[0]));
        let name = key_of(s[0])->Ok_0.0;
        assert(name@ == fields[i].0@);
        assert forall|j: int| 0 <= j < i implies (#[trigger] fields[j]).0@ != name@ by {
            assert(fields[j].0@ != fields[i].0@);
        }
        lemma_field_index(fields, name@, i);
        let middle = s.skip(1);
        assert(advance(s) =~= middle);
        lemma_starts_with_split(middle, body, tail + end);
        lemma_round_trip(first.1, fields[i].1, middle);
        let rest = middle.skip(body.len() as int);
        assert(filled_to(entries, i).update(i, Some(first.1)) =~= filled_to(entries, i + 1));
        lemma_slots_round_trip(entries, fields, rest, i + 1);
        assert(rest.skip(tail.len() as int) =~= s.skip(pair_marks(remaining).len() as int));
    }
}

/// The round trip of the fields of a struct.
pub proof fn lemma_fields_round_trip(
    entries: Seq<(ValueModel, ValueModel)>,
    fields: Seq<(String, Shape)>,
    s: Seq<Token>,
)
    requires
        fields_conform(entries, fields),
        distinct_names(fields),
        starts_with(s, pair_marks(entries) + seq![Mark::MappingEnd]),
    ensures
        fields_at(s, fields) == (
            Ok::<Seq<(ValueModel, ValueModel)>, Errors>(entries),
            s.skip(pair_marks(entries).len() as int),
        ),
    decreases fields, entries, fields.len() + 1,
{
    assert(entries.skip(0) =~= entries);
    assert(entries.len() == fields.len()) by {
        if fields.len() > 0 {
            lemma_fields_conform_at(entries, fields, 0);
        }
    }
    assert(filled_to(entries, 0) =~= no_slots(fields.len()));
    lemma_slots_round_trip(entries, fields, s, 0);
    lemma_entries_of_filled(entries, fields);
}

/// The round trip of a struct: a mapping with its fields.
pub proof fn lemma_struct_round_trip(
    entries: Seq<(ValueModel, ValueModel)>,
    fields: Seq<(String, Shape)>,
    s: Seq<Token>,
)
    requires
        fields_conform(entries, fields),
        distinct_names(fields),
        starts_with(s, seq![Mark::MappingStart] + pair_marks(entries) + seq![Mark::MappingEnd]),
    ensures
        struct_at(s, fields) == (
            Ok::<Seq<(ValueModel, ValueModel)>, Errors>(entries),
            s.skip(pair_marks(entries).len() as int + 2),
        ),
    decreases fields, entries, fields.len() + 2,
{
    let inner = pair_marks(entries);
    let end = seq![Mark::MappingEnd];
    let start = seq![Mark::MappingStart];
    assert(start + inner + end =~= start + (inner + end));
    lemma_starts_with_split(s, start, inner + end);
    assert(shows(s[0], start[0]));
    let behind = s.skip(1);
    assert(advance(s) =~= behind);
    lemma_starts_with_split(behind, inner, end);
    lemma_fields_round_trip(entries, fields, behind);
    let rest = behind.skip(inner.len() as int);
    assert(shows(rest[0], end[0]));
    assert(advance(rest) =~= s.skip(inner.len() as int + 2));
}

/// The round trip of a variant of an enum: a mapping whose one key is the name of
/// the variant and whose value is its payload.
pub proof fn lemma_variant_round_trip(
    v: ValueModel,
    variants: Seq<(String, Variant)>,
    s: Seq<Token>,
)
    requires
        starts_with(s, marks_of(v)),
        match v {
            ValueModel::UnitVariant(name) => match variant_index(variants, name) {
                Some(k) => 0 <= k < variants.len() && variants[k].1 is Unit,
                None => false,
            },
            ValueModel::NewtypeVariant(name, inner) => match variant_index(variants, name) {
                Some(k) => 0 <= k < variants.len() && (variants[k].1 matches Variant::Newtype(
                    payload,
                ) && conforms(*inner, *payload)),
                None => false,
            },
            ValueModel::TupleVariant(name, items) => match variant_index(variants, name) {
                Some(k) => 0 <= k < variants.len() && (variants[k].1 matches Variant::Tuple(
                    shapes,
                ) && places_conform(items, shapes@)),
                None => false,
            },
            ValueModel::StructVariant(name, entries) => match variant_index(variants, name) {
                Some(k) => 0 <= k < variants.len() && (variants[k].1 matches Variant::Struct(
                    fields,
                ) && fields_conform(entries, fields@) && distinct_names(fields@)),
                None => false,
            },
            _ => false,
        },
    ensures
        mapping_start_of(s[0]) is Ok,
        key_of(s[1]) is Ok,
        ({
            let name = key_of(s[1])->Ok_0.0;
            match variant_index(variants, name@) {
                Some(k) => 0 <= k < variants.len() && ({
                    let rest = payload_at(s.skip(2), name@, variants[k].1).1;
                    &&& payload_at(s.skip(2), name@, variants[k].1).0 == Ok::<ValueModel, Errors>(
                        v,
                    )
                    &&& enum_end_of(rest[0]) is Ok
                    &&& advance(rest) == s.skip(marks_of(v).len() as int)
                }),
                None => false,
            }
        }),
    decreases variants, v, 3int,
{
    let marks = marks_of(v);
    let end = seq![Mark::MappingEnd];
    match v {
        ValueModel::UnitVariant(name) => {
            assert(shows(s[0], marks[0]));
            assert(shows(s[1], marks[1]));
            assert(shows(s[2], marks[2]));
            assert(shows(s[3], marks[3]));
            let k = variant_index(variants, name)->Some_0;
            let behind = s.skip(2);
            assert(behind[0] == s[2]);
            lemma_null_round_trip(s[2], "'~' or 'null'");
            assert(advance(behind) =~= s.skip(3));
            assert(s.skip(3)[0] == s[3]);
            assert(advance(s.skip(3)) =~= s.skip(4));
        },
        ValueModel::NewtypeVariant(name, inner) => {
            let head = seq![Mark::MappingStart, Mark::Scalar(name, false)];
            let body = marks_of(*inner);
            assert(marks =~= head + (body + end));
            lemma_starts_with_split(s, head, body + end);
            assert(shows(s[0], head[0]));
            assert(shows(s[1], head[1]));
            let behind = s.skip(2);
            lemma_starts_with_split(behind, body, end);
            let k = variant_index(variants, name)->Some_0;
            let payload = variants[k].1->Newtype_0;
            assert(decreases_to!(variants => variants[k]));
            lemma_round_trip(*inner, *payload, behind);
            let rest = behind.skip(body.len() as int);
            assert(shows(rest[0], end[0]));
            assert(advance(rest) =~= s.skip(marks.len() as int));
        },
        ValueModel::TupleVariant(name, items) => {
            let head = seq![Mark::MappingStart, Mark::Scalar(name, false)];
            let body = seq![Mark::SequenceStart] + all_marks(items) + seq![Mark::SequenceEnd];
            assert(marks =~= head + (body + end));
            lemma_starts_with_split(s, head, body + end);
            assert(shows(s[0], head[0]));
            assert(shows(s[1], head[1]));
            let behind = s.skip(2);
            lemma_starts_with_split(behind, body, end);
            let k = variant_index(variants, name)->Some_0;
            let shapes = variants[k].1->Tuple_0;
            assert(decreases_to!(variants => variants[k]));
            lemma_tuple_round_trip(items, shapes@, behind);
            let rest = behind.skip(body.len() as int);
            assert(body.len() == all_marks(items).len() + 2);
            assert(shows(rest[0], end[0]));
            assert(advance(rest) =~= s.skip(marks.len() as int));
        },
        ValueModel::StructVariant(name, entries) => {
            let head = seq![Mark::MappingStart, Mark::Scalar(name, false)];
            let body = seq![Mark::MappingStart] + pair_marks(entries) + seq![Mark::MappingEnd];
            assert(marks =~= head + (body + end));
            lemma_starts_with_split(s, head, body + end);
            assert(shows(s[0], head[0]));
            assert(shows(s[1], head[1]));
            let behind = s.skip(2);
            lemma_starts_with_split(behind, body, end);
            let k = variant_index(variants, name)->Some_0;
            let fields = variants[k].1->Struct_0;
            assert(decreases_to!(variants => variants[k]));
            lemma_struct_round_trip(entries, fields@, behind);
            let rest = behind.skip(body.len() as int);
            assert(body.len() == pair_marks(entries).len() + 2);
            assert(shows(rest[0], end[0]));
            assert(advance(rest) =~= s.skip(marks.len() as int));
        },
        _ => {},
    }
}

} // verus!
