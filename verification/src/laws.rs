//! What holds of the codec as a whole.

use crate::de::{
    absent_of, bool_of, char_of, int_of, is_null, null_of, number_text_of, real_of, string_of,
    Errors,
};
use crate::event::{advance, Token};
use crate::ser::{bool_text, escaped, null_text, str_text};
use crate::shape::{tuple_at, value_at, values_at, places_at, Shape};
use crate::text::{
    decimal_text, has_newline, lemma_decimal_round_trip, lemma_line_end, lemma_line_end_bounds,
    line_end, lines_of, without_cr,
};
use crate::value::{value_text, ValueModel};
use vstd::prelude::*;
use yaml_rust2::parser::Event;

verus! {

/// A text without a single quote stands between single quotes as it is.
pub proof fn lemma_escaped_without_quote(s: Seq<char>)
    requires
        forall|i: int| 0 <= i < s.len() ==> s[i] != '\'',
    ensures
        escaped(s) == s,
    decreases s.len(),
{
    if s.len() > 0 {
        lemma_escaped_without_quote(s.drop_last());
        assert(s.drop_last().push(s.last()) =~= s);
        assert(escaped(s) =~= s.drop_last() + seq![s.last()]);
    }
}

/// Quoting: a text on one line without a single quote is written between single
/// quotes, unchanged, at every level. No other form is needed for it.
pub proof fn lemma_plain_text_is_quoted(s: Seq<char>, level: int)
    requires
        !has_newline(s),
        forall|i: int| 0 <= i < s.len() ==> s[i] != '\'',
    ensures
        str_text(s, level) == seq!['\''] + s + seq!['\''],
{
    lemma_escaped_without_quote(s);
}

/// The lines of a text are those of the text with one more line feed at its end,
/// unless it ends with a line feed or a carriage return already.
pub proof fn lemma_lines_ignore_final_line_feed(s: Seq<char>)
    requires
        s.len() > 0,
        s.last() != '\n',
        s.last() != '\r',
    ensures
        lines_of(s.push('\n')) == lines_of(s),
    decreases s.len(),
{
    let longer = s.push('\n');
    let k = line_end(s);
    lemma_line_end_bounds(s);
    if k == s.len() {
        assert forall|j: int| 0 <= j < k implies longer[j] != '\n' by {
            assert(longer[j] == s[j]);
        }
        lemma_line_end(longer, k);
        assert(longer.take(k) =~= s);
        assert(longer.skip(k + 1) =~= Seq::<char>::empty());
        assert(lines_of(Seq::<char>::empty()) =~= Seq::<Seq<char>>::empty());
        assert(without_cr(s) == s);
        assert(longer[k] == '\n');
        assert(lines_of(longer) =~= seq![without_cr(longer.take(k))] + lines_of(
            longer.skip(k + 1),
        ));
        assert(lines_of(longer) =~= seq![s]);
        assert(lines_of(s) =~= seq![s]);
    } else {
        assert forall|j: int| 0 <= j < k implies longer[j] != '\n' by {
            assert(longer[j] == s[j]);
        }
        assert(longer[k] == s[k]);
        lemma_line_end(longer, k);
        let rest = s.skip(k + 1);
        assert(rest.len() > 0) by {
            if rest.len() == 0 {
                assert(s.last() == s[k]);
            }
        }
        assert(rest.last() == s.last());
        assert(longer.skip(k + 1) =~= rest.push('\n'));
        assert(longer.take(k) =~= s.take(k));
        lemma_lines_ignore_final_line_feed(rest);
    }
}

/// Multi-line strings: a line feed at the end of a text of several lines is not
/// kept. The text is written as a literal block whose header strips it, so the text
/// with the line feed and the text without it have the same form.
pub proof fn lemma_final_line_feed_is_dropped(s: Seq<char>, level: int)
    requires
        s.len() > 0,
        has_newline(s),
        s.last() != '\n',
        s.last() != '\r',
    ensures
        str_text(s.push('\n'), level) == str_text(s, level),
{
    lemma_lines_ignore_final_line_feed(s);
    let longer = s.push('\n');
    assert(longer[s.len() as int] == '\n');
}

/// Empty containers, written: an empty sequence is `[]` at every level, and an empty
/// tuple variant is its name followed by `: []`.
pub proof fn lemma_empty_sequence_text(name: Seq<char>, level: int)
    ensures
        value_text(ValueModel::Sequence(Seq::empty()), level) == seq!['[', ']'],
        value_text(ValueModel::TupleVariant(name, Seq::empty()), level) == name + seq![
            ':',
            ' ',
            '[',
            ']',
        ],
{
}

/// Empty containers, read: the start of a sequence followed by its end is an empty
/// sequence, for a sequence of any shape and for a tuple without places.
pub proof fn lemma_empty_sequence_is_read(s: Seq<Token>, element: Shape, places: Vec<Shape>)
    requires
        s.len() > 2,
        s[0] matches Ok((Event::SequenceStart(_, _), _)),
        s[1] matches Ok((Event::SequenceEnd, _)),
        places@.len() == 0,
    ensures
        value_at(s, Shape::Sequence(Box::new(element))) == (
            Ok::<ValueModel, Errors>(ValueModel::Sequence(Seq::empty())),
            s.skip(2),
        ),
        value_at(s, Shape::Tuple(places)) == (
            Ok::<ValueModel, Errors>(ValueModel::Sequence(Seq::empty())),
            s.skip(2),
        ),
{
    let inner = advance(s);
    assert(inner[0] == s[1]);
    assert(advance(inner) =~= s.skip(2));
    assert(values_at(inner, element) == (Ok::<Seq<ValueModel>, Errors>(Seq::empty()), inner));
    assert(places_at(inner, places@) == (Ok::<Seq<ValueModel>, Errors>(Seq::empty()), inner));
    assert(tuple_at(s, places@) == (Ok::<Seq<ValueModel>, Errors>(Seq::empty()), s.skip(2)));
}

/// Optional values: at a scalar `null` or `~` an optional target reads nothing and
/// takes the scalar away; at any other scalar it reads what its inner shape reads,
/// from the same place.
pub proof fn lemma_null_is_none(s: Seq<Token>, text: String, inner: Shape)
    requires
        s[0] matches Ok((Event::Scalar(scalar, _, _, _), _)) && scalar == text,
    ensures
        is_null(text@) ==> value_at(s, Shape::Optional(Box::new(inner))) == (
            Ok::<ValueModel, Errors>(ValueModel::Null),
            advance(s),
        ),
        !is_null(text@) ==> value_at(s, Shape::Optional(Box::new(inner))) == value_at(s, inner),
{
}

/// Numeric strictness: a scalar that is not plain is no boolean and no number,
/// whatever its text; a string target takes its text as it is.
pub proof fn lemma_quoted_scalar_is_text_only(
    t: Token,
    text: String,
    signed: bool,
    min: int,
    max: int,
)
    requires
        t matches Ok((Event::Scalar(scalar, style, _, _), _)) && scalar == text && !(style
            is Plain),
    ensures
        bool_of(t) is Err,
        int_of(t, signed, min, max) is Err,
        number_text_of(t) is Err,
        real_of(t) is Err,
        char_of(t) is Err,
        string_of(t) == Ok::<String, Errors>(text),
{
}

/// Round trip of integers: the text that the encoder writes for an integer, read
/// as a plain scalar by a target whose range holds the integer, is that integer.
pub proof fn lemma_integer_round_trip(t: Token, n: int, signed: bool, min: int, max: int)
    requires
        t matches Ok((Event::Scalar(text, style, _, _), _)) && style is Plain && text@
            == decimal_text(n),
        min <= n <= max,
        signed || n >= 0,
    ensures
        int_of(t, signed, min, max) == Ok::<int, Errors>(n),
{
    lemma_decimal_round_trip(n, signed);
}

/// Round trip of booleans: the text that the encoder writes for a boolean, read as
/// a plain scalar, is that boolean.
pub proof fn lemma_bool_round_trip(t: Token, b: bool)
    requires
        t matches Ok((Event::Scalar(text, style, _, _), _)) && style is Plain && text@
            == bool_text(b),
    ensures
        bool_of(t) == Ok::<bool, Errors>(b),
{
    assert(bool_text(true) =~= seq!['t', 'r', 'u', 'e']);
    assert(bool_text(false) =~= seq!['f', 'a', 'l', 's', 'e']);
    assert(bool_text(false)[0] != bool_text(true)[0]);
}

/// Round trip of nothing: the null indicator that the encoder writes, read as a
/// scalar, is a unit for a unit target and nothing for an optional target.
pub proof fn lemma_null_round_trip(t: Token, expected: &'static str)
    requires
        t matches Ok((Event::Scalar(text, _, _, _), _)) && text@ == null_text(),
    ensures
        null_of(t, expected) == Ok::<(), Errors>(()),
        absent_of(t) == Ok::<bool, Errors>(true),
{
}

/// Round trip of characters: a character, read as a plain scalar of that one
/// character, is that character.
pub proof fn lemma_char_round_trip(t: Token, c: char)
    requires
        t matches Ok((Event::Scalar(text, style, _, _), _)) && style is Plain && text@
            == seq![c],
    ensures
        char_of(t) == Ok::<char, Errors>(c),
{
}

} // verus!
