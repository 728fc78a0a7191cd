//! The decoder: turns the events of a text into values, one token of lookahead at a
//! time.

use crate::event::{
    advance, lemma_advance_well_formed, new_parser, parser_next, parser_peek, pending,
    well_formed, yaml_events, Marker, Token,
};
use crate::text::{
    decimal_text, is_real_numeral, parse_decimal, parsed_int, push_decimal, real_numeral,
    same_text,
};
use crate::wrapper::Node;
use std::str::Chars;
use vstd::prelude::*;
use vstd::string::*;
use yaml_rust2::parser::{Event, Parser};
use yaml_rust2::scanner::TScalarStyle;
use yaml_rust2::Yaml;

pub use crate::shape::from_str;

verus! {

/// Why a text could not be decoded.
#[derive(Debug, PartialEq)]
pub enum Errors {
    /// A scalar with a text that the target does not take: what was expected, the
    /// text, its position.
    UnexpectedScalarValueError(&'static str, String, Marker),
    /// An event of another kind than the target takes: what was expected, the event,
    /// its position.
    UnexpectedEventError(&'static str, Event, Marker),
    /// The scanner failed at this position.
    ScanError(Marker),
    /// The text of a scalar is no number of the target's type.
    ParseNumberError(String),
    /// Another failure, with its message.
    Custom(&'static str),
}

/// The text that shows an event to a reader: the form in which `yaml_rust2` prints
/// it for debugging.
pub uninterp spec fn event_text(event: Event) -> Seq<char>;

/// The `Debug` form of an event of `yaml_rust2`.
#[verifier::external_body]
pub(crate) fn event_debug(event: &Event) -> (text: String)
    ensures
        text@ == event_text(*event),
{
    format!("{:?}", event)
}

/// The text of a position: its line, its column and its index.
pub open spec fn marker_text(marker: Marker) -> Seq<char> {
    "Line: "@ + decimal_text(marker.line as int) + ", Column: "@ + decimal_text(
        marker.col as int,
    ) + ", Index: "@ + decimal_text(marker.index as int)
}

/// The message of an error.
pub open spec fn message_text(error: Errors) -> Seq<char> {
    match error {
        Errors::UnexpectedScalarValueError(expected, got, marker) => {
            "Unexpected scalar value at position "@ + marker_text(marker) + ". Expected: "@
                + expected@ + ", got: "@ + got@
        },
        Errors::UnexpectedEventError(expected, got, marker) => {
            "Unexpected event at position "@ + marker_text(marker) + ". Expected: "@ + expected@
                + ", got: "@ + event_text(got)
        },
        Errors::ScanError(marker) => "Scan error at position "@ + marker_text(marker),
        Errors::ParseNumberError(text) => "Error while parsing scalar "@ + text@
            + " into number"@,
        Errors::Custom(message) => message@,
    }
}

fn push_marker(out: &mut String, marker: &Marker)
    ensures
        final(out)@ == old(out)@ + marker_text(*marker),
{
    out.append("Line: ");
    push_decimal(out, marker.line as i128);
    out.append(", Column: ");
    push_decimal(out, marker.col as i128);
    out.append(", Index: ");
    push_decimal(out, marker.index as i128);
    assert(out@ =~= old(out)@ + marker_text(*marker));
}

impl Errors {
    /// The message of the error, for a reader.
    pub fn message(&self) -> (text: String)
        ensures
            text@ == message_text(*self),
    {
        let mut out = String::new();
        match self {
            Errors::UnexpectedScalarValueError(expected, got, marker) => {
                out.append("Unexpected scalar value at position ");
                push_marker(&mut out, marker);
                out.append(". Expected: ");
                out.append(expected);
                out.append(", got: ");
                out.append(got.as_str());
                assert(out@ =~= message_text(*self));
            },
            Errors::UnexpectedEventError(expected, got, marker) => {
                out.append("Unexpected event at position ");
                push_marker(&mut out, marker);
                out.append(". Expected: ");
                out.append(expected);
                out.append(", got: ");
                let shown = event_debug(got);
                out.append(shown.as_str());
                assert(out@ =~= message_text(*self));
            },
            Errors::ScanError(marker) => {
                out.append("Scan error at position ");
                push_marker(&mut out, marker);
                assert(out@ =~= message_text(*self));
            },
            Errors::ParseNumberError(text) => {
                out.append("Error while parsing scalar ");
                out.append(text.as_str());
                out.append(" into number");
                assert(out@ =~= message_text(*self));
            },
            Errors::Custom(message) => {
                out.append(message);
                assert(out@ =~= message_text(*self));
            },
        }
        out
    }
}

/// The error of a stream that does not go on where it must. A well-formed stream
/// never gives it: it is there so that reading is defined on every stream.
pub open spec fn stalled() -> Errors {
    Errors::Custom("The stream of events does not go on")
}

/// The error for a token that is no event of the expected kind.
pub open spec fn unexpected(expected: &'static str, t: Token) -> Errors {
    match t {
        Ok((event, marker)) => Errors::UnexpectedEventError(expected, event, marker),
        Err(marker) => Errors::ScanError(marker),
    }
}

/// Whether a scalar's text stands for nothing: `null` or `~`.
pub open spec fn is_null(text: Seq<char>) -> bool {
    text == seq!['n', 'u', 'l', 'l'] || text == seq!['~']
}

/// The boolean that a token holds: a plain scalar `true` or `false`. A scalar with
/// another text or of another style is an unexpected scalar value; an event of
/// another kind is an unexpected event.
pub open spec fn bool_of(t: Token) -> Result<bool, Errors> {
    match t {
        Ok((Event::Scalar(text, style, _, _), marker)) => {
            if style is Plain && text@ == seq!['t', 'r', 'u', 'e'] {
                Ok(true)
            } else if style is Plain && text@ == seq!['f', 'a', 'l', 's', 'e'] {
                Ok(false)
            } else {
                Err(Errors::UnexpectedScalarValueError("'true' of 'false'", text, marker))
            }
        },
        _ => Err(unexpected("Plain scalar", t)),
    }
}

/// The text of a plain scalar, for a target that reads a number from it.
pub open spec fn number_text_of(t: Token) -> Result<String, Errors> {
    match t {
        Ok((Event::Scalar(text, TScalarStyle::Plain, _, _), _)) => Ok(text),
        _ => Err(unexpected("Scalar", t)),
    }
}

/// The text of a real number that a token holds: a plain scalar whose text is a
/// numeral that the standard library reads as a real number.
pub open spec fn real_of(t: Token) -> Result<String, Errors> {
    match number_text_of(t) {
        Ok(text) => if is_real_numeral(text@) {
            Ok(text)
        } else {
            Err(Errors::ParseNumberError(text))
        },
        Err(e) => Err(e),
    }
}

/// The integer between `min` and `max` that a token holds: a plain scalar whose text
/// is a decimal numeral in that range.
pub open spec fn int_of(t: Token, signed: bool, min: int, max: int) -> Result<int, Errors> {
    match number_text_of(t) {
        Ok(text) => match parsed_int(text@, signed, min, max) {
            Some(v) => Ok(v),
            None => Err(Errors::ParseNumberError(text)),
        },
        Err(e) => Err(e),
    }
}

/// The character that a token holds: a plain scalar of exactly one character. A
/// scalar of another length or of another style is an unexpected scalar value; an
/// event of another kind is an unexpected event.
pub open spec fn char_of(t: Token) -> Result<char, Errors> {
    match t {
        Ok((Event::Scalar(text, style, _, _), marker)) => {
            if style is Plain && text@.len() == 1 {
                Ok(text@[0])
            } else {
                Err(Errors::UnexpectedScalarValueError("String with length 1", text, marker))
            }
        },
        _ => Err(unexpected("Plain scalar", t)),
    }
}

/// The string that a token holds: the text of a scalar of any style.
pub open spec fn string_of(t: Token) -> Result<String, Errors> {
    match t {
        Ok((Event::Scalar(text, _, _, _), _)) => Ok(text),
        _ => Err(unexpected("Scalar", t)),
    }
}

/// Whether a token stands for nothing: a scalar `null` or `~`, whatever its style.
/// `expected` is what the error names as the texts that were expected.
pub open spec fn null_of(t: Token, expected: &'static str) -> Result<(), Errors> {
    match t {
        Ok((Event::Scalar(text, _, _, _), marker)) => {
            if is_null(text@) {
                Ok(())
            } else {
                Err(Errors::UnexpectedScalarValueError(expected, text, marker))
            }
        },
        _ => Err(unexpected("Scalar", t)),
    }
}

/// What an optional target finds at a token: nothing (`true`) at a scalar `null` or
/// `~`, a value (`false`) at any other event, an error at a failure of the scanner.
pub open spec fn absent_of(t: Token) -> Result<bool, Errors> {
    match t {
        Ok((Event::Scalar(text, _, _, _), _)) => Ok(is_null(text@)),
        Ok(_) => Ok(false),
        Err(marker) => Err(Errors::ScanError(marker)),
    }
}

/// Whether a token opens a sequence.
pub open spec fn sequence_start_of(t: Token) -> Result<(), Errors> {
    match t {
        Ok((Event::SequenceStart(_, _), _)) => Ok(()),
        _ => Err(unexpected("SequenceStart", t)),
    }
}

/// Whether a token closes a sequence; `message` is the error where it does not.
pub open spec fn sequence_end_of(t: Token, message: &'static str) -> Result<(), Errors> {
    match t {
        Ok((Event::SequenceEnd, _)) => Ok(()),
        _ => Err(Errors::Custom(message)),
    }
}

/// Whether a token opens a mapping.
pub open spec fn mapping_start_of(t: Token) -> Result<(), Errors> {
    match t {
        Ok((Event::MappingStart(_, _), _)) => Ok(()),
        _ => Err(unexpected("MappingStart", t)),
    }
}

/// Whether a token closes a mapping.
pub open spec fn mapping_end_of(t: Token) -> Result<(), Errors> {
    match t {
        Ok((Event::MappingEnd, _)) => Ok(()),
        _ => Err(unexpected("MappingEnd", t)),
    }
}

/// Whether a token closes the mapping of an enum.
pub open spec fn enum_end_of(t: Token) -> Result<(), Errors> {
    match t {
        Ok((Event::MappingEnd, _)) => Ok(()),
        _ => Err(Errors::Custom("Expected MappingEnd")),
    }
}

/// The error for a token that is no event of the expected kind.
pub fn unexpected_token(expected: &'static str, t: Token) -> (e: Errors)
    ensures
        e == unexpected(expected, t),
{
    match t {
        Ok((event, marker)) => Errors::UnexpectedEventError(expected, event, marker),
        Err(marker) => Errors::ScanError(marker),
    }
}

/// Whether a scalar's text stands for nothing.
pub fn null_text(text: &str) -> (r: bool)
    ensures
        r == is_null(text@),
{
    proof {
        reveal_strlit("null");
        reveal_strlit("~");
        assert("null"@ =~= seq!['n', 'u', 'l', 'l']);
        assert("~"@ =~= seq!['~']);
    }
    same_text(text, "null") || same_text(text, "~")
}

/// Whether a style is the plain one.
pub fn is_plain(style: &TScalarStyle) -> (r: bool)
    ensures
        r == (*style is Plain),
{
    match style {
        TScalarStyle::Plain => true,
        _ => false,
    }
}

/// Reads a boolean from a token.
pub fn bool_from_token(t: Token) -> (r: Result<bool, Errors>)
    ensures
        r == bool_of(t),
{
    match t {
        Ok((Event::Scalar(text, style, _, _), marker)) => {
            proof {
                reveal_strlit("true");
                reveal_strlit("false");
                assert("true"@ =~= seq!['t', 'r', 'u', 'e']);
                assert("false"@ =~= seq!['f', 'a', 'l', 's', 'e']);
            }
            let plain = is_plain(&style);
            if plain && same_text(text.as_str(), "true") {
                Ok(true)
            } else if plain && same_text(text.as_str(), "false") {
                Ok(false)
            } else {
                Err(Errors::UnexpectedScalarValueError("'true' of 'false'", text, marker))
            }
        },
        t => Err(unexpected_token("Plain scalar", t)),
    }
}

/// Reads the text of a plain scalar from a token.
pub fn number_text_from_token(t: Token) -> (r: Result<String, Errors>)
    ensures
        r == number_text_of(t),
{
    match t {
        Ok((Event::Scalar(text, TScalarStyle::Plain, _, _), _)) => Ok(text),
        t => Err(unexpected_token("Scalar", t)),
    }
}

/// Reads the text of a real number from a token.
pub fn real_from_token(t: Token) -> (r: Result<String, Errors>)
    ensures
        r == real_of(t),
{
    match number_text_from_token(t) {
        Ok(text) => if real_numeral(text.as_str()) {
            Ok(text)
        } else {
            Err(Errors::ParseNumberError(text))
        },
        Err(e) => Err(e),
    }
}

/// Reads an integer between `min` and `max` from a token.
pub fn int_from_token(t: Token, signed: bool, min: i128, max: i128) -> (r: Result<i128, Errors>)
    requires
        -0x8000_0000_0000_0000 <= min <= 0 <= max <= 0xffff_ffff_ffff_ffff,
    ensures
        int_of(t, signed, min as int, max as int) == match r {
            Ok(v) => Ok::<int, Errors>(v as int),
            Err(e) => Err(e),
        },
        r matches Ok(v) ==> min <= v <= max,
{
    match number_text_from_token(t) {
        Ok(text) => match parse_decimal(text.as_str(), signed, min, max) {
            Some(v) => Ok(v),
            None => Err(Errors::ParseNumberError(text)),
        },
        Err(e) => Err(e),
    }
}

/// Reads a character from a token.
pub fn char_from_token(t: Token) -> (r: Result<char, Errors>)
    ensures
        r == char_of(t),
{
    match t {
        Ok((Event::Scalar(text, style, _, _), marker)) => {
            if is_plain(&style) && text.as_str().unicode_len() == 1 {
                Ok(text.as_str().get_char(0))
            } else {
                Err(Errors::UnexpectedScalarValueError("String with length 1", text, marker))
            }
        },
        t => Err(unexpected_token("Plain scalar", t)),
    }
}

/// Reads a string from a token.
pub fn string_from_token(t: Token) -> (r: Result<String, Errors>)
    ensures
        r == string_of(t),
{
    match t {
        Ok((Event::Scalar(text, _, _, _), _)) => Ok(text),
        t => Err(unexpected_token("Scalar", t)),
    }
}

/// Reads nothing from a token: it must be a scalar `null` or `~`.
pub fn null_from_token(t: Token, expected: &'static str) -> (r: Result<(), Errors>)
    ensures
        r == null_of(t, expected),
{
    match t {
        Ok((Event::Scalar(text, _, _, _), marker)) => {
            if null_text(text.as_str()) {
                Ok(())
            } else {
                Err(Errors::UnexpectedScalarValueError(expected, text, marker))
            }
        },
        t => Err(unexpected_token("Scalar", t)),
    }
}

/// What the scalar classifier of `yaml_rust2` makes of a scalar's text.
#[derive(Debug, PartialEq)]
pub enum Classified {
    /// A real number, with the text as it stands.
    Real(String),
    /// An integer.
    Integer(i64),
    /// A string.
    Text(String),
    /// A boolean.
    Boolean(bool),
    /// Nothing.
    Null,
    /// A node of another kind, which no scalar is.
    Other,
}

/// What the scalar classifier of `yaml_rust2` makes of a scalar's text.
pub uninterp spec fn classified(text: Seq<char>) -> Classified;

/// `Yaml::from_str`: classifies the text of a scalar as nothing, a boolean, an
/// integer, a real number or a string, never as a node of another kind. The result
/// depends on the text alone. A real number and a string hold the text as it
/// stands; the empty text, `~` and `null` are nothing; `true` and `false`, also with
/// a capital or in capitals, are the booleans.
#[verifier::external_body]
pub(crate) fn classify(text: &str) -> (c: Classified)
    ensures
        c == classified(text@),
        !(c is Other),
        c matches Classified::Real(v) ==> v@ == text@,
        c matches Classified::Text(v) ==> v@ == text@,
        is_null(text@) || text@.len() == 0 ==> c is Null,
        text@ == "true"@ || text@ == "True"@ || text@ == "TRUE"@ ==> c == Classified::Boolean(true),
        text@ == "false"@ || text@ == "False"@ || text@ == "FALSE"@ ==> c == Classified::Boolean(
            false,
        ),
{
    match Yaml::from_str(text) {
        Yaml::Real(v) => Classified::Real(v),
        Yaml::Integer(v) => Classified::Integer(v),
        Yaml::String(v) => Classified::Text(v),
        Yaml::Boolean(v) => Classified::Boolean(v),
        Yaml::Null => Classified::Null,
        Yaml::Array(_) | Yaml::Hash(_) | Yaml::Alias(_) | Yaml::BadValue => Classified::Other,
    }
}

/// What a target of any kind finds at a token.
#[derive(Debug, PartialEq)]
pub enum Found {
    /// A scalar, classified by its text.
    Scalar(Node),
    /// The start of a sequence.
    Sequence,
    /// The start of a mapping.
    Mapping,
}

/// The scalar node that a classified text is. A real number must be a numeral that
/// the standard library reads, else the text is no number; a node of another kind
/// is an error.
pub open spec fn found_of(c: Classified) -> Result<Found, Errors> {
    match c {
        Classified::Real(v) => if is_real_numeral(v@) {
            Ok(Found::Scalar(Node::Real(v)))
        } else {
            Err(Errors::ParseNumberError(v))
        },
        Classified::Integer(v) => Ok(Found::Scalar(Node::Integer(v))),
        Classified::Text(v) => Ok(Found::Scalar(Node::Text(v))),
        Classified::Boolean(v) => Ok(Found::Scalar(Node::Boolean(v))),
        Classified::Null => Ok(Found::Scalar(Node::Null)),
        Classified::Other => Err(Errors::Custom("Unexpected Yaml node type")),
    }
}

/// Makes the scalar node of a classified text.
pub fn found_from_classified(c: Classified) -> (r: Result<Found, Errors>)
    ensures
        r == found_of(c),
{
    match c {
        Classified::Real(v) => if real_numeral(v.as_str()) {
            Ok(Found::Scalar(Node::Real(v)))
        } else {
            Err(Errors::ParseNumberError(v))
        },
        Classified::Integer(v) => Ok(Found::Scalar(Node::Integer(v))),
        Classified::Text(v) => Ok(Found::Scalar(Node::Text(v))),
        Classified::Boolean(v) => Ok(Found::Scalar(Node::Boolean(v))),
        Classified::Null => Ok(Found::Scalar(Node::Null)),
        Classified::Other => Err(Errors::Custom("Unexpected Yaml node type")),
    }
}

/// What a target of any kind finds at a token: a scalar, classified by its text, or
/// the start of a sequence or of a mapping. Every other event is an error with a
/// message of its own.
pub open spec fn any_of(t: Token) -> Result<Found, Errors> {
    match t {
        Err(marker) => Err(Errors::ScanError(marker)),
        Ok((Event::Scalar(text, _, _, _), _)) => found_of(classified(text@)),
        Ok((Event::SequenceStart(_, _), _)) => Ok(Found::Sequence),
        Ok((Event::MappingStart(_, _), _)) => Ok(Found::Mapping),
        Ok((Event::SequenceEnd, _)) => Err(Errors::Custom("Unexpected SequenceEnd event")),
        Ok((Event::MappingEnd, _)) => Err(Errors::Custom("Unexpected MappingEnd event")),
        Ok((Event::Nothing, _)) => Err(Errors::Custom("Unexpected Nothing event")),
        Ok((Event::StreamStart, _)) => Err(Errors::Custom("Unexpected StreamStart event")),
        Ok((Event::StreamEnd, _)) => Err(Errors::Custom("Unexpected StreamEnd event")),
        Ok((Event::DocumentStart, _)) => Err(Errors::Custom("Unexpected DocumentStart event")),
        Ok((Event::DocumentEnd, _)) => Err(Errors::Custom("Unexpected DocumentEnd event")),
        Ok((Event::Alias(_), _)) => Err(Errors::Custom("Unexpected Alias event")),
    }
}

/// Reads what a target of any kind finds at a token.
pub fn any_from_token(t: Token) -> (r: Result<Found, Errors>)
    ensures
        r == any_of(t),
{
    match t {
        Err(marker) => Err(Errors::ScanError(marker)),
        Ok((event, _)) => match event {
            Event::Scalar(text, _, _, _) => found_from_classified(classify(text.as_str())),
            Event::SequenceStart(_, _) => Ok(Found::Sequence),
            Event::MappingStart(_, _) => Ok(Found::Mapping),
            Event::SequenceEnd => Err(Errors::Custom("Unexpected SequenceEnd event")),
            Event::MappingEnd => Err(Errors::Custom("Unexpected MappingEnd event")),
            Event::Nothing => Err(Errors::Custom("Unexpected Nothing event")),
            Event::StreamStart => Err(Errors::Custom("Unexpected StreamStart event")),
            Event::StreamEnd => Err(Errors::Custom("Unexpected StreamEnd event")),
            Event::DocumentStart => Err(Errors::Custom("Unexpected DocumentStart event")),
            Event::DocumentEnd => Err(Errors::Custom("Unexpected DocumentEnd event")),
            Event::Alias(_) => Err(Errors::Custom("Unexpected Alias event")),
        },
    }
}

/// Reads what an optional target finds at a token.
pub fn absent_from_token(t: Token) -> (r: Result<bool, Errors>)
    ensures
        r == absent_of(t),
{
    match t {
        Ok((Event::Scalar(text, _, _, _), _)) => Ok(null_text(text.as_str())),
        Ok(_) => Ok(false),
        Err(marker) => Err(Errors::ScanError(marker)),
    }
}

/// Whether a token is the given event without a payload.
fn closes(t: &Token, sequence: bool) -> (r: bool)
    ensures
        sequence ==> r == (*t matches Ok((Event::SequenceEnd, _))),
        !sequence ==> r == (*t matches Ok((Event::MappingEnd, _))),
{
    match t {
        Ok((Event::SequenceEnd, _)) => sequence,
        Ok((Event::MappingEnd, _)) => !sequence,
        _ => false,
    }
}

/// The tokens that a decoder starts with: those of the text behind the start of the
/// stream and the start of the document, where they stand first. A failure of the
/// scanner there is the error.
pub open spec fn behind_preamble(s: Seq<Token>) -> Result<Seq<Token>, Errors> {
    match s[0] {
        Err(marker) => Err(Errors::ScanError(marker)),
        Ok((Event::StreamStart, _)) => {
            let rest = advance(s);
            match rest[0] {
                Err(marker) => Err(Errors::ScanError(marker)),
                Ok((Event::DocumentStart, _)) => Ok(advance(rest)),
                _ => Ok(rest),
            }
        },
        _ => Ok(s),
    }
}

/// The decoder. Its view is the stream of tokens that it has still to read.
pub struct YamlDeserializer<'de> {
    parser: Parser<Chars<'de>>,
    /// Where the stream has ended (`Ok`) or failed (`Err`), once that was read from
    /// the parser: the parser is not asked again.
    last: Option<Result<Marker, Marker>>,
}

impl<'de> View for YamlDeserializer<'de> {
    type V = Seq<Token>;

    closed spec fn view(&self) -> Seq<Token> {
        match self.last {
            Some(Ok(marker)) => seq![Ok((Event::StreamEnd, marker))],
            Some(Err(marker)) => seq![Err(marker)],
            None => pending(self.parser),
        }
    }
}

impl<'de> YamlDeserializer<'de> {
    /// The decoder's invariant: its stream is well formed.
    pub closed spec fn wf(&self) -> bool {
        self.last is None ==> well_formed(pending(self.parser))
    }

    /// The stream of a decoder is well formed.
    pub proof fn lemma_wf(&self)
        requires
            self.wf(),
        ensures
            well_formed(self@),
    {
    }

    /// A decoder for `data`, past the start of its stream and of its document.
    pub fn from_str(data: &'de str) -> (r: Result<Self, Errors>)
        ensures
            match r {
                Ok(d) => d.wf() && behind_preamble(yaml_events(data@)) == Ok::<Seq<Token>, Errors>(
                    d@,
                ),
                Err(e) => behind_preamble(yaml_events(data@)) == Err::<Seq<Token>, Errors>(e),
            },
    {
        let mut d = YamlDeserializer { parser: new_parser(data), last: None };
        match d.peek_token() {
            Err(marker) => Err(Errors::ScanError(marker)),
            Ok((Event::StreamStart, _)) => {
                let _ = d.next_token();
                match d.peek_token() {
                    Err(marker) => Err(Errors::ScanError(marker)),
                    Ok((Event::DocumentStart, _)) => {
                        let _ = d.next_token();
                        Ok(d)
                    },
                    _ => Ok(d),
                }
            },
            _ => Ok(d),
        }
    }

    /// Reads the next token and takes it away.
    pub fn next_token(&mut self) -> (t: Token)
        requires
            old(self).wf(),
        ensures
            final(self).wf(),
            t == old(self)@[0],
            final(self)@ == advance(old(self)@),
    {
        match self.last {
            Some(Ok(marker)) => Ok((Event::StreamEnd, marker)),
            Some(Err(marker)) => Err(marker),
            None => {
                let ghost before = pending(self.parser);
                proof {
                    lemma_advance_well_formed(before);
                }
                let t = parser_next(&mut self.parser);
                match &t {
                    Ok((Event::StreamEnd, marker)) => {
                        self.last = Some(Ok(*marker));
                        assert(before =~= seq![t]);
                    },
                    Err(marker) => {
                        self.last = Some(Err(*marker));
                        assert(before =~= seq![t]);
                    },
                    _ => {},
                }
                t
            },
        }
    }

    /// Reads the next token and leaves it in place.
    pub fn peek_token(&mut self) -> (t: Token)
        requires
            old(self).wf(),
        ensures
            final(self).wf(),
            t == old(self)@[0],
            final(self)@ == old(self)@,
    {
        match self.last {
            Some(Ok(marker)) => Ok((Event::StreamEnd, marker)),
            Some(Err(marker)) => Err(marker),
            None => {
                let ghost before = pending(self.parser);
                proof {
                    lemma_advance_well_formed(before);
                }
                let t = parser_peek(&mut self.parser);
                match &t {
                    Err(marker) => {
                        self.last = Some(Err(*marker));
                        assert(before =~= seq![t]);
                    },
                    _ => {},
                }
                t
            },
        }
    }

    /// Reads what stands next, for a target of any kind: a scalar, classified by its
    /// text, or the start of a sequence or of a mapping.
    pub fn deserialize_any(&mut self) -> (r: Result<Found, Errors>)
        requires
            old(self).wf(),
        ensures
            final(self).wf(),
            r == any_of(old(self)@[0]),
            final(self)@ == advance(old(self)@),
    {
        any_from_token(self.next_token())
    }

    /// Reads what stands next, for a target that ignores it.
    pub fn deserialize_ignored_any(&mut self) -> (r: Result<Found, Errors>)
        requires
            old(self).wf(),
        ensures
            final(self).wf(),
            r == any_of(old(self)@[0]),
            final(self)@ == advance(old(self)@),
    {
        self.deserialize_any()
    }

    /// Reads a boolean: a plain scalar `true` or `false`.
    pub fn deserialize_bool(&mut self) -> (r: Result<bool, Errors>)
        requires
            old(self).wf(),
        ensures
            final(self).wf(),
            r == bool_of(old(self)@[0]),
            final(self)@ == advance(old(self)@),
    {
        bool_from_token(self.next_token())
    }

    /// Reads an integer of 8 bits with a sign: a plain scalar with its numeral.
    pub fn deserialize_i8(&mut self) -> (r: Result<i8, Errors>)
        requires
            old(self).wf(),
        ensures
            final(self).wf(),
            int_of(old(self)@[0], true, i8::MIN as int, i8::MAX as int) == match r {
                Ok(v) => Ok::<int, Errors>(v as int),
                Err(e) => Err(e),
            },
            final(self)@ == advance(old(self)@),
    {
        match int_from_token(self.next_token(), true, i8::MIN as i128, i8::MAX as i128) {
            Ok(v) => Ok(v as i8),
            Err(e) => Err(e),
        }
    }

    /// Reads an integer of 16 bits with a sign: a plain scalar with its numeral.
    pub fn deserialize_i16(&mut self) -> (r: Result<i16, Errors>)
        requires
            old(self).wf(),
        ensures
            final(self).wf(),
            int_of(old(self)@[0], true, i16::MIN as int, i16::MAX as int) == match r {
                Ok(v) => Ok::<int, Errors>(v as int),
                Err(e) => Err(e),
            },
            final(self)@ == advance(old(self)@),
    {
        match int_from_token(self.next_token(), true, i16::MIN as i128, i16::MAX as i128) {
            Ok(v) => Ok(v as i16),
            Err(e) => Err(e),
        }
    }

    /// Reads an integer of 32 bits with a sign: a plain scalar with its numeral.
    pub fn deserialize_i32(&mut self) -> (r: Result<i32, Errors>)
        requires
            old(self).wf(),
        ensures
            final(self).wf(),
            int_of(old(self)@[0], true, i32::MIN as int, i32::MAX as int) == match r {
                Ok(v) => Ok::<int, Errors>(v as int),
                Err(e) => Err(e),
            },
            final(self)@ == advance(old(self)@),
    {
        match int_from_token(self.next_token(), true, i32::MIN as i128, i32::MAX as i128) {
            Ok(v) => Ok(v as i32),
            Err(e) => Err(e),
        }
    }

    /// Reads an integer of 64 bits with a sign: a plain scalar with its numeral.
    pub fn deserialize_i64(&mut self) -> (r: Result<i64, Errors>)
        requires
            old(self).wf(),
        ensures
            final(self).wf(),
            int_of(old(self)@[0], true, i64::MIN as int, i64::MAX as int) == match r {
                Ok(v) => Ok::<int, Errors>(v as int),
                Err(e) => Err(e),
            },
            final(self)@ == advance(old(self)@),
    {
        match int_from_token(self.next_token(), true, i64::MIN as i128, i64::MAX as i128) {
            Ok(v) => Ok(v as i64),
            Err(e) => Err(e),
        }
    }

    /// Reads an integer of 8 bits without a sign: a plain scalar with its numeral.
    pub fn deserialize_u8(&mut self) -> (r: Result<u8, Errors>)
        requires
            old(self).wf(),
        ensures
            final(self).wf(),
            int_of(old(self)@[0], false, 0, u8::MAX as int) == match r {
                Ok(v) => Ok::<int, Errors>(v as int),
                Err(e) => Err(e),
            },
            final(self)@ == advance(old(self)@),
    {
        match int_from_token(self.next_token(), false, 0, u8::MAX as i128) {
            Ok(v) => Ok(v as u8),
            Err(e) => Err(e),
        }
    }

    /// Reads an integer of 16 bits without a sign: a plain scalar with its numeral.
    pub fn deserialize_u16(&mut self) -> (r: Result<u16, Errors>)
        requires
            old(self).wf(),
        ensures
            final(self).wf(),
            int_of(old(self)@[0], false, 0, u16::MAX as int) == match r {
                Ok(v) => Ok::<int, Errors>(v as int),
                Err(e) => Err(e),
            },
            final(self)@ == advance(old(self)@),
    {
        match int_from_token(self.next_token(), false, 0, u16::MAX as i128) {
            Ok(v) => Ok(v as u16),
            Err(e) => Err(e),
        }
    }

    /// Reads an integer of 32 bits without a sign: a plain scalar with its numeral.
    pub fn deserialize_u32(&mut self) -> (r: Result<u32, Errors>)
        requires
            old(self).wf(),
        ensures
            final(self).wf(),
            int_of(old(self)@[0], false, 0, u32::MAX as int) == match r {
                Ok(v) => Ok::<int, Errors>(v as int),
                Err(e) => Err(e),
            },
            final(self)@ == advance(old(self)@),
    {
        match int_from_token(self.next_token(), false, 0, u32::MAX as i128) {
            Ok(v) => Ok(v as u32),
            Err(e) => Err(e),
        }
    }

    /// Reads an integer of 64 bits without a sign: a plain scalar with its numeral.
    pub fn deserialize_u64(&mut self) -> (r: Result<u64, Errors>)
        requires
            old(self).wf(),
        ensures
            final(self).wf(),
            int_of(old(self)@[0], false, 0, u64::MAX as int) == match r {
                Ok(v) => Ok::<int, Errors>(v as int),
                Err(e) => Err(e),
            },
            final(self)@ == advance(old(self)@),
    {
        match int_from_token(self.next_token(), false, 0, u64::MAX as i128) {
            Ok(v) => Ok(v as u64),
            Err(e) => Err(e),
        }
    }

    /// Reads a real number as the text of a plain scalar, which must be a numeral
    /// that the standard library reads. The number itself is floating point: the
    /// caller reads it from the text.
    pub fn deserialize_real(&mut self) -> (r: Result<String, Errors>)
        requires
            old(self).wf(),
        ensures
            final(self).wf(),
            r == real_of(old(self)@[0]),
            final(self)@ == advance(old(self)@),
    {
        real_from_token(self.next_token())
    }

    /// Reads a character: a plain scalar of exactly one character.
    pub fn deserialize_char(&mut self) -> (r: Result<char, Errors>)
        requires
            old(self).wf(),
        ensures
            final(self).wf(),
            r == char_of(old(self)@[0]),
            final(self)@ == advance(old(self)@),
    {
        char_from_token(self.next_token())
    }

    /// A borrowed string is never decoded: nothing is read.
    pub fn deserialize_str(&mut self) -> (r: Result<(), Errors>)
        ensures
            r == Err::<(), Errors>(Errors::Custom("Deserialization of &str is not supported")),
            *final(self) == *old(self),
    {
        Err(Errors::Custom("Deserialization of &str is not supported"))
    }

    /// Reads a string: the text of a scalar of any style.
    pub fn deserialize_string(&mut self) -> (r: Result<String, Errors>)
        requires
            old(self).wf(),
        ensures
            final(self).wf(),
            r == string_of(old(self)@[0]),
            final(self)@ == advance(old(self)@),
    {
        string_from_token(self.next_token())
    }

    /// Bytes are never decoded: nothing is read.
    pub fn deserialize_bytes(&mut self) -> (r: Result<(), Errors>)
        ensures
            r == Err::<(), Errors>(Errors::Custom("Deserialization of bytes is not supported")),
            *final(self) == *old(self),
    {
        Err(Errors::Custom("Deserialization of bytes is not supported"))
    }

    /// A byte buffer is never decoded: nothing is read.
    pub fn deserialize_byte_buf(&mut self) -> (r: Result<(), Errors>)
        ensures
            r == Err::<(), Errors>(
                Errors::Custom("Deserialization of byte buffer is not supported"),
            ),
            *final(self) == *old(self),
    {
        Err(Errors::Custom("Deserialization of byte buffer is not supported"))
    }

    /// Looks for an optional value. At a scalar `null` or `~` there is none: the
    /// scalar is taken away and the result is `true`. At any other event there is
    /// one: nothing is taken away and the result is `false`.
    pub fn deserialize_option(&mut self) -> (r: Result<bool, Errors>)
        requires
            old(self).wf(),
        ensures
            final(self).wf(),
            r == absent_of(old(self)@[0]),
            final(self)@ == if r == Ok::<bool, Errors>(true) {
                advance(old(self)@)
            } else {
                old(self)@
            },
    {
        let r = absent_from_token(self.peek_token());
        if let Ok(true) = r {
            let _ = self.next_token();
        }
        r
    }

    /// Reads a unit: a scalar `null` or `~`.
    pub fn deserialize_unit(&mut self) -> (r: Result<(), Errors>)
        requires
            old(self).wf(),
        ensures
            final(self).wf(),
            r == null_of(old(self)@[0], "'null' or '~'"),
            final(self)@ == advance(old(self)@),
    {
        null_from_token(self.next_token(), "'null' or '~'")
    }

    /// Reads a unit struct, as a unit.
    pub fn deserialize_unit_struct(&mut self, _name: &str) -> (r: Result<(), Errors>)
        requires
            old(self).wf(),
        ensures
            final(self).wf(),
            r == null_of(old(self)@[0], "'null' or '~'"),
            final(self)@ == advance(old(self)@),
    {
        self.deserialize_unit()
    }

    /// Reads the start of a sequence.
    pub fn deserialize_seq(&mut self) -> (r: Result<(), Errors>)
        requires
            old(self).wf(),
        ensures
            final(self).wf(),
            r == sequence_start_of(old(self)@[0]),
            final(self)@ == advance(old(self)@),
    {
        match self.next_token() {
            Ok((Event::SequenceStart(_, _), _)) => Ok(()),
            t => Err(unexpected_token("SequenceStart", t)),
        }
    }

    /// Reads the start of a tuple, as that of a sequence.
    pub fn deserialize_tuple(&mut self, _len: usize) -> (r: Result<(), Errors>)
        requires
            old(self).wf(),
        ensures
            final(self).wf(),
            r == sequence_start_of(old(self)@[0]),
            final(self)@ == advance(old(self)@),
    {
        self.deserialize_seq()
    }

    /// Reads the start of a tuple struct, as that of a sequence.
    pub fn deserialize_tuple_struct(&mut self, _name: &str, _len: usize) -> (r: Result<
        (),
        Errors,
    >)
        requires
            old(self).wf(),
        ensures
            final(self).wf(),
            r == sequence_start_of(old(self)@[0]),
            final(self)@ == advance(old(self)@),
    {
        self.deserialize_seq()
    }

    /// Whether the sequence has another element: the next token does not close it.
    /// Nothing is taken away.
    pub fn next_element(&mut self) -> (more: bool)
        requires
            old(self).wf(),
        ensures
            final(self).wf(),
            more == !(old(self)@[0] matches Ok((Event::SequenceEnd, _))),
            final(self)@ == old(self)@,
    {
        let t = self.peek_token();
        !closes(&t, true)
    }

    /// Reads the end of a sequence; `message` is the error where another token
    /// stands there.
    pub fn end_seq(&mut self, message: &'static str) -> (r: Result<(), Errors>)
        requires
            old(self).wf(),
        ensures
            final(self).wf(),
            r == sequence_end_of(old(self)@[0], message),
            final(self)@ == advance(old(self)@),
    {
        match self.next_token() {
            Ok((Event::SequenceEnd, _)) => Ok(()),
            _ => Err(Errors::Custom(message)),
        }
    }

    /// Reads the start of a mapping.
    pub fn deserialize_map(&mut self) -> (r: Result<(), Errors>)
        requires
            old(self).wf(),
        ensures
            final(self).wf(),
            r == mapping_start_of(old(self)@[0]),
            final(self)@ == advance(old(self)@),
    {
        match self.next_token() {
            Ok((Event::MappingStart(_, _), _)) => Ok(()),
            t => Err(unexpected_token("MappingStart", t)),
        }
    }

    /// Reads the start of a struct, as that of a mapping.
    pub fn deserialize_struct(&mut self, _name: &str) -> (r: Result<(), Errors>)
        requires
            old(self).wf(),
        ensures
            final(self).wf(),
            r == mapping_start_of(old(self)@[0]),
            final(self)@ == advance(old(self)@),
    {
        self.deserialize_map()
    }

    /// Whether the mapping has another key: the next token does not close it.
    /// Nothing is taken away.
    pub fn next_key(&mut self) -> (more: bool)
        requires
            old(self).wf(),
        ensures
            final(self).wf(),
            more == !(old(self)@[0] matches Ok((Event::MappingEnd, _))),
            final(self)@ == old(self)@,
    {
        let t = self.peek_token();
        !closes(&t, false)
    }

    /// Reads the end of a mapping.
    pub fn end_map(&mut self) -> (r: Result<(), Errors>)
        requires
            old(self).wf(),
        ensures
            final(self).wf(),
            r == mapping_end_of(old(self)@[0]),
            final(self)@ == advance(old(self)@),
    {
        match self.next_token() {
            Ok((Event::MappingEnd, _)) => Ok(()),
            t => Err(unexpected_token("MappingEnd", t)),
        }
    }

    /// Reads the start of an enum: that of a mapping, whose one key names the
    /// variant.
    pub fn deserialize_enum(&mut self, _name: &str) -> (r: Result<(), Errors>)
        requires
            old(self).wf(),
        ensures
            final(self).wf(),
            r == mapping_start_of(old(self)@[0]),
            final(self)@ == advance(old(self)@),
    {
        self.deserialize_map()
    }

    /// Reads an identifier, as a string.
    pub fn deserialize_identifier(&mut self) -> (r: Result<String, Errors>)
        requires
            old(self).wf(),
        ensures
            final(self).wf(),
            r == string_of(old(self)@[0]),
            final(self)@ == advance(old(self)@),
    {
        self.deserialize_string()
    }

    /// Reads the payload of a unit variant: a scalar `null` or `~`.
    pub fn unit_variant(&mut self) -> (r: Result<(), Errors>)
        requires
            old(self).wf(),
        ensures
            final(self).wf(),
            r == null_of(old(self)@[0], "'~' or 'null'"),
            final(self)@ == advance(old(self)@),
    {
        null_from_token(self.next_token(), "'~' or 'null'")
    }

    /// Reads the end of an enum: that of its mapping.
    pub fn end_enum(&mut self) -> (r: Result<(), Errors>)
        requires
            old(self).wf(),
        ensures
            final(self).wf(),
            r == enum_end_of(old(self)@[0]),
            final(self)@ == advance(old(self)@),
    {
        match self.next_token() {
            Ok((Event::MappingEnd, _)) => Ok(()),
            _ => Err(Errors::Custom("Expected MappingEnd")),
        }
    }
}

} // verus!
