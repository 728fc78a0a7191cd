//! The structural events of a YAML text, as the parser of `yaml_rust2` yields them.

use std::str::Chars;
use vstd::prelude::*;
use yaml_rust2::parser::{Event, Parser};

verus! {

/// The parser of `yaml_rust2`. Nothing inside it is read here.
#[verifier::external_type_specification]
#[verifier::external_body]
#[verifier::reject_recursive_types(T)]
pub struct ExParser<T>(Parser<T>);

/// The events of `yaml_rust2`, with their variants and fields as they are declared
/// there.
#[verifier::external_type_specification]
pub struct ExEvent(Event);

/// The tag of an event, with its fields as they are declared in `yaml_rust2`.
#[verifier::external_type_specification]
pub struct ExTag(yaml_rust2::parser::Tag);

/// The style of a scalar, with its variants as they are declared in `yaml_rust2`.
#[verifier::external_type_specification]
pub struct ExScalarStyle(yaml_rust2::scanner::TScalarStyle);

/// A position in the text that was scanned. It is carried into errors and never
/// interpreted.
#[derive(Clone, Copy, Debug, PartialEq, Eq)]
pub struct Marker {
    /// The index in the input, in bytes.
    pub index: usize,
    /// The line, counted from 1.
    pub line: usize,
    /// The column.
    pub col: usize,
}

/// What the parser yields at one step: an event with its position, or the position
/// at which scanning failed.
pub type Token = Result<(Event, Marker), Marker>;

/// Whether nothing follows `t`: the end of the stream, or a failure.
pub open spec fn is_last(t: Token) -> bool {
    t is Err || t matches Ok((Event::StreamEnd, _))
}

/// A stream of tokens is well formed when it ends with the end of the stream or a
/// failure, and holds neither before.
pub open spec fn well_formed(s: Seq<Token>) -> bool {
    &&& s.len() > 0
    &&& is_last(s.last())
    &&& forall|i: int| 0 <= i < s.len() - 1 ==> !is_last(#[trigger] s[i])
}

/// The stream behind its first token. The last token is never taken away: a stream
/// that has ended, or has failed, says so again.
pub open spec fn advance(s: Seq<Token>) -> Seq<Token> {
    if s.len() > 1 {
        s.drop_first()
    } else {
        s
    }
}

/// Taking a token away keeps a stream well formed.
pub proof fn lemma_advance_well_formed(s: Seq<Token>)
    requires
        well_formed(s),
    ensures
        well_formed(advance(s)),
        s.len() > 1 ==> advance(s).len() < s.len(),
        s.len() > 1 <==> !is_last(s[0]),
{
    if s.len() > 1 {
        let t = s.drop_first();
        assert forall|i: int| 0 <= i < t.len() - 1 implies !is_last(#[trigger] t[i]) by {
            assert(t[i] == s[i + 1]);
        }
    }
}

/// The results that `next_token` gives from this parser on, up to and with the first
/// end of the stream or failure.
pub uninterp spec fn pending(p: Parser<Chars<'_>>) -> Seq<Token>;

/// The tokens that a new parser of a text has to yield.
pub uninterp spec fn yaml_events(text: Seq<char>) -> Seq<Token>;

/// `Parser::new_from_str`: a parser that has the tokens of `text` to yield. The text
/// is finite, so they come to the end of the stream, or to a failure, and stop there.
#[verifier::external_body]
pub(crate) fn new_parser<'a>(text: &'a str) -> (p: Parser<Chars<'a>>)
    ensures
        pending(p) == yaml_events(text@),
        well_formed(pending(p)),
{
    Parser::new_from_str(text)
}

/// `Parser::next_token`: yields the first pending token. Where that is an event
/// other than the end of the stream, it is taken away. What the parser has pending
/// after the end of the stream or after a failure is not stated here.
#[verifier::external_body]
pub(crate) fn parser_next(p: &mut Parser<Chars<'_>>) -> (r: Token)
    requires
        pending(*old(p)).len() > 0,
    ensures
        r == pending(*old(p))[0],
        !is_last(r) ==> pending(*final(p)) == pending(*old(p)).drop_first(),
{
    match p.next_token() {
        Ok((ev, m)) => Ok((ev, Marker { index: m.index(), line: m.line(), col: m.col() })),
        Err(e) => Err(
            Marker { index: e.marker().index(), line: e.marker().line(), col: e.marker().col() },
        ),
    }
}

/// `Parser::peek`: yields a copy of the first pending token. An event stays pending.
/// What the parser has pending after a failure is not stated here.
#[verifier::external_body]
pub(crate) fn parser_peek(p: &mut Parser<Chars<'_>>) -> (r: Token)
    requires
        pending(*old(p)).len() > 0,
    ensures
        r == pending(*old(p))[0],
        r is Ok ==> pending(*final(p)) == pending(*old(p)),
{
    match p.peek() {
        Ok((ev, m)) => Ok((ev.clone(), Marker { index: m.index(), line: m.line(), col: m.col() })),
        Err(e) => Err(
            Marker { index: e.marker().index(), line: e.marker().line(), col: e.marker().col() },
        ),
    }
}

} // verus!
