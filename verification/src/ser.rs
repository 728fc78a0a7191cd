//! The encoder: writes a value's text form, keeping one indentation level for the
//! whole document.

use crate::text::{
    chars_of, contains_newline, decimal_text, has_newline, lemma_line_end, lines_of, push_char,
    push_decimal, push_range, without_cr,
};
use vstd::prelude::*;
use vstd::string::*;

pub use crate::value::to_string;

verus! {

/// Why a value could not be encoded.
#[derive(Debug, PartialEq)]
pub enum Errors {
    /// The writer refused a write.
    FormArgsError,
    /// The format has no form for the value; the text says which.
    UnsupportedSerializationError(String),
}

/// The message of an error.
pub open spec fn message_text(error: Errors) -> Seq<char> {
    match error {
        Errors::FormArgsError => "Format arguments error"@,
        Errors::UnsupportedSerializationError(message) => message@,
    }
}

impl Errors {
    /// The message of the error, for a reader.
    pub fn message(&self) -> (text: String)
        ensures
            text@ == message_text(*self),
    {
        match self {
            Errors::FormArgsError => "Format arguments error".to_owned(),
            Errors::UnsupportedSerializationError(message) => message.clone(),
        }
    }
}

/// The white space that starts a line at `level`: nothing at the top level, else one
/// space more than the level.
pub open spec fn indent(level: int) -> Seq<char> {
    if level <= 0 {
        Seq::empty()
    } else {
        Seq::new((level + 1) as nat, |i: int| ' ')
    }
}

/// Writes the white space that starts a line at `level`.
pub fn write_indent(level: i32, writer: &mut String) -> (r: Result<(), Errors>)
    ensures
        r is Ok,
        final(writer)@ == old(writer)@ + indent(level as int),
{
    if level <= 0 {
        assert(writer@ + indent(level as int) =~= writer@);
        return Ok(());
    }
    let mut i: i64 = 0;
    while i <= level as i64
        invariant
            0 <= i <= level + 1,
            level > 0,
            writer@ == old(writer)@ + Seq::new(i as nat, |j: int| ' '),
        decreases level + 1 - i,
    {
        push_char(writer, ' ');
        assert(Seq::new(i as nat, |j: int| ' ').push(' ') =~= Seq::new((i + 1) as nat, |j: int| ' '));
        i += 1;
    }
    Ok(())
}

/// A character as it stands inside single quotes: a single quote gets a backslash
/// before it.
pub open spec fn escaped_char(c: char) -> Seq<char> {
    if c == '\'' {
        seq!['\\', '\'']
    } else {
        seq![c]
    }
}

/// A text as it stands inside single quotes.
pub open spec fn escaped(s: Seq<char>) -> Seq<char>
    decreases s.len(),
{
    if s.len() == 0 {
        Seq::empty()
    } else {
        escaped(s.drop_last()) + escaped_char(s.last())
    }
}

fn push_escaped(out: &mut String, chars: &Vec<char>)
    ensures
        final(out)@ == old(out)@ + escaped(chars@),
{
    let mut i: usize = 0;
    assert(chars@.take(0) =~= Seq::<char>::empty());
    while i < chars.len()
        invariant
            i <= chars.len(),
            out@ == old(out)@ + escaped(chars@.take(i as int)),
        decreases chars.len() - i,
    {
        let c = chars[i];
        proof {
            let t = chars@.take(i + 1);
            assert(t.drop_last() =~= chars@.take(i as int));
            assert(t.last() == c);
        }
        if c == '\'' {
            push_char(out, '\\');
            push_char(out, '\'');
        } else {
            push_char(out, c);
        }
        i += 1;
    }
    assert(chars@.take(chars.len() as int) =~= chars@);
}

/// Puts a backslash before every single quote of `source`.
pub fn escape_str(source: &str) -> (r: String)
    ensures
        r@ == escaped(source@),
{
    let chars = chars_of(source);
    let mut out = String::new();
    push_escaped(&mut out, &chars);
    out
}

/// The lines of a block scalar: each on a line of its own, indented one level deeper
/// than `level`.
pub open spec fn block_text(lines: Seq<Seq<char>>, level: int) -> Seq<char>
    decreases lines.len(),
{
    if lines.len() == 0 {
        Seq::empty()
    } else {
        seq!['\n'] + indent(level + 1) + lines[0] + block_text(lines.drop_first(), level)
    }
}

/// The text form of a string at `level`. Without a line feed it stands in single
/// quotes, escaped. With one it is a literal block with the header `|-`, so that what
/// ends the last line is not kept.
pub open spec fn str_text(v: Seq<char>, level: int) -> Seq<char> {
    if has_newline(v) {
        seq!['|', '-'] + block_text(lines_of(v), level)
    } else {
        seq!['\''] + escaped(v) + seq!['\'']
    }
}

/// The writer of strings.
pub struct InHouseTypeWriter {}

impl InHouseTypeWriter {
    /// Writes the text form of the string `v` at `level`.
    pub fn write_str(v: &str, level: i32, writer: &mut String) -> (r: Result<(), Errors>)
        requires
            level < i32::MAX,
        ensures
            r is Ok,
            final(writer)@ == old(writer)@ + str_text(v@, level as int),
    {
        let chars = chars_of(v);
        if contains_newline(&chars) {
            push_char(writer, '|');
            push_char(writer, '-');
            let n = chars.len();
            let mut start: usize = 0;
            assert(chars@.skip(0) =~= chars@);
            while start < n
                invariant
                    start <= n,
                    n == chars.len(),
                    level < i32::MAX,
                    writer@ + block_text(lines_of(chars@.skip(start as int)), level as int)
                        == old(writer)@ + seq!['|', '-'] + block_text(
                        lines_of(chars@),
                        level as int,
                    ),
                decreases n - start,
            {
                let ghost rest = chars@.skip(start as int);
                let mut end: usize = start;
                while end < n && chars[end] != '\n'
                    invariant
                        start <= end <= n,
                        n == chars.len(),
                        forall|j: int| start <= j < end ==> chars@[j] != '\n',
                    decreases n - end,
                {
                    end += 1;
                }
                proof {
                    assert forall|j: int| 0 <= j < end - start implies rest[j] != '\n' by {
                        assert(rest[j] == chars@[start + j]);
                    }
                    lemma_line_end(rest, end - start);
                }
                let stop: usize = if end < n && end > start && chars[end - 1] == '\r' {
                    end - 1
                } else {
                    end
                };
                let ghost line = chars@.subrange(start as int, stop as int);
                proof {
                    if end < n {
                        assert(rest.take(end - start) =~= chars@.subrange(start as int, end as int));
                        assert(without_cr(rest.take(end - start)) =~= line);
                        assert(rest.skip(end - start + 1) =~= chars@.skip(end + 1));
                        assert((seq![line] + lines_of(chars@.skip(end + 1))).drop_first()
                            =~= lines_of(chars@.skip(end + 1)));
                    } else {
                        assert(line =~= rest);
                        assert(seq![rest].drop_first() =~= Seq::<Seq<char>>::empty());
                        assert(chars@.skip(n as int) =~= Seq::<char>::empty());
                    }
                }
                push_char(writer, '\n');
                let _ = write_indent(level + 1, writer);
                push_range(writer, &chars, start, stop);
                start = if end < n {
                    end + 1
                } else {
                    n
                };
            }
            assert(chars@.skip(n as int) =~= Seq::<char>::empty());
            Ok(())
        } else {
            push_char(writer, '\'');
            push_escaped(writer, &chars);
            push_char(writer, '\'');
            Ok(())
        }
    }
}

/// The text of a boolean.
pub open spec fn bool_text(v: bool) -> Seq<char> {
    if v {
        seq!['t', 'r', 'u', 'e']
    } else {
        seq!['f', 'a', 'l', 's', 'e']
    }
}

/// The null indicator.
pub open spec fn null_text() -> Seq<char> {
    seq!['~']
}

/// The line that opens a variant with a payload: its name and a colon, then the
/// first line of the payload, one level deeper.
pub open spec fn variant_head(variant: Seq<char>, level: int) -> Seq<char> {
    variant + seq![':', '\n'] + indent(level + 1)
}

/// What opens an element of a sequence at `level`.
pub open spec fn element_head(level: int) -> Seq<char> {
    seq!['-', ' ', '\n'] + indent(level + 1)
}

/// What follows a key at `level`.
pub open spec fn key_tail(level: int) -> Seq<char> {
    seq![':', '\n'] + indent(level + 1)
}

/// What closes an element or an entry whose parent stands at `level`.
pub open spec fn entry_tail(level: int) -> Seq<char> {
    seq!['\n'] + indent(level)
}

/// The encoder: the text written so far and the indentation level.
pub struct YamlSerializer {
    level: i32,
    writer: String,
}

impl YamlSerializer {
    /// The text written so far.
    pub closed spec fn text(&self) -> Seq<char> {
        self.writer@
    }

    /// The indentation level.
    pub closed spec fn level(&self) -> int {
        self.level as int
    }

    /// An encoder at level 0 that writes behind what `writer` holds.
    pub fn new(writer: String) -> (s: Self)
        ensures
            s.text() == writer@,
            s.level() == 0,
    {
        YamlSerializer { level: 0, writer }
    }

    /// Gives the text back.
    pub fn into_inner(self) -> (out: String)
        ensures
            out@ == self.text(),
    {
        self.writer
    }

    /// The indentation level.
    pub fn current_level(&self) -> (l: i32)
        ensures
            l == self.level(),
    {
        self.level
    }

    /// Whether the encoder can go a level deeper.
    pub fn can_nest(&self) -> (r: bool)
        ensures
            r == (self.level() < i32::MAX),
    {
        self.level < i32::MAX
    }

    /// One level deeper.
    pub fn incr_level(&mut self) -> (l: i32)
        requires
            old(self).level() < i32::MAX,
        ensures
            final(self).level() == old(self).level() + 1,
            final(self).text() == old(self).text(),
            l == final(self).level(),
    {
        self.level += 1;
        self.level
    }

    /// One level back. The level is never negative.
    pub fn decr_level(&mut self) -> (l: i32)
        requires
            old(self).level() > 0,
        ensures
            final(self).level() == old(self).level() - 1,
            final(self).text() == old(self).text(),
            l == final(self).level(),
    {
        self.level -= 1;
        self.level
    }

    fn emit(&mut self, s: &str)
        ensures
            final(self).text() == old(self).text() + s@,
            final(self).level() == old(self).level(),
    {
        self.writer.append(s);
    }

    fn emit_char(&mut self, c: char)
        ensures
            final(self).text() == old(self).text().push(c),
            final(self).level() == old(self).level(),
    {
        push_char(&mut self.writer, c);
    }

    fn emit_indent(&mut self)
        ensures
            final(self).text() == old(self).text() + indent(old(self).level()),
            final(self).level() == old(self).level(),
    {
        let _ = write_indent(self.level, &mut self.writer);
    }

    fn emit_decimal(&mut self, n: i128)
        requires
            -0x8000_0000_0000_0000 <= n <= 0xffff_ffff_ffff_ffff,
        ensures
            final(self).text() == old(self).text() + decimal_text(n as int),
            final(self).level() == old(self).level(),
    {
        push_decimal(&mut self.writer, n);
    }

    /// Writes `true` or `false`.
    pub fn serialize_bool(&mut self, v: bool) -> (r: Result<(), Errors>)
        ensures
            r is Ok,
            final(self).text() == old(self).text() + bool_text(v),
            final(self).level() == old(self).level(),
    {
        proof {
            reveal_strlit("true");
            reveal_strlit("false");
        }
        if v {
            self.emit("true");
            assert("true"@ =~= bool_text(true));
        } else {
            self.emit("false");
            assert("false"@ =~= bool_text(false));
        }
        Ok(())
    }

    /// Writes the decimal text of `v`.
    pub fn serialize_i8(&mut self, v: i8) -> (r: Result<(), Errors>)
        ensures
            r is Ok,
            final(self).text() == old(self).text() + decimal_text(v as int),
            final(self).level() == old(self).level(),
    {
        self.emit_decimal(v as i128);
        Ok(())
    }

    /// Writes the decimal text of `v`.
    pub fn serialize_i16(&mut self, v: i16) -> (r: Result<(), Errors>)
        ensures
            r is Ok,
            final(self).text() == old(self).text() + decimal_text(v as int),
            final(self).level() == old(self).level(),
    {
        self.emit_decimal(v as i128);
        Ok(())
    }

    /// Writes the decimal text of `v`.
    pub fn serialize_i32(&mut self, v: i32) -> (r: Result<(), Errors>)
        ensures
            r is Ok,
            final(self).text() == old(self).text() + decimal_text(v as int),
            final(self).level() == old(self).level(),
    {
        self.emit_decimal(v as i128);
        Ok(())
    }

    /// Writes the decimal text of `v`.
    pub fn serialize_i64(&mut self, v: i64) -> (r: Result<(), Errors>)
        ensures
            r is Ok,
            final(self).text() == old(self).text() + decimal_text(v as int),
            final(self).level() == old(self).level(),
    {
        self.emit_decimal(v as i128);
        Ok(())
    }

    /// Writes the decimal text of `v`.
    pub fn serialize_u8(&mut self, v: u8) -> (r: Result<(), Errors>)
        ensures
            r is Ok,
            final(self).text() == old(self).text() + decimal_text(v as int),
            final(self).level() == old(self).level(),
    {
        self.emit_decimal(v as i128);
        Ok(())
    }

    /// Writes the decimal text of `v`.
    pub fn serialize_u16(&mut self, v: u16) -> (r: Result<(), Errors>)
        ensures
            r is Ok,
            final(self).text() == old(self).text() + decimal_text(v as int),
            final(self).level() == old(self).level(),
    {
        self.emit_decimal(v as i128);
        Ok(())
    }

    /// Writes the decimal text of `v`.
    pub fn serialize_u32(&mut self, v: u32) -> (r: Result<(), Errors>)
        ensures
            r is Ok,
            final(self).text() == old(self).text() + decimal_text(v as int),
            final(self).level() == old(self).level(),
    {
        self.emit_decimal(v as i128);
        Ok(())
    }

    /// Writes the decimal text of `v`.
    pub fn serialize_u64(&mut self, v: u64) -> (r: Result<(), Errors>)
        ensures
            r is Ok,
            final(self).text() == old(self).text() + decimal_text(v as int),
            final(self).level() == old(self).level(),
    {
        self.emit_decimal(v as i128);
        Ok(())
    }

    /// Writes a real number, which the caller hands over as its decimal text.
    pub fn serialize_real(&mut self, v: &str) -> (r: Result<(), Errors>)
        ensures
            r is Ok,
            final(self).text() == old(self).text() + v@,
            final(self).level() == old(self).level(),
    {
        self.emit(v);
        Ok(())
    }

    /// Writes the character as it is.
    pub fn serialize_char(&mut self, v: char) -> (r: Result<(), Errors>)
        ensures
            r is Ok,
            final(self).text() == old(self).text() + seq![v],
            final(self).level() == old(self).level(),
    {
        self.emit_char(v);
        assert(old(self).text().push(v) =~= old(self).text() + seq![v]);
        Ok(())
    }

    /// Writes a string: quoted on one line, or as a literal block.
    pub fn serialize_str(&mut self, v: &str) -> (r: Result<(), Errors>)
        requires
            old(self).level() < i32::MAX,
        ensures
            r is Ok,
            final(self).text() == old(self).text() + str_text(v@, old(self).level()),
            final(self).level() == old(self).level(),
    {
        InHouseTypeWriter::write_str(v, self.level, &mut self.writer)
    }

    /// Raw bytes have no form in this format: nothing is written.
    pub fn serialize_bytes(&mut self, _v: &[u8]) -> (r: Result<(), Errors>)
        ensures
            r matches Err(Errors::UnsupportedSerializationError(msg)) && msg@
                == "Serialization of bytes is not supported"@,
            final(self).text() == old(self).text(),
            final(self).level() == old(self).level(),
    {
        Err(
            Errors::UnsupportedSerializationError(
                "Serialization of bytes is not supported".to_owned(),
            ),
        )
    }

    /// Writes the null indicator.
    pub fn serialize_none(&mut self) -> (r: Result<(), Errors>)
        ensures
            r is Ok,
            final(self).text() == old(self).text() + null_text(),
            final(self).level() == old(self).level(),
    {
        self.emit_char('~');
        assert(old(self).text().push('~') =~= old(self).text() + null_text());
        Ok(())
    }

    /// Writes the null indicator.
    pub fn serialize_unit(&mut self) -> (r: Result<(), Errors>)
        ensures
            r is Ok,
            final(self).text() == old(self).text() + null_text(),
            final(self).level() == old(self).level(),
    {
        self.serialize_none()
    }

    /// Writes the null indicator.
    pub fn serialize_unit_struct(&mut self, _name: &str) -> (r: Result<(), Errors>)
        ensures
            r is Ok,
            final(self).text() == old(self).text() + null_text(),
            final(self).level() == old(self).level(),
    {
        self.serialize_none()
    }

    /// Writes a variant without a payload: its name, a colon, a space, the null
    /// indicator.
    pub fn serialize_unit_variant(&mut self, _name: &str, _variant_index: u32, variant: &str) -> (r:
        Result<(), Errors>)
        ensures
            r is Ok,
            final(self).text() == old(self).text() + variant@ + seq![':', ' '] + null_text(),
            final(self).level() == old(self).level(),
    {
        self.emit(variant);
        self.emit_char(':');
        self.emit_char(' ');
        assert(old(self).text() + variant@ + seq![':', ' '] =~= (old(self).text()
            + variant@).push(':').push(' '));
        self.serialize_none()
    }

    /// Opens a variant with a payload: writes its name and a colon, ends the line and
    /// starts the next one a level deeper.
    pub fn begin_variant(&mut self, variant: &str)
        requires
            old(self).level() < i32::MAX,
        ensures
            final(self).text() == old(self).text() + variant_head(variant@, old(self).level()),
            final(self).level() == old(self).level() + 1,
    {
        self.emit(variant);
        self.emit_char(':');
        self.emit_char('\n');
        self.incr_level();
        self.emit_indent();
        assert(final(self).text() =~= old(self).text() + variant_head(
            variant@,
            old(self).level(),
        ));
    }

    /// Opens a sequence of `len` elements, if the number is known. An empty one
    /// opens its bracket.
    pub fn serialize_seq(&mut self, len: Option<usize>) -> (r: Result<SequenceSerializer, Errors>)
        ensures
            r matches Ok(s) && s.len() == len,
            final(self).text() == old(self).text() + seq_open(len),
            final(self).level() == old(self).level(),
    {
        match len {
            Some(0) => {
                self.emit_char('[');
                assert(old(self).text().push('[') =~= old(self).text() + seq_open(len));
                Ok(SequenceSerializer { len: Some(0) })
            },
            _ => {
                assert(old(self).text() =~= old(self).text() + seq_open(len));
                Ok(SequenceSerializer { len })
            },
        }
    }

    /// Opens a tuple of `len` elements, as a sequence.
    pub fn serialize_tuple(&mut self, len: usize) -> (r: Result<SequenceSerializer, Errors>)
        ensures
            r matches Ok(s) && s.len() == Some(len),
            final(self).text() == old(self).text() + seq_open(Some(len)),
            final(self).level() == old(self).level(),
    {
        self.serialize_seq(Some(len))
    }

    /// Opens a tuple struct of `len` fields, as a sequence.
    pub fn serialize_tuple_struct(&mut self, _name: &str, len: usize) -> (r: Result<
        SequenceSerializer,
        Errors,
    >)
        ensures
            r matches Ok(s) && s.len() == Some(len),
            final(self).text() == old(self).text() + seq_open(Some(len)),
            final(self).level() == old(self).level(),
    {
        self.serialize_seq(Some(len))
    }

    /// Opens a tuple variant of `len` fields. An empty one stays on the line of its
    /// name; another one starts a level deeper.
    pub fn serialize_tuple_variant(
        &mut self,
        _name: &str,
        _variant_index: u32,
        variant: &str,
        len: usize,
    ) -> (r: Result<SequenceSerializer, Errors>)
        requires
            len > 0 ==> old(self).level() < i32::MAX,
        ensures
            r matches Ok(s) && s.len() == Some(len),
            final(self).text() == old(self).text() + tuple_variant_open(
                variant@,
                len as int,
                old(self).level(),
            ),
            final(self).level() == old(self).level() + if len == 0 {
                0int
            } else {
                1int
            },
    {
        if len == 0 {
            self.emit(variant);
            self.emit_char(':');
            self.emit_char(' ');
            let r = self.serialize_seq(Some(len));
            assert(final(self).text() =~= old(self).text() + tuple_variant_open(
                variant@,
                len as int,
                old(self).level(),
            ));
            r
        } else {
            self.begin_variant(variant);
            let r = self.serialize_seq(Some(len));
            assert(final(self).text() =~= old(self).text() + tuple_variant_open(
                variant@,
                len as int,
                old(self).level(),
            ));
            r
        }
    }

    /// Opens a mapping: nothing is written.
    pub fn serialize_map(&mut self, _len: Option<usize>) -> (r: Result<MapSerializer, Errors>)
        ensures
            r is Ok,
            final(self).text() == old(self).text(),
            final(self).level() == old(self).level(),
    {
        Ok(MapSerializer {  })
    }

    /// Opens a struct, as a mapping.
    pub fn serialize_struct(&mut self, _name: &str, len: usize) -> (r: Result<
        MapSerializer,
        Errors,
    >)
        ensures
            r is Ok,
            final(self).text() == old(self).text(),
            final(self).level() == old(self).level(),
    {
        self.serialize_map(Some(len))
    }

    /// Opens a struct variant: its name, then its fields as a mapping a level deeper.
    pub fn serialize_struct_variant(
        &mut self,
        name: &str,
        _variant_index: u32,
        variant: &str,
        len: usize,
    ) -> (r: Result<MapSerializer, Errors>)
        requires
            old(self).level() < i32::MAX,
        ensures
            r is Ok,
            final(self).text() == old(self).text() + variant_head(variant@, old(self).level()),
            final(self).level() == old(self).level() + 1,
    {
        self.begin_variant(variant);
        self.serialize_struct(name, len)
    }
}

/// What opening a sequence writes: a bracket where it is known to be empty.
pub open spec fn seq_open(len: Option<usize>) -> Seq<char> {
    if len == Some(0usize) {
        seq!['[']
    } else {
        Seq::empty()
    }
}

/// What closing a sequence writes: a bracket where it is known to be empty.
pub open spec fn seq_close(len: Option<usize>) -> Seq<char> {
    if len == Some(0usize) {
        seq![']']
    } else {
        Seq::empty()
    }
}

/// What opening a tuple variant of `len` fields writes at `level`.
pub open spec fn tuple_variant_open(variant: Seq<char>, len: int, level: int) -> Seq<char> {
    if len == 0 {
        variant + seq![':', ' ', '[']
    } else {
        variant_head(variant, level)
    }
}

/// The state of a sequence that is being written: the number of elements that was
/// announced.
pub struct SequenceSerializer {
    len: Option<usize>,
}

impl SequenceSerializer {
    /// The number of elements that was announced, if any.
    pub closed spec fn len(&self) -> Option<usize> {
        self.len
    }

    /// The number of elements that was announced, if any.
    pub fn len_hint(&self) -> (r: Option<usize>)
        ensures
            r == self.len(),
    {
        self.len
    }

    /// Opens an element: a dash, then the element's first line a level deeper.
    pub fn begin_element(&mut self, ser: &mut YamlSerializer)
        requires
            old(ser).level() < i32::MAX,
        ensures
            final(self).len() == old(self).len(),
            final(ser).text() == old(ser).text() + element_head(old(ser).level()),
            final(ser).level() == old(ser).level() + 1,
    {
        ser.emit_char('-');
        ser.emit_char(' ');
        ser.emit_char('\n');
        ser.incr_level();
        ser.emit_indent();
        assert(final(ser).text() =~= old(ser).text() + element_head(old(ser).level()));
    }

    /// Closes an element: back one level, and a new line at that level.
    pub fn finish_element(&mut self, ser: &mut YamlSerializer) -> (r: Result<(), Errors>)
        requires
            old(ser).level() > 0,
        ensures
            r is Ok,
            final(self).len() == old(self).len(),
            final(ser).text() == old(ser).text() + entry_tail(old(ser).level() - 1),
            final(ser).level() == old(ser).level() - 1,
    {
        ser.decr_level();
        ser.emit_char('\n');
        ser.emit_indent();
        assert(final(ser).text() =~= old(ser).text() + entry_tail(old(ser).level() - 1));
        Ok(())
    }

    /// Closes the sequence: the bracket of an empty one, else nothing.
    pub fn process_end(self, ser: &mut YamlSerializer) -> (r: Result<(), Errors>)
        ensures
            r is Ok,
            final(ser).text() == old(ser).text() + seq_close(self.len()),
            final(ser).level() == old(ser).level(),
    {
        if let Some(0) = self.len {
            ser.emit_char(']');
            assert(old(ser).text().push(']') =~= old(ser).text() + seq_close(self.len()));
        } else {
            assert(old(ser).text() =~= old(ser).text() + seq_close(self.len()));
        }
        Ok(())
    }

    /// Closes a sequence, a tuple or a tuple struct.
    pub fn end(self, ser: &mut YamlSerializer) -> (r: Result<(), Errors>)
        ensures
            r is Ok,
            final(ser).text() == old(ser).text() + seq_close(self.len()),
            final(ser).level() == old(ser).level(),
    {
        self.process_end(ser)
    }

    /// Closes a tuple variant: one level back where it had fields.
    pub fn end_variant(self, ser: &mut YamlSerializer) -> (r: Result<(), Errors>)
        requires
            self.len() matches Some(l) && l > 0 ==> old(ser).level() > 0,
        ensures
            r is Ok,
            final(ser).text() == old(ser).text() + seq_close(self.len()),
            final(ser).level() == old(ser).level() - if self.len() matches Some(l) && l > 0 {
                1int
            } else {
                0int
            },
    {
        if let Some(l) = self.len {
            if l > 0 {
                ser.decr_level();
            }
        }
        self.process_end(ser)
    }
}

/// The state of a mapping that is being written.
pub struct MapSerializer {}

impl MapSerializer {
    /// Closes a key that was written: a colon, then the value's first line a level
    /// deeper.
    pub fn finish_key(&mut self, ser: &mut YamlSerializer) -> (r: Result<(), Errors>)
        requires
            old(ser).level() < i32::MAX,
        ensures
            r is Ok,
            final(ser).text() == old(ser).text() + key_tail(old(ser).level()),
            final(ser).level() == old(ser).level() + 1,
    {
        ser.emit_char(':');
        ser.emit_char('\n');
        ser.incr_level();
        ser.emit_indent();
        assert(final(ser).text() =~= old(ser).text() + key_tail(old(ser).level()));
        Ok(())
    }

    /// Closes a value that was written: back one level, and a new line at that level.
    pub fn finish_value(&mut self, ser: &mut YamlSerializer) -> (r: Result<(), Errors>)
        requires
            old(ser).level() > 0,
        ensures
            r is Ok,
            final(ser).text() == old(ser).text() + entry_tail(old(ser).level() - 1),
            final(ser).level() == old(ser).level() - 1,
    {
        ser.decr_level();
        ser.emit_char('\n');
        ser.emit_indent();
        assert(final(ser).text() =~= old(ser).text() + entry_tail(old(ser).level() - 1));
        Ok(())
    }

    /// Closes the mapping: nothing is written.
    pub fn process_end(self, ser: &mut YamlSerializer) -> (r: Result<(), Errors>)
        ensures
            r is Ok,
            final(ser).text() == old(ser).text(),
            final(ser).level() == old(ser).level(),
    {
        Ok(())
    }

    /// Closes a mapping or a struct.
    pub fn end(self, ser: &mut YamlSerializer) -> (r: Result<(), Errors>)
        ensures
            r is Ok,
            final(ser).text() == old(ser).text(),
            final(ser).level() == old(ser).level(),
    {
        self.process_end(ser)
    }

    /// Closes a struct variant: one level back.
    pub fn end_variant(self, ser: &mut YamlSerializer) -> (r: Result<(), Errors>)
        requires
            old(ser).level() > 0,
        ensures
            r is Ok,
            final(ser).text() == old(ser).text(),
            final(ser).level() == old(ser).level() - 1,
    {
        ser.decr_level();
        self.process_end(ser)
    }
}

} // verus!
