//! Character-level building blocks shared by the encoder and the decoder.

use vstd::prelude::*;
use vstd::std_specs::iter::IteratorSpec;
use vstd::string::*;

verus! {

/// `String::push`: the character is added at the end of the text.
#[verifier::external_body]
pub(crate) fn push_char(s: &mut String, c: char)
    ensures
        final(s)@ == old(s)@.push(c),
{
    s.push(c);
}

/// The characters of a text, in order.
pub fn chars_of(s: &str) -> (v: Vec<char>)
    ensures
        v@ == s@,
{
    let mut v: Vec<char> = Vec::new();
    let mut it = s.chars();
    loop
        invariant
            v@ + it.remaining() == s@,
            it.decrease() is Some,
        ensures
            v@ == s@,
        decreases it.decrease()->0,
    {
        match it.next() {
            Some(c) => {
                v.push(c);
            },
            None => {
                break;
            },
        }
    }
    v
}

/// Appends the characters `chars[from..to]` to `out`.
pub fn push_range(out: &mut String, chars: &Vec<char>, from: usize, to: usize)
    requires
        from <= to <= chars.len(),
    ensures
        final(out)@ == old(out)@ + chars@.subrange(from as int, to as int),
{
    let mut i: usize = from;
    while i < to
        invariant
            from <= i <= to <= chars.len(),
            out@ == old(out)@ + chars@.subrange(from as int, i as int),
        decreases to - i,
    {
        push_char(out, chars[i]);
        i += 1;
    }
}

/// Whether two texts hold the same characters.
pub fn same_text(a: &str, b: &str) -> (r: bool)
    ensures
        r == (a@ == b@),
{
    let x = a.to_owned();
    let y = b.to_owned();
    x == y
}

/// The decimal digit with the value `d`.
pub open spec fn digit_char(d: int) -> char {
    (('0' as int) + d) as char
}

/// Whether `c` is one of the ten decimal digits.
pub open spec fn is_digit(c: char) -> bool {
    '0' <= c && c <= '9'
}

/// The value of the decimal digit `c`.
pub open spec fn digit_value(c: char) -> int {
    (c as int) - ('0' as int)
}

/// The decimal digits of `n`, most significant first, without leading zeros.
pub open spec fn digits_text(n: nat) -> Seq<char>
    decreases n,
{
    if n < 10 {
        seq![digit_char(n as int)]
    } else {
        digits_text(n / 10).push(digit_char((n % 10) as int))
    }
}

/// The decimal text of `n`: a minus sign where `n` is negative, then its digits.
pub open spec fn decimal_text(n: int) -> Seq<char> {
    if n < 0 {
        seq!['-'] + digits_text((-n) as nat)
    } else {
        digits_text(n as nat)
    }
}

/// Whether every character of `s` is a decimal digit.
pub open spec fn all_digits(s: Seq<char>) -> bool {
    forall|i: int| 0 <= i < s.len() ==> is_digit(#[trigger] s[i])
}

/// The number that a run of decimal digits denotes.
pub open spec fn digits_value(s: Seq<char>) -> nat
    decreases s.len(),
{
    if s.len() == 0 {
        0
    } else {
        (digits_value(s.drop_last()) * 10 + digit_value(s.last())) as nat
    }
}

/// The number that a decimal numeral denotes: an optional sign (`+`, or `-` where
/// `signed`), then one or more digits. `None` where the text has another form.
pub open spec fn numeral_value(s: Seq<char>, signed: bool) -> Option<int> {
    if s.len() == 0 {
        None
    } else if s[0] == '+' {
        if s.len() > 1 && all_digits(s.skip(1)) {
            Some(digits_value(s.skip(1)) as int)
        } else {
            None
        }
    } else if s[0] == '-' && signed {
        if s.len() > 1 && all_digits(s.skip(1)) {
            Some(-(digits_value(s.skip(1)) as int))
        } else {
            None
        }
    } else if all_digits(s) {
        Some(digits_value(s) as int)
    } else {
        None
    }
}

/// The integer between `min` and `max` that the numeral `s` denotes, if there is one.
pub open spec fn parsed_int(s: Seq<char>, signed: bool, min: int, max: int) -> Option<int> {
    match numeral_value(s, signed) {
        Some(v) => if min <= v <= max {
            Some(v)
        } else {
            None
        },
        None => None,
    }
}

fn digit_of(d: u8) -> (c: char)
    requires
        d < 10,
    ensures
        c == digit_char(d as int),
        is_digit(c),
        digit_value(c) == d,
{
    (48u8 + d) as char
}

fn push_digits(out: &mut String, n: u64)
    ensures
        final(out)@ == old(out)@ + digits_text(n as nat),
    decreases n,
{
    if n >= 10 {
        push_digits(out, n / 10);
    }
    push_char(out, digit_of((n % 10) as u8));
}

/// Appends the decimal text of `n` to `out`.
pub fn push_decimal(out: &mut String, n: i128)
    requires
        -0x8000_0000_0000_0000 <= n <= 0xffff_ffff_ffff_ffff,
    ensures
        final(out)@ == old(out)@ + decimal_text(n as int),
{
    if n < 0 {
        push_char(out, '-');
        push_digits(out, (-n) as u64);
    } else {
        push_digits(out, n as u64);
    }
}

/// A prefix of a run of digits denotes no more than the whole run.
pub proof fn lemma_digits_value_prefix(s: Seq<char>, k: int)
    requires
        all_digits(s),
        0 <= k <= s.len(),
    ensures
        digits_value(s.take(k)) <= digits_value(s),
    decreases s.len(),
{
    if k < s.len() {
        lemma_digits_value_prefix(s.drop_last(), k);
        assert(s.drop_last().take(k) =~= s.take(k));
        assert(is_digit(s[s.len() - 1]));
    } else {
        assert(s.take(k) =~= s);
    }
}

/// Reads a decimal numeral between `min` and `max`.
pub fn parse_decimal(text: &str, signed: bool, min: i128, max: i128) -> (r: Option<i128>)
    requires
        -0x8000_0000_0000_0000 <= min <= 0 <= max <= 0xffff_ffff_ffff_ffff,
    ensures
        r == match parsed_int(text@, signed, min as int, max as int) {
            Some(v) => Some(v as i128),
            None => None::<i128>,
        },
{
    let chars = chars_of(text);
    let n = chars.len();
    if n == 0 {
        return None;
    }
    let negative = signed && chars[0] == '-';
    let start: usize = if chars[0] == '+' || negative {
        1
    } else {
        0
    };
    if start == n {
        return None;
    }
    let limit: i128 = if negative {
        -min
    } else {
        max
    };
    let ghost digits = text@.skip(start as int);
    proof {
        if start == 0 {
            assert(digits =~= text@);
        }
        assert(digits.take(0) =~= Seq::<char>::empty());
    }
    let mut acc: i128 = 0;
    let mut i: usize = start;
    while i < n
        invariant
            start <= i <= n,
            n == chars.len(),
            chars@ == text@,
            digits == text@.skip(start as int),
            digits.len() == n - start,
            numeral_value(text@, signed) == if all_digits(digits) {
                if negative {
                    Some(-(digits_value(digits) as int))
                } else {
                    Some(digits_value(digits) as int)
                }
            } else {
                None
            },
            negative ==> limit == -min,
            !negative ==> limit == max,
            -0x8000_0000_0000_0000 <= min <= 0 <= max <= 0xffff_ffff_ffff_ffff,
            all_digits(digits.take(i - start)),
            acc == digits_value(digits.take(i - start)),
            0 <= acc <= limit <= 0xffff_ffff_ffff_ffff,
        decreases n - i,
    {
        let c = chars[i];
        if !('0' <= c && c <= '9') {
            assert(!is_digit(digits[i - start]));
            return None;
        }
        let d: i128 = ((c as u8) - 48u8) as i128;
        let next: i128 = acc * 10 + d;
        proof {
            let t = digits.take(i - start + 1);
            assert(t.drop_last() =~= digits.take(i - start));
            assert(t.last() == c);
            assert(digits_value(t) == next);
            assert forall|j: int| 0 <= j < t.len() implies is_digit(#[trigger] t[j]) by {
                if j < i - start {
                    assert(t[j] == digits.take(i - start)[j]);
                }
            }
        }
        if next > limit {
            proof {
                if all_digits(digits) {
                    lemma_digits_value_prefix(digits, i - start + 1);
                }
            }
            return None;
        }
        acc = next;
        i += 1;
    }
    assert(digits.take(n - start) =~= digits);
    if negative {
        Some(-acc)
    } else {
        Some(acc)
    }
}

/// The integer round trip: the decimal text of `n` is a numeral that denotes `n`.
pub proof fn lemma_decimal_round_trip(n: int, signed: bool)
    requires
        signed || n >= 0,
    ensures
        numeral_value(decimal_text(n), signed) == Some(n),
{
    if n < 0 {
        let d = digits_text((-n) as nat);
        lemma_digits_round_trip((-n) as nat);
        assert(decimal_text(n).skip(1) =~= d);
    } else {
        lemma_digits_round_trip(n as nat);
    }
}

/// The digits of `n` are digits, at least one, and denote `n`.
pub proof fn lemma_digits_round_trip(n: nat)
    ensures
        digits_text(n).len() > 0,
        all_digits(digits_text(n)),
        digits_value(digits_text(n)) == n,
    decreases n,
{
    if n < 10 {
        let t = digits_text(n);
        assert(t.drop_last() =~= Seq::<char>::empty());
        assert(digits_value(t.drop_last()) == 0);
    } else {
        lemma_digits_round_trip(n / 10);
        let t = digits_text(n);
        assert(t.drop_last() =~= digits_text(n / 10));
    }
}

/// Whether the text holds a line feed.
pub open spec fn has_newline(s: Seq<char>) -> bool {
    exists|i: int| 0 <= i < s.len() && s[i] == '\n'
}

/// The number of characters before the first line feed of `s`; its length where it has none.
pub open spec fn line_end(s: Seq<char>) -> int
    decreases s.len(),
{
    if s.len() == 0 || s[0] == '\n' {
        0
    } else {
        1 + line_end(s.drop_first())
    }
}

/// A line without the carriage return that stood before its line feed.
pub open spec fn without_cr(line: Seq<char>) -> Seq<char> {
    if line.len() > 0 && line.last() == '\r' {
        line.drop_last()
    } else {
        line
    }
}

/// The lines of a text. A line ends at a line feed, or at a carriage return followed
/// by one; the ending is not part of the line. What follows the last line feed is a
/// line of its own unless it is empty.
pub open spec fn lines_of(s: Seq<char>) -> Seq<Seq<char>>
    decreases s.len(),
{
    if s.len() == 0 {
        Seq::empty()
    } else {
        let k = line_end(s);
        if k < 0 || k >= s.len() {
            seq![s]
        } else {
            seq![without_cr(s.take(k))] + lines_of(s.skip(k + 1))
        }
    }
}

/// `line_end` is the first position that holds a line feed.
pub proof fn lemma_line_end(s: Seq<char>, k: int)
    requires
        0 <= k <= s.len(),
        forall|j: int| 0 <= j < k ==> s[j] != '\n',
        k == s.len() || s[k] == '\n',
    ensures
        line_end(s) == k,
    decreases k,
{
    if k > 0 {
        lemma_line_end(s.drop_first(), k - 1);
    }
}

/// A text has a line feed exactly where its first line ends before its end.
pub proof fn lemma_line_end_bounds(s: Seq<char>)
    ensures
        0 <= line_end(s) <= s.len(),
        has_newline(s) <==> line_end(s) < s.len(),
        forall|j: int| 0 <= j < line_end(s) ==> s[j] != '\n',
        line_end(s) < s.len() ==> s[line_end(s)] == '\n',
    decreases s.len(),
{
    if s.len() == 0 || s[0] == '\n' {
    } else {
        let t = s.drop_first();
        lemma_line_end_bounds(t);
        assert forall|j: int| 0 <= j < line_end(s) implies s[j] != '\n' by {
            if j > 0 {
                assert(s[j] == t[j - 1]);
            }
        }
        if has_newline(s) {
            let i = choose|i: int| 0 <= i < s.len() && s[i] == '\n';
            assert(t[i - 1] == '\n');
        }
        if line_end(t) < t.len() {
            assert(s[line_end(t) + 1] == '\n');
        }
    }
}

/// Whether the text holds a line feed.
pub fn contains_newline(chars: &Vec<char>) -> (r: bool)
    ensures
        r == has_newline(chars@),
{
    let mut i: usize = 0;
    while i < chars.len()
        invariant
            i <= chars.len(),
            forall|j: int| 0 <= j < i ==> chars@[j] != '\n',
        decreases chars.len() - i,
    {
        if chars[i] == '\n' {
            return true;
        }
        i += 1;
    }
    false
}

/// The lower-case form of a letter of the basic alphabet; any other character is
/// itself.
pub open spec fn lower(c: char) -> char {
    if 'A' <= c && c <= 'Z' {
        ((c as int) + 32) as char
    } else {
        c
    }
}

/// Whether `s` is `word`, whatever the case of its letters. `word` is in lower case.
pub open spec fn is_word(s: Seq<char>, word: Seq<char>) -> bool {
    s.len() == word.len() && forall|i: int| 0 <= i < s.len() ==> lower(#[trigger] s[i]) == word[i]
}

/// Whether `c` is a sign.
pub open spec fn is_sign(c: char) -> bool {
    c == '+' || c == '-'
}

/// The number of digits that `s` starts with.
pub open spec fn digits_run(s: Seq<char>) -> int
    decreases s.len(),
{
    if s.len() == 0 || !is_digit(s[0]) {
        0
    } else {
        1 + digits_run(s.drop_first())
    }
}

/// Whether `s` is an exponent: the letter `e`, an optional sign, one or more digits.
pub open spec fn is_exponent(s: Seq<char>) -> bool {
    s.len() >= 2 && lower(s[0]) == 'e' && ({
        let digits = if is_sign(s[1]) {
            s.skip(2)
        } else {
            s.skip(1)
        };
        digits.len() > 0 && all_digits(digits)
    })
}

/// Whether `s` is a decimal number: digits with an optional point among them, before
/// them or behind them, at least one digit in all, and an optional exponent.
pub open spec fn is_number(s: Seq<char>) -> bool {
    let whole = digits_run(s);
    let behind = s.skip(whole);
    if behind.len() > 0 && behind[0] == '.' {
        let part = digits_run(behind.skip(1));
        let rest = behind.skip(1 + part);
        whole + part > 0 && (rest.len() == 0 || is_exponent(rest))
    } else {
        whole > 0 && (behind.len() == 0 || is_exponent(behind))
    }
}

/// Whether `s` is the numeral of a real number, as the standard library reads one:
/// an optional sign, then `inf`, `infinity` or `nan` in any case, or a decimal
/// number.
pub open spec fn is_real_numeral(s: Seq<char>) -> bool {
    let body = if s.len() > 0 && is_sign(s[0]) {
        s.skip(1)
    } else {
        s
    };
    is_word(body, seq!['i', 'n', 'f']) || is_word(
        body,
        seq!['i', 'n', 'f', 'i', 'n', 'i', 't', 'y'],
    ) || is_word(body, seq!['n', 'a', 'n']) || is_number(body)
}

fn to_lower(c: char) -> (r: char)
    ensures
        r == lower(c),
{
    if 'A' <= c && c <= 'Z' {
        ((c as u8) + 32u8) as char
    } else {
        c
    }
}

fn word_at(chars: &Vec<char>, from: usize, word: &str) -> (r: bool)
    requires
        from <= chars.len(),
    ensures
        r == is_word(chars@.skip(from as int), word@),
{
    let letters = chars_of(word);
    let ghost s = chars@.skip(from as int);
    if chars.len() - from != letters.len() {
        return false;
    }
    let mut i: usize = 0;
    while i < letters.len()
        invariant
            i <= letters.len(),
            from <= chars.len(),
            chars.len() - from == letters.len(),
            letters@ == word@,
            s == chars@.skip(from as int),
            forall|j: int| 0 <= j < i ==> lower(#[trigger] s[j]) == letters@[j],
        decreases letters.len() - i,
    {
        assert(s[i as int] == chars@[from + i]);
        if to_lower(chars[from + i]) != letters[i] {
            return false;
        }
        i += 1;
    }
    true
}

fn digits_at(chars: &Vec<char>, from: usize) -> (n: usize)
    requires
        from <= chars.len(),
    ensures
        n == digits_run(chars@.skip(from as int)),
        from + n <= chars.len(),
{
    let mut i: usize = from;
    while i < chars.len() && '0' <= chars[i] && chars[i] <= '9'
        invariant
            from <= i <= chars.len(),
            digits_run(chars@.skip(from as int)) == (i - from) + digits_run(chars@.skip(i as int)),
        decreases chars.len() - i,
    {
        proof {
            let here = chars@.skip(i as int);
            assert(here[0] == chars@[i as int]);
            assert(here.drop_first() =~= chars@.skip(i + 1));
        }
        i += 1;
    }
    proof {
        let here = chars@.skip(i as int);
        if i < chars.len() {
            assert(here[0] == chars@[i as int]);
        }
    }
    i - from
}

fn exponent_at(chars: &Vec<char>, from: usize) -> (r: bool)
    requires
        from <= chars.len(),
    ensures
        r == is_exponent(chars@.skip(from as int)),
{
    let ghost s = chars@.skip(from as int);
    if chars.len() - from < 2 {
        return false;
    }
    assert(s[0] == chars@[from as int]);
    assert(s[1] == chars@[from + 1]);
    if to_lower(chars[from]) != 'e' {
        return false;
    }
    let start: usize = if chars[from + 1] == '+' || chars[from + 1] == '-' {
        from + 2
    } else {
        from + 1
    };
    let ghost digits = chars@.skip(start as int);
    assert(digits =~= s.skip(start - from));
    if start == chars.len() {
        return false;
    }
    let mut i: usize = start;
    while i < chars.len()
        invariant
            start <= i <= chars.len(),
            from <= start < chars.len(),
            digits == chars@.skip(start as int),
            is_exponent(chars@.skip(from as int)) == all_digits(digits),
            forall|j: int| 0 <= j < i - start ==> is_digit(#[trigger] digits[j]),
        decreases chars.len() - i,
    {
        assert(digits[i - start] == chars@[i as int]);
        if !('0' <= chars[i] && chars[i] <= '9') {
            return false;
        }
        i += 1;
    }
    true
}

/// Whether a text is the numeral of a real number.
pub fn real_numeral(text: &str) -> (r: bool)
    ensures
        r == is_real_numeral(text@),
{
    let chars = chars_of(text);
    let from: usize = if chars.len() > 0 && (chars[0] == '+' || chars[0] == '-') {
        1
    } else {
        0
    };
    let ghost body = chars@.skip(from as int);
    proof {
        reveal_strlit("inf");
        reveal_strlit("infinity");
        reveal_strlit("nan");
        assert("inf"@ =~= seq!['i', 'n', 'f']);
        assert("infinity"@ =~= seq!['i', 'n', 'f', 'i', 'n', 'i', 't', 'y']);
        assert("nan"@ =~= seq!['n', 'a', 'n']);
        if from == 0 {
            assert(body =~= text@);
        }
    }
    if word_at(&chars, from, "inf") || word_at(&chars, from, "infinity") || word_at(
        &chars,
        from,
        "nan",
    ) {
        return true;
    }
    let whole = digits_at(&chars, from);
    let point = from + whole;
    proof {
        assert(body.skip(whole as int) =~= chars@.skip(point as int));
    }
    if point < chars.len() && chars[point] == '.' {
        assert(chars@.skip(point as int)[0] == chars@[point as int]);
        let part = digits_at(&chars, point + 1);
        let rest = point + 1 + part;
        proof {
            assert(chars@.skip(point as int).skip(1) =~= chars@.skip(point + 1));
            assert(chars@.skip(point as int).skip(1 + part) =~= chars@.skip(rest as int));
        }
        whole + part > 0 && (rest == chars.len() || exponent_at(&chars, rest))
    } else {
        proof {
            if point < chars.len() {
                assert(chars@.skip(point as int)[0] == chars@[point as int]);
            }
        }
        whole > 0 && (point == chars.len() || exponent_at(&chars, point))
    }
}

} // verus!
