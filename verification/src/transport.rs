//! The framing of messages on a byte stream: a header that gives the
//! length of the body in decimal, an empty line, then the body.

use std::string::FromUtf8Error;
use vstd::prelude::*;
use vstd::string::*;
use vstd::utf8::{
    decode_utf8, encode_utf8, encode_utf8_decode_utf8, encode_utf8_valid_utf8, valid_utf8,
};

verus! {

/// `std::string::FromUtf8Error`, carried along as an opaque value.
#[verifier::external_type_specification]
#[verifier::external_body]
pub struct ExFromUtf8Error(FromUtf8Error);

/// `String::from_utf8` of the standard library: it succeeds on exactly the
/// byte sequences that are valid UTF-8, and then gives the text that they
/// encode.
pub assume_specification[ std::string::String::from_utf8 ](vec: Vec<u8>) -> (text: Result<
    std::string::String,
    std::string::FromUtf8Error,
>)
    ensures
        text is Ok <==> valid_utf8(vec@),
        text is Ok ==> text.unwrap()@ == decode_utf8(vec@),
;

/// Why a message could not be received.
#[derive(Debug)]
pub enum TransportError {
    /// The header gave a length that is no number.
    ParseInt(LengthError),
    /// The body is not valid UTF-8.
    FromUtf8(FromUtf8Error),
}

/// The character of the decimal digit `d`: `0` has the code 48, and the
/// other digits follow it.
pub open spec fn digit_char(d: nat) -> char {
    (0x30 + d) as char
}

/// The decimal numeral of `n`, without sign or leading zeros.
pub open spec fn decimal(n: nat) -> Seq<char>
    decreases n,
{
    if n < 10 {
        seq![digit_char(n)]
    } else {
        decimal(n / 10).push(digit_char(n % 10))
    }
}

/// The header that goes before a body of `length` bytes.
pub open spec fn header_text(length: nat) -> Seq<char> {
    "Content-Length: "@ + decimal(length) + "\r\n\r\n"@
}

/// Writes the header for a body of `length` bytes.
pub fn content_length_header(length: usize) -> (header: String)
    ensures
        header@ == header_text(length as nat),
{
    let mut header = String::from_str("Content-Length: ");
    append_decimal(&mut header, length);
    header.append("\r\n\r\n");
    header
}

/// Appends the decimal numeral of `n` to `text`.
fn append_decimal(text: &mut String, n: usize)
    ensures
        final(text)@ == old(text)@ + decimal(n as nat),
    decreases n,
{
    if n >= 10 {
        append_decimal(text, n / 10);
    }
    text.append(digit_str(n % 10));
}

/// The numeral of one digit.
fn digit_str(d: usize) -> (numeral: &'static str)
    requires
        d < 10,
    ensures
        numeral@ == seq![digit_char(d as nat)],
{
    proof {
        reveal_strlit("0");
        reveal_strlit("1");
        reveal_strlit("2");
        reveal_strlit("3");
        reveal_strlit("4");
        reveal_strlit("5");
        reveal_strlit("6");
        reveal_strlit("7");
        reveal_strlit("8");
        reveal_strlit("9");
    }
    let numeral = match d {
        0 => "0",
        1 => "1",
        2 => "2",
        3 => "3",
        4 => "4",
        5 => "5",
        6 => "6",
        7 => "7",
        8 => "8",
        _ => "9",
    };
    assert(numeral@ =~= seq![digit_char(d as nat)]);
    numeral
}

/// What one line of the header block says.
#[derive(Debug, Clone, Copy, PartialEq, Eq, Structural)]
pub enum HeaderLine {
    /// The empty line that ends the headers.
    End,
    /// The length of the body, in bytes.
    ContentLength(usize),
    /// A header that the framing does not read.
    Other,
}

/// Why the text after `Content-Length:` is no length.
#[derive(Debug, Clone, Copy, PartialEq, Eq, Structural)]
pub enum LengthError {
    /// There is no text.
    Empty,
    /// There is a character that is no decimal digit, or a sign and
    /// nothing after it.
    InvalidDigit,
    /// The number does not fit in `usize`.
    PosOverflow,
}

/// The characters with the Unicode property `White_Space`.
pub open spec fn is_white_space(c: char) -> bool {
    let u = c as u32;
    ||| 0x09 <= u <= 0x0d
    ||| u == 0x20
    ||| u == 0x85
    ||| u == 0xa0
    ||| u == 0x1680
    ||| 0x2000 <= u <= 0x200a
    ||| u == 0x2028
    ||| u == 0x2029
    ||| u == 0x202f
    ||| u == 0x205f
    ||| u == 0x3000
}

/// The decimal digits `0` to `9`.
pub open spec fn is_digit(c: char) -> bool {
    0x30 <= c as u32 <= 0x39
}

/// The number that a decimal digit stands for.
pub open spec fn digit_value(c: char) -> nat {
    (c as u32 - 0x30) as nat
}

/// `text` begins with `prefix`.
pub open spec fn has_prefix(text: Seq<char>, prefix: Seq<char>) -> bool {
    prefix.len() <= text.len() && text.subrange(0, prefix.len() as int) == prefix
}

/// `text` without `prefix` at its start, as often as it stands there.
pub open spec fn without_leading(text: Seq<char>, prefix: Seq<char>) -> Seq<char>
    decreases text.len(),
{
    if prefix.len() > 0 && has_prefix(text, prefix) {
        without_leading(text.subrange(prefix.len() as int, text.len() as int), prefix)
    } else {
        text
    }
}

/// `text` without the white space at its start.
pub open spec fn trim_start(text: Seq<char>) -> Seq<char>
    decreases text.len(),
{
    if text.len() > 0 && is_white_space(text[0]) {
        trim_start(text.drop_first())
    } else {
        text
    }
}

/// `text` without the white space at its end.
pub open spec fn trim_end(text: Seq<char>) -> Seq<char>
    decreases text.len(),
{
    if text.len() > 0 && is_white_space(text.last()) {
        trim_end(text.drop_last())
    } else {
        text
    }
}

/// `text` without the white space at both ends.
pub open spec fn trimmed(text: Seq<char>) -> Seq<char> {
    trim_end(trim_start(text))
}

/// Reads `digits` from left to right as the continuation of a numeral
/// whose value so far is `value`. The first character that is no digit, or
/// the first digit with which the number outgrows `usize`, ends the reading.
pub open spec fn continued(value: nat, digits: Seq<char>) -> Result<usize, LengthError>
    decreases digits.len(),
{
    if digits.len() == 0 {
        Ok(value as usize)
    } else if !is_digit(digits[0]) {
        Err(LengthError::InvalidDigit)
    } else if value * 10 + digit_value(digits[0]) > usize::MAX {
        Err(LengthError::PosOverflow)
    } else {
        continued(value * 10 + digit_value(digits[0]), digits.drop_first())
    }
}

/// The length that `text` gives: decimal digits, with a `+` before them
/// or without.
pub open spec fn parsed_length(text: Seq<char>) -> Result<usize, LengthError> {
    if text.len() == 0 {
        Err(LengthError::Empty)
    } else if text.len() == 1 && (text[0] == '+' || text[0] == '-') {
        Err(LengthError::InvalidDigit)
    } else if text[0] == '+' {
        continued(0, text.drop_first())
    } else {
        continued(0, text)
    }
}

/// What `line`, with its line ending, says: the line `"\r\n"` ends the
/// headers; a line that begins with `Content-Length:` gives the length, read
/// from what follows that name with the white space around it taken off;
/// every other line is skipped.
pub open spec fn header_line(line: Seq<char>) -> Result<HeaderLine, LengthError> {
    if line == "\r\n"@ {
        Ok(HeaderLine::End)
    } else if has_prefix(line, "Content-Length:"@) {
        match parsed_length(trimmed(without_leading(line, "Content-Length:"@))) {
            Ok(length) => Ok(HeaderLine::ContentLength(length)),
            Err(error) => Err(error),
        }
    } else {
        Ok(HeaderLine::Other)
    }
}

/// The characters of `text`.
fn chars_of(text: &str) -> (chars: Vec<char>)
    ensures
        chars@ == text@,
{
    let mut chars: Vec<char> = Vec::new();
    for c in it: text.chars()
        invariant
            it.seq() == text@,
            chars@ == text@.take(it.index()),
    {
        proof {
            text@.lemma_take_succ_push(it.index());
        }
        chars.push(c);
    }
    assert(text@.take(text@.len() as int) =~= text@);
    chars
}

/// Whether `text` from `from` on begins with `prefix`.
fn begins_with(text: &Vec<char>, from: usize, prefix: &Vec<char>) -> (begins: bool)
    requires
        from <= text.len(),
    ensures
        begins == has_prefix(text@.subrange(from as int, text.len() as int), prefix@),
{
    let ghost rest = text@.subrange(from as int, text.len() as int);
    if prefix.len() > text.len() - from {
        return false;
    }
    let mut i: usize = 0;
    while i < prefix.len()
        invariant
            from <= text.len(),
            prefix.len() <= text.len() - from,
            rest == text@.subrange(from as int, text.len() as int),
            i <= prefix.len(),
            forall|j: int| 0 <= j < i ==> rest[j] == prefix@[j],
        decreases prefix.len() - i,
    {
        if text[from + i] != prefix[i] {
            assert(rest.subrange(0, prefix.len() as int)[i as int] != prefix@[i as int]);
            return false;
        }
        i += 1;
    }
    assert(rest.subrange(0, prefix.len() as int) =~= prefix@);
    true
}

/// Whether `c` is white space.
fn white_space(c: char) -> (white: bool)
    ensures
        white == is_white_space(c),
{
    let u = c as u32;
    (0x09 <= u && u <= 0x0d) || u == 0x20 || u == 0x85 || u == 0xa0 || u == 0x1680 || (0x2000 <= u
        && u <= 0x200a) || u == 0x2028 || u == 0x2029 || u == 0x202f || u == 0x205f || u == 0x3000
}

/// Reads the length in `text[from..to]`.
fn parse_length(text: &Vec<char>, from: usize, to: usize) -> (length: Result<usize, LengthError>)
    requires
        from <= to <= text.len(),
    ensures
        length == parsed_length(text@.subrange(from as int, to as int)),
{
    let ghost all = text@.subrange(from as int, to as int);
    if from == to {
        return Err(LengthError::Empty);
    }
    assert(all[0] == text@[from as int]);
    let first = text[from];
    if to - from == 1 && (first == '+' || first == '-') {
        return Err(LengthError::InvalidDigit);
    }
    let mut at: usize = if first == '+' {
        from + 1
    } else {
        from
    };
    assert(text@.subrange(at as int, to as int) =~= if first == '+' {
        all.drop_first()
    } else {
        all
    });
    let mut value: usize = 0;
    while at < to
        invariant
            from <= at <= to <= text.len(),
            all == text@.subrange(from as int, to as int),
            parsed_length(all) == continued(value as nat, text@.subrange(at as int, to as int)),
        decreases to - at,
    {
        let ghost rest = text@.subrange(at as int, to as int);
        assert(rest[0] == text@[at as int]);
        assert(rest.drop_first() =~= text@.subrange(at + 1, to as int));
        let u = text[at] as u32;
        if u < 0x30 || u > 0x39 {
            return Err(LengthError::InvalidDigit);
        }
        let digit = (u - 0x30) as usize;
        if value > (usize::MAX - digit) / 10 {
            return Err(LengthError::PosOverflow);
        }
        value = value * 10 + digit;
        at += 1;
    }
    Ok(value)
}

/// Where `text` goes on after `prefix`, taken off as often as it stands
/// at the start.
fn skip_leading(text: &Vec<char>, prefix: &Vec<char>) -> (from: usize)
    requires
        prefix.len() > 0,
    ensures
        from <= text.len(),
        text@.subrange(from as int, text.len() as int) == without_leading(text@, prefix@),
{
    let mut from: usize = 0;
    assert(text@.subrange(0, text.len() as int) =~= text@);
    while begins_with(text, from, prefix)
        invariant
            from <= text.len(),
            prefix.len() > 0,
            without_leading(text@, prefix@) == without_leading(
                text@.subrange(from as int, text.len() as int),
                prefix@,
            ),
        decreases text.len() - from,
    {
        assert(text@.subrange(from as int, text.len() as int).subrange(
            prefix.len() as int,
            text.len() - from,
        ) =~= text@.subrange(from + prefix.len(), text.len() as int));
        from += prefix.len();
    }
    from
}

/// The bounds of what is left of `text[from..]` with the white space at
/// both ends taken off.
fn trim_bounds(text: &Vec<char>, from: usize) -> (bounds: (usize, usize))
    requires
        from <= text.len(),
    ensures
        from <= bounds.0 <= bounds.1 <= text.len(),
        text@.subrange(bounds.0 as int, bounds.1 as int) == trimmed(
            text@.subrange(from as int, text.len() as int),
        ),
{
    let ghost all = text@.subrange(from as int, text.len() as int);
    let mut start: usize = from;
    let mut end: usize = text.len();
    while start < end && white_space(text[start])
        invariant
            from <= start <= end == text.len(),
            trim_start(all) == trim_start(text@.subrange(start as int, end as int)),
        decreases end - start,
    {
        assert(text@.subrange(start as int, end as int).drop_first() =~= text@.subrange(
            start + 1,
            end as int,
        ));
        start += 1;
    }
    assert(trim_start(all) == text@.subrange(start as int, end as int));
    while start < end && white_space(text[end - 1])
        invariant
            from <= start <= end <= text.len(),
            trimmed(all) == trim_end(text@.subrange(start as int, end as int)),
        decreases end - start,
    {
        assert(text@.subrange(start as int, end as int).drop_last() =~= text@.subrange(
            start as int,
            end - 1,
        ));
        end -= 1;
    }
    (start, end)
}

/// Says what one line of the header block means.
pub fn parse_header_line(line: &str) -> (parsed: Result<HeaderLine, LengthError>)
    ensures
        parsed == header_line(line@),
{
    let text = chars_of(line);
    let end = chars_of("\r\n");
    let name = chars_of("Content-Length:");
    proof {
        reveal_strlit("\r\n");
        reveal_strlit("Content-Length:");
        assert(text@.subrange(0, text.len() as int) =~= text@);
    }
    if text.len() == end.len() && begins_with(&text, 0, &end) {
        assert(text@ =~= end@);
        return Ok(HeaderLine::End);
    }
    if !begins_with(&text, 0, &name) {
        return Ok(HeaderLine::Other);
    }
    let from = skip_leading(&text, &name);
    let (start, end) = trim_bounds(&text, from);
    match parse_length(&text, start, end) {
        Ok(length) => Ok(HeaderLine::ContentLength(length)),
        Err(error) => Err(error),
    }
}

/// What the receiver of a message does next.
#[derive(Debug, Clone, Copy, PartialEq, Eq, Structural)]
pub enum Receive {
    /// Read another header line. `content_length` is the length that the
    /// headers have given so far.
    Header { content_length: Option<usize> },
    /// The headers are over: read a body of `length` bytes.
    Body { length: usize },
    /// The headers are over and gave no length: the message is empty.
    Empty,
}

/// The step that follows `line`, where the headers before it gave
/// `content_length`: a later length replaces an earlier one, and the empty
/// line turns to the body.
pub open spec fn step(content_length: Option<usize>, line: Seq<char>) -> Result<
    Receive,
    LengthError,
> {
    match header_line(line) {
        Ok(HeaderLine::End) => match content_length {
            Some(length) => Ok(Receive::Body { length }),
            None => Ok(Receive::Empty),
        },
        Ok(HeaderLine::ContentLength(length)) => Ok(
            Receive::Header { content_length: Some(length) },
        ),
        Ok(HeaderLine::Other) => Ok(Receive::Header { content_length }),
        Err(error) => Err(error),
    }
}

/// Takes one line of the header block and says what to do next.
pub fn receive_line(content_length: Option<usize>, line: &str) -> (next: Result<
    Receive,
    TransportError,
>)
    ensures
        match next {
            Ok(receive) => step(content_length, line@) == Ok::<Receive, LengthError>(receive),
            Err(TransportError::ParseInt(error)) => step(content_length, line@) == Err::<
                Receive,
                LengthError,
            >(error),
            Err(TransportError::FromUtf8(_)) => false,
        },
{
    match parse_header_line(line) {
        Ok(HeaderLine::End) => match content_length {
            Some(length) => Ok(Receive::Body { length }),
            None => Ok(Receive::Empty),
        },
        Ok(HeaderLine::ContentLength(length)) => Ok(
            Receive::Header { content_length: Some(length) },
        ),
        Ok(HeaderLine::Other) => Ok(Receive::Header { content_length }),
        Err(error) => Err(TransportError::ParseInt(error)),
    }
}

/// Turns the bytes of a body into the text of the message. Bytes that are
/// not valid UTF-8 are refused.
pub fn message_text(body: Vec<u8>) -> (text: Result<String, TransportError>)
    ensures
        match text {
            Ok(message) => valid_utf8(body@) && message@ == decode_utf8(body@),
            Err(error) => !valid_utf8(body@) && error is FromUtf8,
        },
{
    match String::from_utf8(body) {
        Ok(message) => Ok(message),
        Err(error) => Err(TransportError::FromUtf8(error)),
    }
}

/// The bytes of a message, as they are sent after the header, give the
/// message back when they are received.
pub proof fn lemma_body_round_trip(message: Seq<char>)
    ensures
        valid_utf8(encode_utf8(message)),
        decode_utf8(encode_utf8(message)) == message,
{
    encode_utf8_valid_utf8(message);
    encode_utf8_decode_utf8(message);
}

/// Reading a numeral gives its number back.
pub proof fn lemma_parse_decimal(n: nat)
    requires
        n <= usize::MAX,
    ensures
        parsed_length(decimal(n)) == Ok::<usize, LengthError>(n as usize),
{
    lemma_continued_decimal(n);
    lemma_decimal_digits(n);
}

/// What is sent is what is received: of the two lines of the header for a
/// body of `length` bytes, the first gives `length` and the second ends the
/// headers, so the receiver reads a body of exactly `length` bytes.
pub proof fn lemma_header_round_trip(length: usize, before: Option<usize>)
    ensures
        header_text(length as nat) == "Content-Length: "@ + decimal(length as nat) + "\r\n"@
            + "\r\n"@,
        step(before, "Content-Length: "@ + decimal(length as nat) + "\r\n"@) == Ok::<
            Receive,
            LengthError,
        >(Receive::Header { content_length: Some(length) }),
        step(Some(length), "\r\n"@) == Ok::<Receive, LengthError>(Receive::Body { length }),
{
    let numeral = decimal(length as nat);
    let line = "Content-Length: "@ + numeral + "\r\n"@;
    assert(header_text(length as nat) =~= line + "\r\n"@) by {
        reveal_strlit("\r\n");
        reveal_strlit("\r\n\r\n");
    }
    lemma_decimal_digits(length as nat);
    lemma_name_taken_off(numeral);
    lemma_white_space_taken_off(numeral);
    lemma_parse_decimal(length as nat);
    assert(line != "\r\n"@) by {
        reveal_strlit("\r\n");
        reveal_strlit("Content-Length: ");
    }
}

/// Of a line that gives a length, taking the name off leaves a space, the
/// numeral and the line ending.
proof fn lemma_name_taken_off(numeral: Seq<char>)
    ensures
        has_prefix("Content-Length: "@ + numeral + "\r\n"@, "Content-Length:"@),
        without_leading("Content-Length: "@ + numeral + "\r\n"@, "Content-Length:"@) == seq![' ']
            + numeral + seq!['\r', '\n'],
{
    reveal_strlit("Content-Length: ");
    reveal_strlit("Content-Length:");
    reveal_strlit("\r\n");
    let name = "Content-Length:"@;
    let line = "Content-Length: "@ + numeral + "\r\n"@;
    assert(line.subrange(0, name.len() as int) =~= name);
    let rest = line.subrange(name.len() as int, line.len() as int);
    assert(rest =~= seq![' '] + numeral + seq!['\r', '\n']);
    assert(rest[0] == ' ');
    if has_prefix(rest, name) {
        assert(rest.subrange(0, name.len() as int)[0] == name[0]);
    }
    assert(without_leading(rest, name) == rest);
}

/// Around a numeral, the space before it and the line ending after it are
/// white space and go; the numeral stays.
proof fn lemma_white_space_taken_off(numeral: Seq<char>)
    requires
        numeral.len() > 0,
        forall|i: int| 0 <= i < numeral.len() ==> is_digit(#[trigger] numeral[i]),
    ensures
        trimmed(seq![' '] + numeral + seq!['\r', '\n']) == numeral,
{
    let text = seq![' '] + numeral + seq!['\r', '\n'];
    let tail2 = numeral + seq!['\r', '\n'];
    let tail1 = numeral + seq!['\r'];
    assert(text[0] == ' ');
    assert(text.drop_first() =~= tail2);
    assert(tail2[0] == numeral[0]);
    assert(is_digit(numeral[0]));
    assert(trim_start(tail2) == tail2);
    assert(trim_start(text) == tail2);
    assert(tail2.last() == '\n');
    assert(tail2.drop_last() =~= tail1);
    assert(tail1.last() == '\r');
    assert(tail1.drop_last() =~= numeral);
    assert(is_digit(numeral.last()));
    assert(trim_end(numeral) == numeral);
    assert(trim_end(tail1) == numeral);
    assert(trim_end(tail2) == numeral);
}

/// A numeral is made of digits, at least one.
proof fn lemma_decimal_digits(n: nat)
    ensures
        decimal(n).len() > 0,
        forall|i: int| 0 <= i < decimal(n).len() ==> is_digit(#[trigger] decimal(n)[i]),
    decreases n,
{
    if n >= 10 {
        lemma_decimal_digits(n / 10);
    }
}

/// Read after a value of zero, a numeral gives its number.
proof fn lemma_continued_decimal(n: nat)
    requires
        n <= usize::MAX,
    ensures
        continued(0, decimal(n)) == Ok::<usize, LengthError>(n as usize),
    decreases n,
{
    if n < 10 {
        assert(decimal(n).drop_first() =~= Seq::<char>::empty());
        assert(continued(n, Seq::<char>::empty()) == Ok::<usize, LengthError>(n as usize));
    } else {
        lemma_continued_decimal(n / 10);
        lemma_continued_push(0, decimal(n / 10), n / 10, n % 10);
    }
}

/// One more digit at the end of what was read multiplies by ten and adds.
proof fn lemma_continued_push(value: nat, digits: Seq<char>, read: nat, d: nat)
    requires
        continued(value, digits) == Ok::<usize, LengthError>(read as usize),
        value <= usize::MAX,
        read <= usize::MAX,
        d < 10,
        read * 10 + d <= usize::MAX,
    ensures
        continued(value, digits.push(digit_char(d))) == Ok::<usize, LengthError>(
            (read * 10 + d) as usize,
        ),
    decreases digits.len(),
{
    let more = digits.push(digit_char(d));
    assert(is_digit(digit_char(d)) && digit_value(digit_char(d)) == d);
    if digits.len() == 0 {
        assert(value == read);
        assert(more[0] == digit_char(d));
        assert(more.drop_first() =~= Seq::<char>::empty());
        assert(continued(value * 10 + d, more.drop_first()) == Ok::<usize, LengthError>(
            (value * 10 + d) as usize,
        ));
    } else {
        assert(more[0] == digits[0]);
        assert(more.drop_first() =~= digits.drop_first().push(digit_char(d)));
        let next = value * 10 + digit_value(digits[0]);
        assert(is_digit(digits[0]));
        assert(next <= usize::MAX);
        assert(continued(next, digits.drop_first()) == Ok::<usize, LengthError>(read as usize));
        lemma_continued_push(next, digits.drop_first(), read, d);
    }
}

} // verus!
