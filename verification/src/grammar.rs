//! The accepted language and the value of each accepted document, written
//! as a functional parser over the input bytes.
//!
//! Every function takes the whole input `s` and a position `p` in it, and
//! answers with the position at which it stopped: after what it consumed on
//! success, and at the place the error was noticed on failure.  That place is
//! the location that is reported with the error.
use vstd::prelude::*;
use vstd::utf8::*;

use crate::error::ParseError;
use crate::value::JsonModel;

verus! {

pub const SPACE: u8 = 0x20;
pub const NEWLINE: u8 = 0x0a;
pub const CARRIAGE_RETURN: u8 = 0x0d;
pub const TAB: u8 = 0x09;
pub const QUOTE: u8 = 0x22;
pub const BACKSLASH: u8 = 0x5c;
pub const COMMA: u8 = 0x2c;
pub const COLON: u8 = 0x3a;
pub const OPEN_BRACKET: u8 = 0x5b;
pub const CLOSE_BRACKET: u8 = 0x5d;
pub const OPEN_BRACE: u8 = 0x7b;
pub const CLOSE_BRACE: u8 = 0x7d;
pub const MINUS: u8 = 0x2d;
pub const PLUS: u8 = 0x2b;
pub const DOT: u8 = 0x2e;
pub const DIGIT_ZERO: u8 = 0x30;
pub const DIGIT_ONE: u8 = 0x31;
pub const DIGIT_NINE: u8 = 0x39;
pub const LOWER_E: u8 = 0x65;
pub const UPPER_E: u8 = 0x45;
pub const LOWER_N: u8 = 0x6e;
pub const LOWER_T: u8 = 0x74;
pub const LOWER_F: u8 = 0x66;
pub const LOWER_U: u8 = 0x75;

/// Results of the parsing functions below: a value and the position after
/// it, or an error and the position at which it was noticed.
pub type SpecResult<T, E> = Result<(T, int), (ParseError<E>, int)>;

/// `p < q <= s.len()`: the parser moved forward and stayed inside the input.
pub open spec fn advances(s: Seq<u8>, p: int, q: int) -> bool {
    p < q <= s.len()
}

pub open spec fn is_ws(b: u8) -> bool {
    b == SPACE || b == NEWLINE || b == CARRIAGE_RETURN || b == TAB
}

pub open spec fn is_digit(b: u8) -> bool {
    DIGIT_ZERO <= b <= DIGIT_NINE
}

/// The first position at or after `p` that does not hold whitespace.
pub open spec fn skip_ws(s: Seq<u8>, p: int) -> int
    decreases s.len() - p,
{
    if 0 <= p < s.len() && is_ws(s[p]) {
        skip_ws(s, p + 1)
    } else {
        p
    }
}

/// The first position at or after `p` that does not hold a decimal digit.
pub open spec fn skip_digits(s: Seq<u8>, p: int) -> int
    decreases s.len() - p,
{
    if 0 <= p < s.len() && is_digit(s[p]) {
        skip_digits(s, p + 1)
    } else {
        p
    }
}

/// Whether the bytes of `lit` stand in `s` from position `p` on.
pub open spec fn starts_at(s: Seq<u8>, p: int, lit: Seq<u8>) -> bool {
    0 <= p && p + lit.len() <= s.len() && s.subrange(p, p + lit.len()) == lit
}

/// Whether `v` is a Unicode scalar value, that is, the code of a `char`.
pub open spec fn is_scalar_value(v: int) -> bool {
    0 <= v <= 0x10ffff && !(0xd800 <= v <= 0xdfff)
}

// ---------------------------------------------------------------------------
// Characters inside strings
// ---------------------------------------------------------------------------
/// Reads `k` continuation bytes from `p` on, each contributing six bits to
/// `acc`.  A missing byte, or one outside `0x80..=0xbf`, is invalid UTF-8.
pub open spec fn continuation<E>(s: Seq<u8>, p: int, acc: int, k: nat) -> SpecResult<int, E>
    decreases k,
{
    if k == 0 {
        Ok((acc, p))
    } else if p < 0 || p >= s.len() {
        Err((ParseError::InvalidUtf8, p))
    } else if !(0x80 <= s[p] <= 0xbf) {
        Err((ParseError::InvalidUtf8, p + 1))
    } else {
        continuation(s, p + 1, acc * 64 + (s[p] - 0x80), (k - 1) as nat)
    }
}

/// The character with the decoded number, which must be a Unicode scalar
/// value.
pub open spec fn utf8_finish<E>(r: SpecResult<int, E>) -> SpecResult<char, E> {
    match r {
        Err(e) => Err(e),
        Ok((v, q)) => if is_scalar_value(v) {
            Ok((v as char, q))
        } else {
            Err((ParseError::InvalidUtf8, q))
        },
    }
}

/// Decodes one character of the escaped part of a string.  The leading byte
/// decides the length; the decoded number must be a Unicode scalar value.
/// Over-long forms are accepted.
pub open spec fn utf8_char<E>(s: Seq<u8>, p: int) -> SpecResult<char, E> {
    if p < 0 || p >= s.len() {
        Err((ParseError::Eof, p))
    } else {
        let b = s[p];
        if b < 0x80 {
            Ok((b as char, p + 1))
        } else {
            let (lead, k) = if 0xc0 <= b <= 0xdf {
                (b - 0xc0, 1nat)
            } else if 0xe0 <= b <= 0xef {
                (b - 0xe0, 2nat)
            } else if 0xf0 <= b <= 0xf7 {
                (b - 0xf0, 3nat)
            } else {
                (0int, 0nat)
            };
            if k == 0 {
                Err((ParseError::InvalidUtf8, p + 1))
            } else {
                utf8_finish(continuation::<E>(s, p + 1, lead, k))
            }
        }
    }
}

/// The value of one hexadecimal digit.
pub open spec fn hex_digit(b: u8) -> Option<int> {
    if 0x30 <= b <= 0x39 {
        Some(b - 0x30)
    } else if 0x61 <= b <= 0x66 {
        Some(b - 0x61 + 10)
    } else if 0x41 <= b <= 0x46 {
        Some(b - 0x41 + 10)
    } else {
        None
    }
}

/// The value of a sequence of hexadecimal digits, or `None` if one of the
/// bytes is not such a digit.
pub open spec fn hex_value(d: Seq<u8>) -> Option<int>
    decreases d.len(),
{
    if d.len() == 0 {
        Some(0)
    } else {
        match (hex_value(d.drop_last()), hex_digit(d.last())) {
            (Some(a), Some(b)) => Some(a * 16 + b),
            _ => None,
        }
    }
}

/// The number that the four bytes of a `\u` escape give, read as an unsigned
/// integer in base 16: an optional `+` followed by hexadecimal digits.
pub open spec fn escape_number(d: Seq<u8>) -> Option<int> {
    if d.len() > 1 && d[0] == PLUS {
        hex_value(d.subrange(1, d.len() as int))
    } else {
        hex_value(d)
    }
}

/// The four bytes after `\u`: they must be there, must be valid UTF-8, and
/// must form a number.
pub open spec fn escape_hex<E>(s: Seq<u8>, p: int) -> SpecResult<int, E> {
    if p < 0 || p + 4 > s.len() {
        Err((ParseError::Eof, p))
    } else if !valid_utf8(s.subrange(p, p + 4)) {
        Err((ParseError::InvalidUtf8, p))
    } else {
        match escape_number(s.subrange(p, p + 4)) {
            Some(v) => Ok((v, p + 4)),
            None => Err((ParseError::InvalidStringEscape, p + 4)),
        }
    }
}

/// The character of a `\u` escape, whose hex digits start at `p`.  A leading
/// surrogate must be followed by `\u` and a trailing surrogate; the pair
/// stands for one character outside the Basic Multilingual Plane.
pub open spec fn unicode_escape<E>(s: Seq<u8>, p: int) -> SpecResult<char, E> {
    match escape_hex::<E>(s, p) {
        Err(e) => Err(e),
        Ok((c1, q)) => if is_scalar_value(c1) {
            Ok((c1 as char, q))
        } else if 0xd800 <= c1 <= 0xdbff {
            if starts_at(s, q, seq![BACKSLASH, LOWER_U]) {
                match escape_hex::<E>(s, q + 2) {
                    Err(e) => Err(e),
                    Ok((c2, r)) => if !(0xdc00 <= c2 <= 0xdfff) {
                        Err((ParseError::InvalidStringEscape, r))
                    } else {
                        let v = 0x10000 + (c1 - 0xd800) * 1024 + (c2 - 0xdc00);
                        if is_scalar_value(v) {
                            Ok((v as char, r))
                        } else {
                            Err((ParseError::InvalidStringEscape, r))
                        }
                    },
                }
            } else {
                Err((ParseError::InvalidStringEscape, q))
            }
        } else {
            Err((ParseError::InvalidStringEscape, q))
        },
    }
}

/// What a simple escape (`\` and one character other than `u`) stands for.
pub open spec fn simple_escape(c: char) -> Option<char> {
    if c == 'b' {
        Some('\x08')
    } else if c == 'f' {
        Some('\x0c')
    } else if c == 'n' {
        Some('\n')
    } else if c == 'r' {
        Some('\r')
    } else if c == 't' {
        Some('\t')
    } else if c == '\\' || c == '/' || c == '"' {
        Some(c)
    } else {
        None
    }
}

/// The rest of a string from the first backslash on, character by
/// character; `acc` holds the characters decoded so far.
pub open spec fn string_tail<E>(s: Seq<u8>, p: int, acc: Seq<char>) -> SpecResult<Seq<char>, E>
    decreases s.len() - p,
{
    match utf8_char::<E>(s, p) {
        Err(e) => Err(e),
        Ok((c, q)) => if !advances(s, p, q) {
            Err((ParseError::Eof, q))
        } else if c == '\\' {
            match utf8_char::<E>(s, q) {
                Err(e) => Err(e),
                Ok((esc, r)) => if !advances(s, q, r) {
                    Err((ParseError::Eof, r))
                } else if esc == 'u' {
                    match unicode_escape::<E>(s, r) {
                        Err(e) => Err(e),
                        Ok((ch, t)) => if advances(s, r, t) {
                            string_tail(s, t, acc.push(ch))
                        } else {
                            Err((ParseError::Eof, t))
                        },
                    }
                } else {
                    match simple_escape(esc) {
                        Some(ch) => string_tail(s, r, acc.push(ch)),
                        None => Err((ParseError::InvalidStringEscape, r)),
                    }
                }
            }
        } else if c == '"' {
            Ok((acc, q))
        } else if (c as u32) < 0x20 {
            Err((ParseError::UnescapedControlCharacter, q))
        } else {
            string_tail(s, q, acc.push(c))
        },
    }
}

/// Bytes that end the run of plain bytes at the start of a string.
pub open spec fn ends_plain_run(b: u8) -> bool {
    b == QUOTE || b == BACKSLASH || b < 0x20
}

/// The first position at or after `p` that holds a byte ending the plain run.
pub open spec fn plain_run_end(s: Seq<u8>, p: int) -> int
    decreases s.len() - p,
{
    if 0 <= p < s.len() && !ends_plain_run(s[p]) {
        plain_run_end(s, p + 1)
    } else {
        p
    }
}

/// A string whose opening quote stands just before `p`.  The run of bytes up
/// to the first quote, backslash or control byte must be valid UTF-8; from a
/// backslash on, the string is decoded by [`string_tail`].
pub open spec fn string<E>(s: Seq<u8>, p: int) -> SpecResult<Seq<char>, E> {
    let i = plain_run_end(s, p);
    if i < 0 || i >= s.len() {
        Err((ParseError::Eof, i))
    } else if s[i] == QUOTE {
        if valid_utf8(s.subrange(p, i)) {
            Ok((decode_utf8(s.subrange(p, i)), i + 1))
        } else {
            Err((ParseError::InvalidUtf8, i + 1))
        }
    } else if s[i] == BACKSLASH {
        if valid_utf8(s.subrange(p, i)) {
            string_tail(s, i, decode_utf8(s.subrange(p, i)))
        } else {
            Err((ParseError::InvalidUtf8, i))
        }
    } else {
        Err((ParseError::UnescapedControlCharacter, i))
    }
}

// ---------------------------------------------------------------------------
// Numbers
// ---------------------------------------------------------------------------
/// The integer part of a number, after the optional minus sign: `0`, or a
/// digit from 1 to 9 followed by any digits.
pub open spec fn integer_part<E>(s: Seq<u8>, p: int) -> Result<int, (ParseError<E>, int)> {
    if p < 0 || p >= s.len() {
        Err((ParseError::Eof, p))
    } else if DIGIT_ONE <= s[p] <= DIGIT_NINE {
        Ok(skip_digits(s, p + 1))
    } else if s[p] == DIGIT_ZERO {
        Ok(p + 1)
    } else {
        Err((ParseError::ExpectedDigit, p + 1))
    }
}

/// One or more digits starting at `p`.
pub open spec fn digits<E>(s: Seq<u8>, p: int) -> Result<int, (ParseError<E>, int)> {
    if p < 0 || p >= s.len() {
        Err((ParseError::Eof, p))
    } else if is_digit(s[p]) {
        Ok(skip_digits(s, p + 1))
    } else {
        Err((ParseError::ExpectedDigit, p + 1))
    }
}

/// The optional fraction part at `p`; also tells whether there was one.
pub open spec fn fraction_part<E>(s: Seq<u8>, p: int) -> Result<(int, bool), (ParseError<E>, int)> {
    if 0 <= p < s.len() && s[p] == DOT {
        match digits::<E>(s, p + 1) {
            Ok(q) => Ok((q, true)),
            Err(e) => Err(e),
        }
    } else {
        Ok((p, false))
    }
}

/// The optional exponent part at `p`; also tells whether there was one.
pub open spec fn exponent_part<E>(s: Seq<u8>, p: int) -> Result<(int, bool), (ParseError<E>, int)> {
    if 0 <= p < s.len() && (s[p] == LOWER_E || s[p] == UPPER_E) {
        let q = if p + 1 < s.len() && (s[p + 1] == PLUS || s[p + 1] == MINUS) {
            p + 2
        } else {
            p + 1
        };
        match digits::<E>(s, q) {
            Ok(r) => Ok((r, true)),
            Err(e) => Err(e),
        }
    } else {
        Ok((p, false))
    }
}

/// A number starting at `p`: its text and whether it has a fraction or an
/// exponent part.
pub open spec fn number<E>(s: Seq<u8>, p: int) -> SpecResult<(Seq<u8>, bool), E> {
    if p < 0 || p >= s.len() {
        Err((ParseError::Eof, p))
    } else {
        let q = if s[p] == MINUS {
            p + 1
        } else {
            p
        };
        match integer_part::<E>(s, q) {
            Err(e) => Err(e),
            Ok(i) => match fraction_part::<E>(s, i) {
                Err(e) => Err(e),
                Ok((f, has_fraction)) => match exponent_part::<E>(s, f) {
                    Err(e) => Err(e),
                    Ok((x, has_exponent)) => Ok(
                        ((s.subrange(p, x), has_fraction || has_exponent), x),
                    ),
                },
            },
        }
    }
}

// ---------------------------------------------------------------------------
// Tokens
// ---------------------------------------------------------------------------
/// What the first token of a value gives.
pub enum Head<E> {
    /// A whole value: a literal, a string, a number, `[]` or `{}`.
    Complete(JsonModel, int),
    /// An array with at least one item, whose first item starts here.
    OpenArray(int),
    /// An object with at least one member; its first key, and the position
    /// at which the first member's value starts.
    OpenObject(Seq<char>, int),
    Fail(ParseError<E>, int),
}

/// What follows an item of an array or a member of an object.
pub enum Sep<E> {
    /// The closing bracket or brace; the position after it.
    Close(int),
    /// A comma; in an array, where the next item starts.
    Next(int),
    /// A comma in an object; the next key, and where its value starts.
    NextKey(Seq<char>, int),
    Fail(ParseError<E>, int),
}

/// Whether opening one more array or object at nesting depth `depth` goes
/// past the limit.
pub open spec fn over_limit(depth: nat, limit: Option<usize>) -> bool {
    match limit {
        Some(n) => depth >= n,
        None => false,
    }
}

/// A key whose opening quote stands just before `p`, then the colon; the
/// key, and the position of the member's value (whitespace skipped).
pub open spec fn object_key<E>(s: Seq<u8>, p: int) -> SpecResult<Seq<char>, E> {
    match string::<E>(s, p) {
        Err(e) => Err(e),
        Ok((k, q)) => {
            let c = skip_ws(s, q);
            if c < 0 || c >= s.len() {
                Err((ParseError::ExpectedMapItem, c))
            } else if s[c] != COLON {
                Err((ParseError::ExpectedMapItem, c + 1))
            } else {
                Ok((k, skip_ws(s, c + 1)))
            }
        },
    }
}

/// An array whose opening bracket stands just before `p`: empty, or open
/// with its first item at the returned position.
pub open spec fn array_open<E>(s: Seq<u8>, p: int) -> Head<E> {
    let q = skip_ws(s, p);
    if q < 0 || q >= s.len() {
        Head::Fail(ParseError::Eof, q)
    } else if s[q] == CLOSE_BRACKET {
        Head::Complete(JsonModel::Array(seq![]), q + 1)
    } else {
        Head::OpenArray(q)
    }
}

/// An object whose opening brace stands just before `p`: empty, or open
/// with its first key and the position of the first member's value.
pub open spec fn object_open<E>(s: Seq<u8>, p: int) -> Head<E> {
    let q = skip_ws(s, p);
    if q < 0 || q >= s.len() {
        Head::Fail(ParseError::Eof, q)
    } else if s[q] == CLOSE_BRACE {
        Head::Complete(JsonModel::Object(seq![]), q + 1)
    } else if s[q] == QUOTE {
        match object_key::<E>(s, q + 1) {
            Ok((k, r)) => Head::OpenObject(k, r),
            Err((e, r)) => Head::Fail(e, r),
        }
    } else {
        Head::Fail(ParseError::ExpectedMapItem, q + 1)
    }
}

/// The first token of a value starting at `p`, `depth` arrays and objects
/// deep.
pub open spec fn value_head<E>(s: Seq<u8>, p: int, depth: nat, limit: Option<usize>) -> Head<E> {
    if p < 0 || p >= s.len() {
        Head::Fail(ParseError::Eof, p)
    } else {
        let b = s[p];
        if b == LOWER_N {
            if starts_at(s, p + 1, seq![0x75u8, 0x6cu8, 0x6cu8]) {
                Head::Complete(JsonModel::Null, p + 4)
            } else {
                Head::Fail(ParseError::Expected("null"), p + 1)
            }
        } else if b == LOWER_F {
            if starts_at(s, p + 1, seq![0x61u8, 0x6cu8, 0x73u8, 0x65u8]) {
                Head::Complete(JsonModel::Bool(false), p + 5)
            } else {
                Head::Fail(ParseError::Expected("false"), p + 1)
            }
        } else if b == LOWER_T {
            if starts_at(s, p + 1, seq![0x72u8, 0x75u8, 0x65u8]) {
                Head::Complete(JsonModel::Bool(true), p + 4)
            } else {
                Head::Fail(ParseError::Expected("true"), p + 1)
            }
        } else if b == QUOTE {
            match string::<E>(s, p + 1) {
                Ok((text, q)) => Head::Complete(JsonModel::Str(text), q),
                Err((e, q)) => Head::Fail(e, q),
            }
        } else if b == OPEN_BRACKET {
            if over_limit(depth, limit) {
                Head::Fail(ParseError::DepthLimitExceeded, p)
            } else {
                array_open(s, p + 1)
            }
        } else if b == OPEN_BRACE {
            if over_limit(depth, limit) {
                Head::Fail(ParseError::DepthLimitExceeded, p)
            } else {
                object_open(s, p + 1)
            }
        } else if b == MINUS || is_digit(b) {
            match number::<E>(s, p) {
                Ok(((text, is_float), q)) => Head::Complete(JsonModel::Number(text, is_float), q),
                Err((e, q)) => Head::Fail(e, q),
            }
        } else {
            Head::Fail(ParseError::ExpectedAny, p)
        }
    }
}

/// What follows an item of an array, from `p` on.
pub open spec fn array_sep<E>(s: Seq<u8>, p: int) -> Sep<E> {
    let q = skip_ws(s, p);
    if q < 0 || q >= s.len() {
        Sep::Fail(ParseError::Eof, q)
    } else if s[q] == CLOSE_BRACKET {
        Sep::Close(q + 1)
    } else if s[q] == COMMA {
        Sep::Next(skip_ws(s, q + 1))
    } else {
        Sep::Fail(ParseError::ExpectedListItem, q + 1)
    }
}

/// What follows a member of an object, from `p` on.
pub open spec fn object_sep<E>(s: Seq<u8>, p: int) -> Sep<E> {
    let q = skip_ws(s, p);
    if q < 0 || q >= s.len() {
        Sep::Fail(ParseError::Eof, q)
    } else if s[q] == CLOSE_BRACE {
        Sep::Close(q + 1)
    } else if s[q] == COMMA {
        let k = skip_ws(s, q + 1);
        if k >= s.len() {
            Sep::Fail(ParseError::ExpectedMapItem, k)
        } else if s[k] != QUOTE {
            Sep::Fail(ParseError::ExpectedMapItem, k + 1)
        } else {
            match object_key::<E>(s, k + 1) {
                Ok((key, r)) => Sep::NextKey(key, r),
                Err((e, r)) => Sep::Fail(e, r),
            }
        }
    } else {
        Sep::Fail(ParseError::ExpectedMapItem, q + 1)
    }
}

// ---------------------------------------------------------------------------
// Values
// ---------------------------------------------------------------------------
/// A value starting at `p`, `depth` arrays and objects deep.
pub open spec fn value<E>(s: Seq<u8>, p: int, depth: nat, limit: Option<usize>) -> SpecResult<
    JsonModel,
    E,
>
    decreases s.len() - p, 0int,
{
    match value_head::<E>(s, p, depth, limit) {
        Head::Complete(v, q) => Ok((v, q)),
        Head::Fail(e, q) => Err((e, q)),
        Head::OpenArray(q) => if advances(s, p, q) {
            array_items(s, q, depth + 1, limit, seq![])
        } else {
            Err((ParseError::ExpectedAny, q))
        },
        Head::OpenObject(k, q) => if advances(s, p, q) {
            object_member(s, q, depth + 1, limit, seq![], k)
        } else {
            Err((ParseError::ExpectedAny, q))
        },
    }
}

/// The items of an array from the one starting at `p` on; `items` were read
/// before.  `depth` counts the array itself.
pub open spec fn array_items<E>(
    s: Seq<u8>,
    p: int,
    depth: nat,
    limit: Option<usize>,
    items: Seq<JsonModel>,
) -> SpecResult<JsonModel, E>
    decreases s.len() - p, 1int,
{
    match value::<E>(s, p, depth, limit) {
        Err(e) => Err(e),
        Ok((v, q)) => if advances(s, p, q) {
            array_rest(s, q, depth, limit, items.push(v))
        } else {
            Err((ParseError::ExpectedAny, q))
        },
    }
}

/// An array after an item, at `p`; `items` holds the items so far.
pub open spec fn array_rest<E>(
    s: Seq<u8>,
    p: int,
    depth: nat,
    limit: Option<usize>,
    items: Seq<JsonModel>,
) -> SpecResult<JsonModel, E>
    decreases s.len() - p, 0int,
{
    match array_sep::<E>(s, p) {
        Sep::Close(q) => Ok((JsonModel::Array(items), q)),
        Sep::Next(q) => if advances(s, p, q) {
            array_items(s, q, depth, limit, items)
        } else {
            Err((ParseError::ExpectedAny, q))
        },
        Sep::NextKey(_, q) => Err((ParseError::ExpectedAny, q)),
        Sep::Fail(e, q) => Err((e, q)),
    }
}

/// The value of the member with key `key` of an object, starting at `p`, and
/// the rest of the object; `entries` were read before.
pub open spec fn object_member<E>(
    s: Seq<u8>,
    p: int,
    depth: nat,
    limit: Option<usize>,
    entries: Seq<(Seq<char>, JsonModel)>,
    key: Seq<char>,
) -> SpecResult<JsonModel, E>
    decreases s.len() - p, 1int,
{
    match value::<E>(s, p, depth, limit) {
        Err(e) => Err(e),
        Ok((v, q)) => if advances(s, p, q) {
            object_rest(s, q, depth, limit, entries.push((key, v)))
        } else {
            Err((ParseError::ExpectedAny, q))
        },
    }
}

/// An object after a member, at `p`; `entries` holds the members so far.
pub open spec fn object_rest<E>(
    s: Seq<u8>,
    p: int,
    depth: nat,
    limit: Option<usize>,
    entries: Seq<(Seq<char>, JsonModel)>,
) -> SpecResult<JsonModel, E>
    decreases s.len() - p, 0int,
{
    match object_sep::<E>(s, p) {
        Sep::Close(q) => Ok((JsonModel::Object(entries), q)),
        Sep::NextKey(k, q) => if advances(s, p, q) {
            object_member(s, q, depth, limit, entries, k)
        } else {
            Err((ParseError::ExpectedAny, q))
        },
        Sep::Next(q) => Err((ParseError::ExpectedAny, q)),
        Sep::Fail(e, q) => Err((e, q)),
    }
}

/// A whole document: optional whitespace, one value, optional whitespace,
/// and nothing else.  The value, or the error and its location.
pub open spec fn document<E>(s: Seq<u8>, limit: Option<usize>) -> Result<
    JsonModel,
    (ParseError<E>, int),
> {
    finish(s, value::<E>(s, skip_ws(s, 0), 0, limit))
}

/// The end of a document after its value.
pub open spec fn finish<E>(s: Seq<u8>, r: SpecResult<JsonModel, E>) -> Result<
    JsonModel,
    (ParseError<E>, int),
> {
    match r {
        Err(e) => Err(e),
        Ok((v, p)) => {
            let q = skip_ws(s, p);
            if q == s.len() {
                Ok(v)
            } else {
                Err((ParseError::ExpectedEof, q))
            }
        },
    }
}

} // verus!
