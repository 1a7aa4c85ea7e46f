use vstd::prelude::*;
use vstd::string::StringExecFns;

use crate::text::push_char;

verus! {

/// Why a document was refused.
///
/// `Custom` carries an error that arose outside the parser, while a consumer
/// was building values from what the parser reported.
#[derive(Debug, PartialEq)]
pub enum ParseError<E> {
    Eof,
    ExpectedEof,
    Expected(&'static str),
    ExpectedListItem,
    ExpectedMapItem,
    ExpectedDigit,
    ExpectedAny,
    InvalidUtf8,
    InvalidStringEscape,
    InvalidNumber,
    UnescapedControlCharacter,
    DepthLimitExceeded,
    Custom(E),
}

/// What `{:?}` prints for a string slice: the text in double quotes, with
/// quotes, backslashes and control characters escaped.
pub uninterp spec fn debug_quoted(s: Seq<char>) -> Seq<char>;

/// `format!("{s:?}")`: the debug form of a string slice.
#[verifier::external_body]
fn quote_debug(s: &str) -> (r: String)
    ensures
        r@ == debug_quoted(s@),
{
    format!("{s:?}")
}

/// The message that describes an error, or nothing for `Custom`, which
/// carries its own.
pub open spec fn message_of<E>(e: ParseError<E>) -> Option<Seq<char>> {
    match e {
        ParseError::Eof => Some("unexpected EOF"@),
        ParseError::ExpectedEof => Some("expected EOF"@),
        ParseError::Expected(s) => Some("expected "@ + debug_quoted(s@)),
        ParseError::ExpectedListItem => Some("expected list item"@),
        ParseError::ExpectedMapItem => Some("expected map item"@),
        ParseError::ExpectedDigit => Some("expected a decimal digit"@),
        ParseError::ExpectedAny => Some("expected a JSON value"@),
        ParseError::InvalidUtf8 => Some("invalid UTF-8 encoding"@),
        ParseError::InvalidStringEscape => Some("invalid string escape sequence"@),
        ParseError::InvalidNumber => Some("invalid number"@),
        ParseError::UnescapedControlCharacter => Some("unescaped control character in string"@),
        ParseError::DepthLimitExceeded => Some("depth limit exceeded"@),
        ParseError::Custom(_) => None,
    }
}

impl<E> ParseError<E> {
    /// The message that describes this error; `None` for `Custom`.
    pub fn message(&self) -> (r: Option<String>)
        ensures
            match message_of(*self) {
                Some(m) => r matches Some(t) && t@ == m,
                None => r is None,
            },
    {
        match self {
            ParseError::Eof => Some("unexpected EOF".to_owned()),
            ParseError::ExpectedEof => Some("expected EOF".to_owned()),
            ParseError::Expected(s) => {
                let mut m = "expected ".to_owned();
                let q = quote_debug(s);
                m.append(q.as_str());
                Some(m)
            },
            ParseError::ExpectedListItem => Some("expected list item".to_owned()),
            ParseError::ExpectedMapItem => Some("expected map item".to_owned()),
            ParseError::ExpectedDigit => Some("expected a decimal digit".to_owned()),
            ParseError::ExpectedAny => Some("expected a JSON value".to_owned()),
            ParseError::InvalidUtf8 => Some("invalid UTF-8 encoding".to_owned()),
            ParseError::InvalidStringEscape => Some("invalid string escape sequence".to_owned()),
            ParseError::InvalidNumber => Some("invalid number".to_owned()),
            ParseError::UnescapedControlCharacter => Some(
                "unescaped control character in string".to_owned(),
            ),
            ParseError::DepthLimitExceeded => Some("depth limit exceeded".to_owned()),
            ParseError::Custom(_) => None,
        }
    }
}

/// The decimal digits of `n`, most significant first, without leading
/// zeros (`0` is one digit).
pub open spec fn decimal_chars(n: nat) -> Seq<char>
    decreases n,
{
    if n < 10 {
        seq![(0x30 + n) as char]
    } else {
        decimal_chars(n / 10).push((0x30 + n % 10) as char)
    }
}

/// Appends the decimal digits of `n` to `s`.
fn push_decimal(s: &mut String, n: usize)
    ensures
        final(s)@ == old(s)@ + decimal_chars(n as nat),
    decreases n,
{
    if n >= 10 {
        push_decimal(s, n / 10);
    }
    let digit: u8 = (n % 10) as u8 + 0x30;
    push_char(s, digit as char);
    proof {
        if n >= 10 {
            assert(decimal_chars(n as nat) == decimal_chars((n / 10) as nat).push(
                (0x30 + n % 10) as char,
            ));
        }
    }
}

/// The note that names the input location of an error.
pub open spec fn location_text(location: nat) -> Seq<char> {
    "at input location "@ + decimal_chars(location)
}

/// The note that names the input location of an error:
/// `at input location N`, with `N` in decimal.
pub fn location_note(location: usize) -> (r: String)
    ensures
        r@ == location_text(location as nat),
{
    let mut note = "at input location ".to_owned();
    let ghost prefix = note@;
    push_decimal(&mut note, location);
    assert(note@ == prefix + decimal_chars(location as nat));
    note
}

} // verus!
