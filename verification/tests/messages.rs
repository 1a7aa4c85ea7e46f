use queson::error::{location_note, ParseError};

#[test]
fn messages_name_the_error() {
    assert_eq!(ParseError::<()>::Eof.message().unwrap(), "unexpected EOF");
    assert_eq!(ParseError::<()>::ExpectedEof.message().unwrap(), "expected EOF");
    assert_eq!(ParseError::<()>::ExpectedListItem.message().unwrap(), "expected list item");
    assert_eq!(ParseError::<()>::ExpectedMapItem.message().unwrap(), "expected map item");
    assert_eq!(ParseError::<()>::ExpectedDigit.message().unwrap(), "expected a decimal digit");
    assert_eq!(ParseError::<()>::ExpectedAny.message().unwrap(), "expected a JSON value");
    assert_eq!(ParseError::<()>::InvalidUtf8.message().unwrap(), "invalid UTF-8 encoding");
    assert_eq!(
        ParseError::<()>::InvalidStringEscape.message().unwrap(),
        "invalid string escape sequence"
    );
    assert_eq!(ParseError::<()>::InvalidNumber.message().unwrap(), "invalid number");
    assert_eq!(
        ParseError::<()>::UnescapedControlCharacter.message().unwrap(),
        "unescaped control character in string"
    );
    assert_eq!(ParseError::<()>::DepthLimitExceeded.message().unwrap(), "depth limit exceeded");
}

#[test]
fn expected_literal_is_quoted() {
    assert_eq!(ParseError::<()>::Expected("null").message().unwrap(), "expected \"null\"");
    assert_eq!(ParseError::<()>::Expected("a\"b").message().unwrap(), "expected \"a\\\"b\"");
}

#[test]
fn custom_errors_carry_their_own_message() {
    assert_eq!(ParseError::Custom(7u8).message(), None);
}

#[test]
fn location_note_names_the_location_in_decimal() {
    assert_eq!(location_note(0), "at input location 0");
    assert_eq!(location_note(7), "at input location 7");
    assert_eq!(location_note(1234), "at input location 1234");
    assert_eq!(location_note(usize::MAX), format!("at input location {}", usize::MAX));
}
