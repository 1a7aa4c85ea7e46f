use queson::de::parse_json;
use queson::error::ParseError;
use queson::value::{JsonNumber, JsonValue};

fn decode(input: &[u8]) -> Result<JsonValue, (ParseError<()>, usize)> {
    parse_json::<()>(input, None)
}

fn num(text: &str, is_float: bool) -> JsonValue {
    JsonValue::Number(JsonNumber { text: text.as_bytes().to_vec(), is_float })
}

fn string(s: &str) -> JsonValue {
    JsonValue::Str(s.to_string())
}

#[test]
fn literals_decode() {
    assert_eq!(decode(b"null"), Ok(JsonValue::Null));
    assert_eq!(decode(b"true"), Ok(JsonValue::Bool(true)));
    assert_eq!(decode(b"false"), Ok(JsonValue::Bool(false)));
}

#[test]
fn surrounding_whitespace_is_ignored() {
    assert_eq!(decode(b" \t\r\n null \n"), Ok(JsonValue::Null));
    assert_eq!(decode(b"  [ 1 , 2 ]  "), Ok(JsonValue::Array(vec![num("1", false), num("2", false)])));
}

#[test]
fn numbers_keep_their_text() {
    assert_eq!(decode(b"0"), Ok(num("0", false)));
    assert_eq!(decode(b"-12"), Ok(num("-12", false)));
    assert_eq!(decode(b"3.25"), Ok(num("3.25", true)));
    assert_eq!(decode(b"1e10"), Ok(num("1e10", true)));
    assert_eq!(decode(b"-0.5E-3"), Ok(num("-0.5E-3", true)));
    assert_eq!(
        decode(b"123456789012345678901234567890"),
        Ok(num("123456789012345678901234567890", false))
    );
}

#[test]
fn strings_decode_escapes() {
    assert_eq!(decode(b"\"abc\""), Ok(string("abc")));
    assert_eq!(decode("\"h\u{e9}llo\"".as_bytes()), Ok(string("h\u{e9}llo")));
    assert_eq!(
        decode(b"\"a\\\"b\\\\c\\/d\\be\\ff\\ng\\rh\\ti\""),
        Ok(string("a\"b\\c/d\u{8}e\u{c}f\ng\rh\ti"))
    );
    assert_eq!(decode(b"\"\\u0041\\u00e9\""), Ok(string("A\u{e9}")));
    assert_eq!(decode("\"\\n\u{e9}\"".as_bytes()), Ok(string("\n\u{e9}")));
}

#[test]
fn surrogate_pairs_decode_to_one_char() {
    assert_eq!(decode(b"\"\\ud83d\\ude00\""), Ok(string("\u{1F600}")));
    assert_eq!(decode(b"\"\\uD834\\uDD1E\""), Ok(string("\u{1D11E}")));
}

#[test]
fn lone_surrogates_are_refused() {
    assert_eq!(decode(b"\"\\ud83d\""), Err((ParseError::InvalidStringEscape, 7)));
    assert_eq!(decode(b"\"\\ude00\""), Err((ParseError::InvalidStringEscape, 7)));
    assert_eq!(decode(b"\"\\ud83d\\u0041\""), Err((ParseError::InvalidStringEscape, 13)));
}

#[test]
fn escape_digits_take_an_optional_plus() {
    assert_eq!(decode(b"\"\\u+041\""), Ok(string("A")));
    assert_eq!(decode(b"\"\\u-041\""), Err((ParseError::InvalidStringEscape, 7)));
}

#[test]
fn escaped_part_decodes_bytes_itself() {
    // After a backslash the decoder reads lead and continuation bytes itself.
    assert_eq!(decode(b"\"\\n\xc1\xbf\""), Ok(string("\n\u{7f}")));
    assert_eq!(decode(b"\"\\n\xed\xa0\x80\""), Err((ParseError::InvalidUtf8, 6)));
    assert_eq!(decode(b"\"\\n\xc3\""), Err((ParseError::InvalidUtf8, 5)));
}

#[test]
fn arrays_and_objects_decode() {
    assert_eq!(decode(b"[]"), Ok(JsonValue::Array(vec![])));
    assert_eq!(decode(b"{}"), Ok(JsonValue::Object(vec![])));
    assert_eq!(
        decode(b"{\"a\": [1, {\"b\": null}], \"c\": \"d\"}"),
        Ok(JsonValue::Object(vec![
            (
                "a".to_string(),
                JsonValue::Array(vec![
                    num("1", false),
                    JsonValue::Object(vec![("b".to_string(), JsonValue::Null)]),
                ])
            ),
            ("c".to_string(), string("d")),
        ]))
    );
}

#[test]
fn duplicate_keys_are_kept_in_order() {
    assert_eq!(
        decode(b"{\"a\":1,\"a\":2}"),
        Ok(JsonValue::Object(vec![
            ("a".to_string(), num("1", false)),
            ("a".to_string(), num("2", false)),
        ]))
    );
}

#[test]
fn deep_nesting_needs_no_call_stack() {
    let n = 200_000;
    let mut doc = vec![b'['; n];
    doc.extend(std::iter::repeat(b']').take(n));
    let mut v = decode(&doc).unwrap();
    let mut levels = 0;
    while let JsonValue::Array(mut items) = v {
        levels += 1;
        if items.is_empty() {
            break;
        }
        v = items.pop().unwrap();
    }
    assert_eq!(levels, n);
}

#[test]
fn each_error_comes_with_its_location() {
    assert_eq!(decode(b""), Err((ParseError::Eof, 0)));
    assert_eq!(decode(b"[1,"), Err((ParseError::Eof, 3)));
    assert_eq!(decode(b"1 2"), Err((ParseError::ExpectedEof, 2)));
    assert_eq!(decode(b"nul"), Err((ParseError::Expected("null"), 1)));
    assert_eq!(decode(b"fals"), Err((ParseError::Expected("false"), 1)));
    assert_eq!(decode(b"trUe"), Err((ParseError::Expected("true"), 1)));
    assert_eq!(decode(b"[1 2]"), Err((ParseError::ExpectedListItem, 4)));
    assert_eq!(decode(b"{1}"), Err((ParseError::ExpectedMapItem, 2)));
    assert_eq!(decode(b"{\"a\" 1}"), Err((ParseError::ExpectedMapItem, 6)));
    assert_eq!(decode(b"{\"a\":1,}"), Err((ParseError::ExpectedMapItem, 8)));
    assert_eq!(decode(b"{\"a\":1 2}"), Err((ParseError::ExpectedMapItem, 8)));
    assert_eq!(decode(b"-a"), Err((ParseError::ExpectedDigit, 2)));
    assert_eq!(decode(b"1."), Err((ParseError::Eof, 2)));
    assert_eq!(decode(b"1.e5"), Err((ParseError::ExpectedDigit, 3)));
    assert_eq!(decode(b"1e+"), Err((ParseError::Eof, 3)));
    assert_eq!(decode(b"x"), Err((ParseError::ExpectedAny, 0)));
    assert_eq!(decode(b"[1,]"), Err((ParseError::ExpectedAny, 3)));
    assert_eq!(decode(b"\"\xff\""), Err((ParseError::InvalidUtf8, 3)));
    assert_eq!(decode(b"\"\xff\\n\""), Err((ParseError::InvalidUtf8, 2)));
    assert_eq!(decode(b"\"\\x\""), Err((ParseError::InvalidStringEscape, 3)));
    assert_eq!(decode(b"\"\\u12zz\""), Err((ParseError::InvalidStringEscape, 7)));
    assert_eq!(decode(b"\"\\u12\""), Err((ParseError::Eof, 3)));
    assert_eq!(decode(b"\"\\u1\""), Err((ParseError::Eof, 3)));
    assert_eq!(decode(b"\"a\x01\""), Err((ParseError::UnescapedControlCharacter, 2)));
    assert_eq!(decode(b"\"\\n\x01\""), Err((ParseError::UnescapedControlCharacter, 4)));
    assert_eq!(decode(b"\"abc"), Err((ParseError::Eof, 4)));
}

#[test]
fn non_finite_numbers_are_refused() {
    assert_eq!(decode(b"NaN"), Err((ParseError::ExpectedAny, 0)));
    assert_eq!(decode(b"Infinity"), Err((ParseError::ExpectedAny, 0)));
    assert_eq!(decode(b"-Infinity"), Err((ParseError::ExpectedDigit, 2)));
}

#[test]
fn depth_limit_refuses_only_deeper_documents() {
    let doc = b"[[1], {\"a\": []}]";
    let unlimited = parse_json::<()>(doc, None);
    assert!(unlimited.is_ok());
    assert_eq!(parse_json::<()>(doc, Some(3)), unlimited);
    assert_eq!(parse_json::<()>(doc, Some(2)), Err((ParseError::DepthLimitExceeded, 12)));
    assert_eq!(parse_json::<()>(doc, Some(1)), Err((ParseError::DepthLimitExceeded, 1)));
    assert_eq!(parse_json::<()>(b"{}", Some(0)), Err((ParseError::DepthLimitExceeded, 0)));
    assert_eq!(parse_json::<()>(b"7", Some(0)), Ok(num("7", false)));
}

#[test]
fn error_location_lies_inside_the_input() {
    for doc in [&b"["[..], b"{\"a\"", b"\"\\u", b"[1, 2", b"  "] {
        let (_, loc) = decode(doc).unwrap_err();
        assert!(loc <= doc.len());
    }
}

#[test]
fn leading_whitespace_moves_error_locations_only() {
    assert_eq!(decode(b"x"), Err((ParseError::ExpectedAny, 0)));
    assert_eq!(decode(b" \n\tx"), Err((ParseError::ExpectedAny, 3)));
    assert_eq!(decode(b"[1 2]"), Err((ParseError::ExpectedListItem, 4)));
    assert_eq!(decode(b"  [1 2]"), Err((ParseError::ExpectedListItem, 6)));
    assert_eq!(decode(b"\r\n{\"a\":true}"), decode(b"{\"a\":true}"));
}

#[test]
fn trailing_whitespace_keeps_the_value() {
    assert_eq!(decode(b"12 \r\n\t"), decode(b"12"));
    assert_eq!(decode(b"{\"a\":[1.5]}   "), decode(b"{\"a\":[1.5]}"));
    assert_eq!(decode(b"\"s\" "), Ok(string("s")));
}

#[test]
fn depth_error_comes_before_later_errors() {
    assert_eq!(parse_json::<()>(b"[[x", None), Err((ParseError::ExpectedAny, 2)));
    assert_eq!(parse_json::<()>(b"[[x", Some(1)), Err((ParseError::DepthLimitExceeded, 1)));
    assert_eq!(parse_json::<()>(b"[1, {\"a\": [2", Some(2)), Err((ParseError::DepthLimitExceeded, 10)));
    assert_eq!(parse_json::<()>(b"[1, x, [2]]", Some(1)), Err((ParseError::ExpectedAny, 4)));
}

#[test]
fn larger_limits_give_the_unlimited_result() {
    let inputs: [&[u8]; 4] = [b"[[x", b"[[1], {\"a\": [2]}]", b"[[[]]] x", b"{\"a\": [1, }"];
    for input in inputs {
        let unlimited = parse_json::<()>(input, None);
        for limit in 3..6 {
            assert_eq!(parse_json::<()>(input, Some(limit)), unlimited);
        }
    }
    assert_eq!(parse_json::<()>(b"[[[]]] x", Some(2)), Err((ParseError::DepthLimitExceeded, 2)));
    assert_eq!(parse_json::<()>(b"[[[]]] x", Some(3)), Err((ParseError::ExpectedEof, 7)));
}
