use queson::error::ParseError;
use queson::number::Integer;
use queson::value::JsonNumber;

fn integer_of(text: &str) -> Integer {
    JsonNumber { text: text.as_bytes().to_vec(), is_float: false }.integer().unwrap()
}

#[test]
fn integers_that_fit_64_bits() {
    assert_eq!(integer_of("0"), Integer::Unsigned(0));
    assert_eq!(integer_of("42"), Integer::Unsigned(42));
    assert_eq!(integer_of("-0"), Integer::Signed(0));
    assert_eq!(integer_of("-17"), Integer::Signed(-17));
    assert_eq!(integer_of("18446744073709551615"), Integer::Unsigned(u64::MAX));
    assert_eq!(integer_of("-9223372036854775808"), Integer::Signed(i64::MIN));
    assert_eq!(integer_of("-9223372036854775807"), Integer::Signed(-9223372036854775807));
}

#[test]
fn integers_beyond_64_bits() {
    assert_eq!(integer_of("18446744073709551616"), Integer::Big);
    assert_eq!(integer_of("-9223372036854775809"), Integer::Big);
    assert_eq!(integer_of("100000000000000000000000"), Integer::Big);
    assert_eq!(integer_of("-18446744073709551615"), Integer::Big);
}

#[test]
fn only_integers_have_an_integer_value() {
    assert_eq!(JsonNumber { text: b"1.5".to_vec(), is_float: true }.integer(), None);
    assert_eq!(JsonNumber { text: b"1e3".to_vec(), is_float: true }.integer(), None);
    assert_eq!(JsonNumber { text: b"-".to_vec(), is_float: false }.integer(), None);
    assert_eq!(JsonNumber { text: b"".to_vec(), is_float: false }.integer(), None);
    assert!(JsonNumber { text: b"-5".to_vec(), is_float: false }.is_integer());
}

fn read_number(input: &[u8]) -> (Result<(Vec<u8>, bool), ParseError<()>>, usize) {
    let mut cur = queson::cursor::Cursor::new(input);
    let r = queson::number::parse_number::<()>(&mut cur).map(|n| (n.text, n.is_float));
    (r, cur.pos)
}

#[test]
fn numbers_take_the_longest_run_that_can_begin_a_number() {
    assert_eq!(read_number(b"01"), (Ok((b"0".to_vec(), false)), 1));
    assert_eq!(read_number(b"-12.5e+3,"), (Ok((b"-12.5e+3".to_vec(), true)), 8));
    assert_eq!(read_number(b"7e2]"), (Ok((b"7e2".to_vec(), true)), 3));
    assert_eq!(read_number(b"1.x"), (Err(ParseError::ExpectedDigit), 3));
    assert_eq!(read_number(b"-x"), (Err(ParseError::ExpectedDigit), 2));
    assert_eq!(read_number(b"1e+"), (Err(ParseError::Eof), 3));
    assert_eq!(read_number(b"-"), (Err(ParseError::Eof), 1));
}
