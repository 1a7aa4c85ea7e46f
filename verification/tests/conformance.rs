use queson::de::parse_json;

fn accepts(input: &[u8]) -> bool {
    parse_json::<()>(input, None).is_ok()
}

#[test]
fn accepts_well_formed_documents() {
    let docs: [&[u8]; 16] = [
        b"[]",
        b"{}",
        b"[null]",
        b"[1,2,3]",
        b"{\"a\":{\"b\":[true,false]}}",
        b"[-0]",
        b"[0e1]",
        b"[1E+2]",
        b"[123.456e-789]",
        b"[\"\\u0000\"]",
        b"[\"\\uD834\\uDD1E\"]",
        b"[\"\xe2\x82\xac\"]",
        b"\"\"",
        b" [ ] ",
        b"{\"\":0}",
        b"[[[[[[[[[[]]]]]]]]]]",
    ];
    for doc in docs {
        assert!(accepts(doc), "refused {:?}", String::from_utf8_lossy(doc));
    }
}

#[test]
fn refuses_malformed_documents() {
    let docs: [&[u8]; 24] = [
        b"[",
        b"]",
        b"[1,]",
        b"[,1]",
        b"{\"a\"}",
        b"{\"a\":}",
        b"{a:1}",
        b"{'a':1}",
        b"['a']",
        b"[01]",
        b"[1.]",
        b"[.1]",
        b"[+1]",
        b"[1e]",
        b"[0x1]",
        b"[NaN]",
        b"[Infinity]",
        b"[\"\t\"]",
        b"[\"\\a\"]",
        b"[\"\\u00zz\"]",
        b"[\"\xc0\xaf\"]",
        b"[] []",
        b"[tru]",
        b"\"abc",
    ];
    for doc in docs {
        assert!(!accepts(doc), "accepted {:?}", String::from_utf8_lossy(doc));
    }
}

fn read_string(input: &[u8]) -> (Result<String, queson::error::ParseError<()>>, usize) {
    let mut cur = queson::cursor::Cursor::new(input);
    let r = queson::strings::parse_str::<()>(&mut cur);
    (r, cur.pos)
}

#[test]
fn string_bodies_read_as_json_says() {
    let input = "a\\u0041\\n\u{e9}\\ud834\\udd1e\\/\\\"z\" , 1".as_bytes();
    // The body ends at the unescaped quote after `z`.
    let close = input.windows(2).position(|w| w == b"z\"").unwrap() + 2;
    assert_eq!(read_string(input), (Ok("aA\n\u{e9}\u{1D11E}/\"z".to_string()), close));
    assert_eq!(read_string(b"\" trailing"), (Ok(String::new()), 1));
}
