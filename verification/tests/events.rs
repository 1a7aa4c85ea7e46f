use queson::error::ParseError;
use queson::parser::{Event, Parser};
use queson::value::{JsonNumber, JsonValue};

fn events(input: &[u8]) -> Vec<Event<()>> {
    let mut parser = Parser::<()>::new(input, None);
    let mut out = Vec::new();
    loop {
        let ev = parser.next();
        let last = matches!(ev, Event::Done | Event::Failed(..));
        out.push(ev);
        if last {
            return out;
        }
    }
}

fn num(text: &str) -> JsonValue {
    JsonValue::Number(JsonNumber { text: text.as_bytes().to_vec(), is_float: false })
}

#[test]
fn events_follow_the_document() {
    assert_eq!(
        events(b"{\"a\": [1, {}], \"b\": 2}"),
        vec![
            Event::BeginObject("a".to_string()),
            Event::BeginArray,
            Event::Value(num("1")),
            Event::Value(JsonValue::Object(vec![])),
            Event::EndArray,
            Event::Key("b".to_string()),
            Event::Value(num("2")),
            Event::EndObject,
            Event::Done,
        ]
    );
}

#[test]
fn a_scalar_document_is_one_event() {
    assert_eq!(events(b" true "), vec![Event::Value(JsonValue::Bool(true)), Event::Done]);
}

#[test]
fn a_failure_ends_the_events() {
    assert_eq!(
        events(b"[1, x]"),
        vec![Event::BeginArray, Event::Value(num("1")), Event::Failed(ParseError::ExpectedAny, 4)]
    );
    assert_eq!(
        events(b"[] 1"),
        vec![Event::Value(JsonValue::Array(vec![])), Event::Failed(ParseError::ExpectedEof, 3)]
    );
}

#[test]
fn location_follows_the_last_event() {
    let mut parser = Parser::<()>::new(b"  {\"k\": 10}", None);
    assert_eq!(parser.location(), 2);
    assert_eq!(parser.next(), Event::BeginObject("k".to_string()));
    assert_eq!(parser.location(), 8);
    assert_eq!(parser.next(), Event::Value(num("10")));
    assert_eq!(parser.location(), 10);
    assert_eq!(parser.next(), Event::EndObject);
    assert_eq!(parser.location(), 11);
}

#[test]
fn depth_limit_stops_the_events_at_the_bracket() {
    let mut parser = Parser::<()>::new(b"[[]]", Some(1));
    assert_eq!(parser.next(), Event::BeginArray);
    assert_eq!(parser.next(), Event::Failed(ParseError::DepthLimitExceeded, 1));
}

#[test]
fn objects_complete_in_closing_order_once_each() {
    let evs = events(b"{\"a\": {\"b\": {}}, \"c\": [{}, 1]}");
    let completing: Vec<String> = evs
        .iter()
        .filter_map(|ev| match ev {
            Event::Value(JsonValue::Object(_)) => Some("value".to_string()),
            Event::EndObject => Some("end".to_string()),
            _ => None,
        })
        .collect();
    // {} under "b", then the object under "a", then {} in the array, then
    // the outer object.
    assert_eq!(completing, vec!["value", "end", "value", "end"]);
    assert_eq!(evs.last(), Some(&Event::Done));
}
