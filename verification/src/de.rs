//! Decoding a whole document into a [`JsonValue`].
use vstd::prelude::*;

use crate::error::ParseError;
use crate::grammar::document;
use crate::parser::{attach, attach_to, close, Event, Frame, Parser};
use crate::value::{model_of, JsonModel, JsonValue};

verus! {

/// The models of a sequence of values.
pub open spec fn models(items: Seq<JsonValue>) -> Seq<JsonModel> {
    Seq::new(items.len(), |i: int| model_of(items[i]))
}

/// The models of a sequence of members.
pub open spec fn member_models(entries: Seq<(String, JsonValue)>) -> Seq<(Seq<char>, JsonModel)> {
    Seq::new(entries.len(), |i: int| (entries[i].0@, model_of(entries[i].1)))
}

/// A container being filled while a document is decoded.
pub enum Container {
    Array(Vec<JsonValue>),
    /// The members so far, and the key of the member whose value comes next.
    Object(Vec<(String, JsonValue)>, String),
}

impl View for Container {
    type V = Frame;

    open spec fn view(&self) -> Frame {
        match self {
            Container::Array(items) => Frame::Array(models(items@)),
            Container::Object(entries, key) => Frame::Object(member_models(entries@), key@),
        }
    }
}

/// The models of a stack of containers.
pub open spec fn frames_of(stack: Seq<Container>) -> Seq<Frame> {
    Seq::new(stack.len(), |i: int| stack[i]@)
}

pub open spec fn root_of(root: Option<JsonValue>) -> Option<JsonModel> {
    match root {
        Some(v) => Some(v@),
        None => None,
    }
}

/// Adds `v` to a container.
fn add_to(c: &mut Container, v: JsonValue)
    ensures
        final(c)@ == attach(old(c)@, v@),
{
    match c {
        Container::Array(items) => {
            let ghost before = items@;
            items.push(v);
            assert(models(items@) =~= models(before).push(v@));
        },
        Container::Object(entries, key) => {
            let ghost before = entries@;
            entries.push((key.clone(), v));
            assert(member_models(entries@) =~= member_models(before).push((key@, v@)));
        },
    }
}

/// Adds `v` to the innermost container, or makes it the root.
fn add_value(stack: &mut Vec<Container>, root: &mut Option<JsonValue>, v: JsonValue)
    ensures
        (frames_of(final(stack)@), root_of(*final(root))) == attach_to(
            frames_of(old(stack)@),
            root_of(*old(root)),
            v@,
        ),
{
    let n = stack.len();
    if n == 0 {
        *root = Some(v);
    } else {
        let ghost before = stack@;
        let mut top = stack.pop().unwrap();
        add_to(&mut top, v);
        stack.push(top);
        assert(frames_of(stack@) =~= frames_of(before).update(
            n - 1,
            attach(frames_of(before).last(), v@),
        ));
    }
}

/// The value of a closed container.
fn close_container(c: Container) -> (v: JsonValue)
    ensures
        v@ == close(c@),
{
    match c {
        Container::Array(items) => {
            let v = JsonValue::Array(items);
            assert(v@->Array_0 =~= models(items@));
            v
        },
        Container::Object(entries, _) => {
            let v = JsonValue::Object(entries);
            assert(v@->Object_0 =~= member_models(entries@));
            v
        },
    }
}

/// Decodes a JSON document.
///
/// The document is whitespace, one value and whitespace.  With a depth
/// limit, an array or object nested more than that many containers deep is
/// refused.  Arrays and objects are kept on a stack on the heap, so the depth
/// of a document is bounded by memory only.  An error comes with the input
/// location at which it was found.
pub fn parse_json<E>(json: &[u8], depth_limit: Option<usize>) -> (r: Result<
    JsonValue,
    (ParseError<E>, usize),
>)
    ensures
        match document::<E>(json@, depth_limit) {
            Ok(v) => r matches Ok(x) && x@ == v,
            Err((e, loc)) => r == Err::<JsonValue, (ParseError<E>, usize)>((e, loc as usize)),
        },
{
    let mut parser = Parser::<E>::new(json, depth_limit);
    let mut stack: Vec<Container> = Vec::new();
    let mut root: Option<JsonValue> = None;
    assert(frames_of(stack@) =~= Seq::<Frame>::empty());
    loop
        invariant
            parser.inv(),
            !parser.finished(),
            parser.input() == json@,
            parser.limit() == depth_limit,
            frames_of(stack@) == parser.frames(),
            root_of(root) == parser.root(),
            0 <= parser.position() <= json@.len(),
        decreases json@.len() - parser.position(),
    {
        let ghost before = stack@;
        let ev = parser.next();
        match ev {
            Event::Value(v) => {
                add_value(&mut stack, &mut root, v);
            },
            Event::BeginArray => {
                let c = Container::Array(Vec::new());
                assert(c@ == Frame::Array(seq![])) by {
                    assert(models(Seq::<JsonValue>::empty()) =~= Seq::<JsonModel>::empty());
                }
                stack.push(c);
                assert(frames_of(stack@) =~= frames_of(before).push(Frame::Array(seq![])));
            },
            Event::BeginObject(key) => {
                let ghost k = key@;
                let c = Container::Object(Vec::new(), key);
                assert(c@ == Frame::Object(seq![], k)) by {
                    assert(member_models(Seq::<(String, JsonValue)>::empty()) =~= Seq::<
                        (Seq<char>, JsonModel),
                    >::empty());
                }
                stack.push(c);
                assert(frames_of(stack@) =~= frames_of(before).push(Frame::Object(seq![], k)));
            },
            Event::Key(key) => {
                let ghost k = key@;
                let n = stack.len();
                let top = stack.pop().unwrap();
                assert(top@ == frames_of(before).last());
                let entries = match top {
                    Container::Object(entries, _) => entries,
                    Container::Array(_) => {
                        assert(false);
                        Vec::new()
                    },
                };
                stack.push(Container::Object(entries, key));
                assert(frames_of(stack@) =~= frames_of(before).update(
                    n - 1,
                    Frame::Object(frames_of(before).last()->Object_0, k),
                ));
            },
            Event::EndArray | Event::EndObject => {
                let top = stack.pop().unwrap();
                assert(frames_of(stack@) =~= frames_of(before).drop_last());
                let v = close_container(top);
                add_value(&mut stack, &mut root, v);
            },
            Event::Done => {
                return match root {
                    Some(v) => Ok(v),
                    None => Err((ParseError::ExpectedAny, 0)),
                };
            },
            Event::Failed(e, loc) => {
                return Err((e, loc));
            },
        }
    }
}

} // verus!
