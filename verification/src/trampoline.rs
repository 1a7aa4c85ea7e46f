//! The steps of the parser that read tokens.  A step never recurses into a
//! nested value: it reports that an array or object was opened, and the
//! caller keeps the open containers on a stack of its own.
use vstd::prelude::*;

use crate::cursor::{expect_byte, expect_literal, Cursor};
use crate::error::ParseError;
use crate::grammar::{
    array_open, array_sep, object_key, object_open, object_sep, over_limit,
    value_head, Head, Sep, CLOSE_BRACE, CLOSE_BRACKET, COLON, COMMA, LOWER_F, LOWER_N, LOWER_T,
    MINUS, OPEN_BRACE, OPEN_BRACKET, QUOTE,
};
use crate::number::{is_digit_byte, parse_number};
use crate::strings::{follows, parse_str};
use crate::value::{JsonModel, JsonValue};

verus! {

/// A container that was opened and waits for its next item.
#[derive(Debug, PartialEq)]
pub enum Trampoline {
    ParsingList,
    /// An object, and the key of the member whose value comes next.
    ParsingMap { key: String },
}

/// What reading the first token of a value gave.
#[derive(Debug, PartialEq)]
pub enum TrampolineResult<E> {
    /// A whole value.
    Value(JsonValue),
    Failed(ParseError<E>),
    /// An array or object with at least one item was opened.
    Incomplete(Trampoline),
}

/// What follows an item of an array or a member of an object.
#[derive(Debug, PartialEq)]
pub enum Continuation<E> {
    /// The container is closed.
    Close,
    /// A comma in an array: the next item follows.
    Next,
    /// A comma and a key in an object: the member's value follows.
    NextKey(String),
    Failed(ParseError<E>),
}

/// `r`, with the cursor at `pos`, is what the spec head `h` says.
pub open spec fn head_result<E>(r: TrampolineResult<E>, pos: int, h: Head<E>) -> bool {
    match h {
        Head::Complete(v, q) => r matches TrampolineResult::Value(x) && x@ == v && pos == q,
        Head::Fail(e, q) => r == TrampolineResult::<E>::Failed(e) && pos == q,
        Head::OpenArray(q) => r matches TrampolineResult::Incomplete(Trampoline::ParsingList)
            && pos == q,
        Head::OpenObject(k, q) => r matches TrampolineResult::Incomplete(
            Trampoline::ParsingMap { key },
        ) && key@ == k && pos == q,
    }
}

/// `r`, with the cursor at `pos`, is what the spec separator `sp` says.
pub open spec fn sep_result<E>(r: Continuation<E>, pos: int, sp: Sep<E>) -> bool {
    match sp {
        Sep::Close(q) => r is Close && pos == q,
        Sep::Next(q) => r is Next && pos == q,
        Sep::NextKey(k, q) => r matches Continuation::NextKey(key) && key@ == k && pos == q,
        Sep::Fail(e, q) => r == Continuation::<E>::Failed(e) && pos == q,
    }
}

/// Reads a key whose opening quote was just read, then the colon, as
/// [`object_key`] says, leaving the cursor at the member's value.
pub fn parse_key<E>(cur: &mut Cursor) -> (r: Result<String, ParseError<E>>)
    requires
        old(cur).wf(),
    ensures
        final(cur).wf(),
        final(cur).data@ == old(cur).data@,
        match object_key::<E>(old(cur).data@, old(cur).pos as int) {
            Ok((k, q)) => r matches Ok(t) && t@ == k && final(cur).pos == q,
            Err((e, q)) => r == Err::<String, ParseError<E>>(e) && final(cur).pos == q,
        },
{
    let key = match parse_str::<E>(cur) {
        Ok(k) => k,
        Err(e) => return Err(e),
    };
    cur.consume_whitespace();
    match expect_byte::<E>(cur, COLON, ParseError::ExpectedMapItem) {
        Ok(()) => {},
        Err(e) => return Err(e),
    }
    cur.consume_whitespace();
    Ok(key)
}

/// Reads an array whose opening bracket was just read, as far as its first
/// item: `[]` is a whole value; otherwise the array is open.
pub fn parse_list<E>(cur: &mut Cursor) -> (r: TrampolineResult<E>)
    requires
        old(cur).wf(),
    ensures
        final(cur).wf(),
        final(cur).data@ == old(cur).data@,
        head_result(r, final(cur).pos as int, array_open::<E>(old(cur).data@, old(cur).pos as int)),
{
    cur.consume_whitespace();
    match cur.peek::<E>() {
        Err(e) => TrampolineResult::Failed(e),
        Ok(b) => if b == CLOSE_BRACKET {
            cur.skip();
            let v = JsonValue::Array(Vec::new());
            assert(v@ == JsonModel::Array(seq![])) by {
                assert(v@->Array_0 =~= seq![]);
            }
            TrampolineResult::Value(v)
        } else {
            TrampolineResult::Incomplete(Trampoline::ParsingList)
        },
    }
}

/// Reads an object whose opening brace was just read, as far as the value
/// of its first member: `{}` is a whole value; otherwise the object is open
/// with its first key.
pub fn parse_map<E>(cur: &mut Cursor) -> (r: TrampolineResult<E>)
    requires
        old(cur).wf(),
    ensures
        final(cur).wf(),
        final(cur).data@ == old(cur).data@,
        head_result(
            r,
            final(cur).pos as int,
            object_open::<E>(old(cur).data@, old(cur).pos as int),
        ),
{
    cur.consume_whitespace();
    match cur.read::<E>() {
        Err(e) => TrampolineResult::Failed(e),
        Ok(b) => if b == CLOSE_BRACE {
            let v = JsonValue::Object(Vec::new());
            assert(v@ == JsonModel::Object(seq![])) by {
                assert(v@->Object_0 =~= seq![]);
            }
            TrampolineResult::Value(v)
        } else if b == QUOTE {
            match parse_key::<E>(cur) {
                Ok(key) => TrampolineResult::Incomplete(Trampoline::ParsingMap { key }),
                Err(e) => TrampolineResult::Failed(e),
            }
        } else {
            TrampolineResult::Failed(ParseError::ExpectedMapItem)
        },
    }
}

/// Whether a container opened at `depth` would go past `limit`.
pub fn exceeds_limit(depth: usize, limit: Option<usize>) -> (r: bool)
    ensures
        r == over_limit(depth as nat, limit),
{
    match limit {
        Some(n) => depth >= n,
        None => false,
    }
}

/// Reads the first token of a value, `depth` containers deep, as
/// [`value_head`] says.
pub fn parse_any<E>(cur: &mut Cursor, depth: usize, limit: Option<usize>) -> (r: TrampolineResult<
    E,
>)
    requires
        old(cur).wf(),
    ensures
        final(cur).wf(),
        final(cur).data@ == old(cur).data@,
        head_result(
            r,
            final(cur).pos as int,
            value_head::<E>(old(cur).data@, old(cur).pos as int, depth as nat, limit),
        ),
{
    let b = match cur.peek::<E>() {
        Ok(b) => b,
        Err(e) => return TrampolineResult::Failed(e),
    };
    if b == LOWER_N {
        cur.skip();
        let lit: [u8; 3] = [0x75, 0x6c, 0x6c];
        let lit_slice = lit.as_slice();
        assert(lit_slice@ =~= seq![0x75u8, 0x6cu8, 0x6cu8]);
        match expect_literal::<E>(cur, lit_slice, ParseError::Expected("null")) {
            Ok(()) => TrampolineResult::Value(JsonValue::Null),
            Err(e) => TrampolineResult::Failed(e),
        }
    } else if b == LOWER_F {
        cur.skip();
        let lit: [u8; 4] = [0x61, 0x6c, 0x73, 0x65];
        let lit_slice = lit.as_slice();
        assert(lit_slice@ =~= seq![0x61u8, 0x6cu8, 0x73u8, 0x65u8]);
        match expect_literal::<E>(cur, lit_slice, ParseError::Expected("false")) {
            Ok(()) => TrampolineResult::Value(JsonValue::Bool(false)),
            Err(e) => TrampolineResult::Failed(e),
        }
    } else if b == LOWER_T {
        cur.skip();
        let lit: [u8; 3] = [0x72, 0x75, 0x65];
        let lit_slice = lit.as_slice();
        assert(lit_slice@ =~= seq![0x72u8, 0x75u8, 0x65u8]);
        match expect_literal::<E>(cur, lit_slice, ParseError::Expected("true")) {
            Ok(()) => TrampolineResult::Value(JsonValue::Bool(true)),
            Err(e) => TrampolineResult::Failed(e),
        }
    } else if b == QUOTE {
        cur.skip();
        match parse_str::<E>(cur) {
            Ok(t) => TrampolineResult::Value(JsonValue::Str(t)),
            Err(e) => TrampolineResult::Failed(e),
        }
    } else if b == OPEN_BRACKET {
        if exceeds_limit(depth, limit) {
            return TrampolineResult::Failed(ParseError::DepthLimitExceeded);
        }
        cur.skip();
        parse_list::<E>(cur)
    } else if b == OPEN_BRACE {
        if exceeds_limit(depth, limit) {
            return TrampolineResult::Failed(ParseError::DepthLimitExceeded);
        }
        cur.skip();
        parse_map::<E>(cur)
    } else if b == MINUS || is_digit_byte(b) {
        match parse_number::<E>(cur) {
            Ok(n) => TrampolineResult::Value(JsonValue::Number(n)),
            Err(e) => TrampolineResult::Failed(e),
        }
    } else {
        TrampolineResult::Failed(ParseError::ExpectedAny)
    }
}

/// Reads what follows an item of an array, as [`array_sep`] says.
pub fn continue_parse_list<E>(cur: &mut Cursor) -> (r: Continuation<E>)
    requires
        old(cur).wf(),
    ensures
        final(cur).wf(),
        final(cur).data@ == old(cur).data@,
        sep_result(r, final(cur).pos as int, array_sep::<E>(old(cur).data@, old(cur).pos as int)),
{
    cur.consume_whitespace();
    match cur.read::<E>() {
        Err(e) => Continuation::Failed(e),
        Ok(b) => if b == CLOSE_BRACKET {
            Continuation::Close
        } else if b == COMMA {
            cur.consume_whitespace();
            Continuation::Next
        } else {
            Continuation::Failed(ParseError::ExpectedListItem)
        },
    }
}

/// Reads what follows a member of an object, as [`object_sep`] says.
pub fn continue_parse_map<E>(cur: &mut Cursor) -> (r: Continuation<E>)
    requires
        old(cur).wf(),
    ensures
        final(cur).wf(),
        final(cur).data@ == old(cur).data@,
        sep_result(r, final(cur).pos as int, object_sep::<E>(old(cur).data@, old(cur).pos as int)),
{
    cur.consume_whitespace();
    match cur.read::<E>() {
        Err(e) => Continuation::Failed(e),
        Ok(b) => if b == CLOSE_BRACE {
            Continuation::Close
        } else if b == COMMA {
            cur.consume_whitespace();
            match expect_byte::<E>(cur, QUOTE, ParseError::ExpectedMapItem) {
                Ok(()) => {},
                Err(e) => return Continuation::Failed(e),
            }
            match parse_key::<E>(cur) {
                Ok(key) => Continuation::NextKey(key),
                Err(e) => Continuation::Failed(e),
            }
        } else {
            Continuation::Failed(ParseError::ExpectedMapItem)
        },
    }
}

} // verus!
