//! The parser as a machine that reports one event per step.
//!
//! Whoever drives it keeps the containers that are being built: it creates
//! one on `BeginArray` and `BeginObject`, adds each finished value to the
//! innermost one, and closes it on `EndArray` and `EndObject`.  The parser
//! keeps a ghost copy of those containers, so that its contract can say
//! exactly what the driver holds after each event.
use vstd::prelude::*;

use core::marker::PhantomData;

use crate::cursor::Cursor;
use crate::error::ParseError;
use crate::grammar::{
    array_items, array_rest, document, finish, object_member, object_rest, value, SpecResult,
};
use crate::progress::{
    lemma_array_sep, lemma_object_sep, lemma_value, lemma_value_head,
};
use crate::trampoline::{
    continue_parse_list, continue_parse_map, parse_any, Continuation, Trampoline,
    TrampolineResult,
};
use crate::value::{JsonModel, JsonValue};

verus! {

/// A container that is open, with what it holds so far.
pub enum Frame {
    Array(Seq<JsonModel>),
    /// The members so far, and the key of the member whose value comes next.
    Object(Seq<(Seq<char>, JsonModel)>, Seq<char>),
}

/// The container with one more value.
pub open spec fn attach(f: Frame, v: JsonModel) -> Frame {
    match f {
        Frame::Array(items) => Frame::Array(items.push(v)),
        Frame::Object(entries, key) => Frame::Object(entries.push((key, v)), key),
    }
}

/// The value that a closed container is.
pub open spec fn close(f: Frame) -> JsonModel {
    match f {
        Frame::Array(items) => JsonModel::Array(items),
        Frame::Object(entries, _) => JsonModel::Object(entries),
    }
}

/// The rest of an open container, `depth` deep, after a value that ended at
/// `p`.
pub open spec fn rest<E>(s: Seq<u8>, limit: Option<usize>, f: Frame, depth: nat, p: int) -> SpecResult<
    JsonModel,
    E,
> {
    match f {
        Frame::Array(items) => array_rest(s, p, depth, limit, items),
        Frame::Object(entries, _) => object_rest(s, p, depth, limit, entries),
    }
}

/// The result of the outermost container, given the result `r` of a value
/// inside the innermost of the open containers `frames`.
pub open spec fn resume<E>(
    s: Seq<u8>,
    limit: Option<usize>,
    frames: Seq<Frame>,
    r: SpecResult<JsonModel, E>,
) -> SpecResult<JsonModel, E>
    decreases frames.len(),
{
    if frames.len() == 0 {
        r
    } else {
        match r {
            Err(e) => Err(e),
            Ok((v, p)) => resume(
                s,
                limit,
                frames.drop_last(),
                rest(s, limit, attach(frames.last(), v), frames.len() as nat, p),
            ),
        }
    }
}

/// What the parser reports at each step.
#[derive(Debug, PartialEq)]
pub enum Event<E> {
    /// A whole value: a literal, a string, a number, `[]` or `{}`.
    Value(JsonValue),
    /// An array with at least one item opened.
    BeginArray,
    /// An object with at least one member opened; the first key.
    BeginObject(String),
    /// The key of the next member of the innermost object.
    Key(String),
    EndArray,
    EndObject,
    /// The document is complete and well formed.
    Done,
    /// The document is refused, for this reason, at this input location.
    Failed(ParseError<E>, usize),
}

/// `v` added to the innermost open container, or made the root if none is
/// open.
pub open spec fn attach_to(frames: Seq<Frame>, root: Option<JsonModel>, v: JsonModel) -> (
    Seq<Frame>,
    Option<JsonModel>,
) {
    if frames.len() == 0 {
        (frames, Some(v))
    } else {
        (frames.update(frames.len() - 1, attach(frames.last(), v)), root)
    }
}

/// What an event does to the open containers and the root value.
pub open spec fn apply<E>(frames: Seq<Frame>, root: Option<JsonModel>, ev: Event<E>) -> (
    Seq<Frame>,
    Option<JsonModel>,
) {
    match ev {
        Event::Value(v) => attach_to(frames, root, v@),
        Event::BeginArray => (frames.push(Frame::Array(seq![])), root),
        Event::BeginObject(k) => (frames.push(Frame::Object(seq![], k@)), root),
        Event::Key(k) => match frames.last() {
            Frame::Object(entries, _) => (
                frames.update(frames.len() - 1, Frame::Object(entries, k@)),
                root,
            ),
            Frame::Array(_) => (frames, root),
        },
        Event::EndArray => attach_to(frames.drop_last(), root, close(frames.last())),
        Event::EndObject => attach_to(frames.drop_last(), root, close(frames.last())),
        Event::Done => (frames, root),
        Event::Failed(..) => (frames, root),
    }
}

/// The kind of an open container.
#[derive(PartialEq, Eq, Structural, Clone, Copy)]
pub enum FrameKind {
    Array,
    Object,
}

pub open spec fn kind_of(f: Frame) -> FrameKind {
    match f {
        Frame::Array(_) => FrameKind::Array,
        Frame::Object(..) => FrameKind::Object,
    }
}

#[derive(PartialEq, Eq, Structural, Clone, Copy)]
enum Phase {
    /// A value starts at the cursor (after whitespace).
    ExpectValue,
    /// A value ended just before the cursor.
    AfterValue,
    /// `Done` or `Failed` was reported.
    Finished,
}

/// A parser over one document.
pub struct Parser<'a, E> {
    cursor: Cursor<'a>,
    kinds: Vec<FrameKind>,
    phase: Phase,
    limit: Option<usize>,
    frames: Ghost<Seq<Frame>>,
    root: Ghost<Option<JsonModel>>,
    error: PhantomData<E>,
}

impl<'a, E> Parser<'a, E> {
    pub closed spec fn input(&self) -> Seq<u8> {
        self.cursor.data@
    }

    pub closed spec fn limit(&self) -> Option<usize> {
        self.limit
    }

    /// The input location of the cursor.
    pub closed spec fn position(&self) -> int {
        self.cursor.pos as int
    }

    /// The containers that are open, outermost first.
    pub closed spec fn frames(&self) -> Seq<Frame> {
        self.frames@
    }

    /// The value of the whole document, once it is complete.
    pub closed spec fn root(&self) -> Option<JsonModel> {
        self.root@
    }

    pub closed spec fn finished(&self) -> bool {
        self.phase == Phase::Finished
    }

    /// The state agrees with the document: continuing from it gives what
    /// [`document`] gives.
    pub closed spec fn inv(&self) -> bool {
        let s = self.cursor.data@;
        let frames = self.frames@;
        let p = self.cursor.pos as int;
        &&& self.cursor.wf()
        &&& self.kinds@.len() == frames.len()
        &&& forall|i: int| 0 <= i < frames.len() ==> self.kinds@[i] == kind_of(#[trigger] frames[i])
        &&& match self.phase {
            Phase::ExpectValue => {
                &&& self.root@ is None
                &&& document::<E>(s, self.limit) == finish(
                    s,
                    resume(s, self.limit, frames, value::<E>(s, p, frames.len(), self.limit)),
                )
            },
            Phase::AfterValue => if frames.len() == 0 {
                &&& self.root@ is Some
                &&& document::<E>(s, self.limit) == finish(
                    s,
                    Ok::<(JsonModel, int), (ParseError<E>, int)>((self.root@.unwrap(), p)),
                )
            } else {
                &&& self.root@ is None
                &&& document::<E>(s, self.limit) == finish(
                    s,
                    resume(
                        s,
                        self.limit,
                        frames.drop_last(),
                        rest::<E>(s, self.limit, frames.last(), frames.len() as nat, p),
                    ),
                )
            },
            Phase::Finished => true,
        }
    }

    /// A parser at the start of `data`, with at most `limit` containers open
    /// at once.
    pub fn new(data: &'a [u8], limit: Option<usize>) -> (r: Self)
        ensures
            r.inv(),
            r.input() == data@,
            r.limit() == limit,
            r.frames() == Seq::<Frame>::empty(),
            r.root() is None,
            !r.finished(),
            0 <= r.position() <= data@.len(),
    {
        let mut cursor = Cursor::new(data);
        cursor.consume_whitespace();
        let r = Parser {
            cursor,
            kinds: Vec::new(),
            phase: Phase::ExpectValue,
            limit,
            frames: Ghost(Seq::empty()),
            root: Ghost(None),
            error: PhantomData,
        };
        r
    }

    /// The input location of the cursor.
    pub fn location(&self) -> (r: usize)
        ensures
            r == self.position(),
    {
        self.cursor.pos
    }

    /// What a step from `self` to `new` that reported `ev` guarantees.
    pub open spec fn reports(self, new: Self, ev: Event<E>) -> bool {
        &&& new.inv()
        &&& new.input() == self.input()
        &&& new.limit() == self.limit()
        &&& (new.frames(), new.root()) == apply(self.frames(), self.root(), ev)
        &&& ev is Key ==> self.frames().len() > 0 && self.frames().last() is Object
        &&& ev is EndArray ==> self.frames().len() > 0 && self.frames().last() is Array
        &&& ev is EndObject ==> self.frames().len() > 0 && self.frames().last() is Object
        &&& ev is Done ==> {
            &&& new.finished()
            &&& self.frames().len() == 0
            &&& new.root() is Some
            &&& document::<E>(self.input(), self.limit()) == Ok::<
                JsonModel,
                (ParseError<E>, int),
            >(new.root().unwrap())
        }
        &&& ev matches Event::Failed(e, loc) ==> {
            &&& new.finished()
            &&& document::<E>(self.input(), self.limit()) == Err::<
                JsonModel,
                (ParseError<E>, int),
            >((e, loc as int))
        }
        &&& !(ev is Done || ev is Failed) ==> {
            &&& self.root() is None
            &&& !new.finished()
            &&& self.position() < new.position() <= new.input().len()
        }
    }

    /// Reads up to the next event and reports it.
    pub fn next(&mut self) -> (ev: Event<E>)
        requires
            old(self).inv(),
            !old(self).finished(),
        ensures
            old(self).reports(*final(self), ev),
    {
        if self.phase == Phase::AfterValue {
            if self.kinds.len() == 0 {
                return self.end_document();
            }
            let kind = self.kinds[self.kinds.len() - 1];
            if kind == FrameKind::Array {
                match self.after_item() {
                    Some(ev) => return ev,
                    None => {},
                }
            } else {
                return self.after_member();
            }
        }
        self.read_value()
    }

    /// After the value of the whole document: only whitespace may follow.
    fn end_document(&mut self) -> (ev: Event<E>)
        requires
            old(self).inv(),
            old(self).phase == Phase::AfterValue,
            old(self).frames().len() == 0,
        ensures
            old(self).reports(*final(self), ev),
            ev is Done || ev is Failed,
    {
        self.cursor.consume_whitespace();
        self.phase = Phase::Finished;
        if self.cursor.is_empty() {
            Event::Done
        } else {
            Event::Failed(ParseError::ExpectedEof, self.cursor.pos)
        }
    }

    /// After an item of the innermost array: the array closes, the step
    /// fails, or (`None`) the next item is to be read.
    fn after_item(&mut self) -> (r: Option<Event<E>>)
        requires
            old(self).inv(),
            old(self).phase == Phase::AfterValue,
            old(self).frames().len() > 0,
            old(self).frames().last() is Array,
        ensures
            r matches Some(ev) ==> old(self).reports(*final(self), ev),
            r is None ==> {
                &&& final(self).inv()
                &&& final(self).phase == Phase::ExpectValue
                &&& final(self).input() == old(self).input()
                &&& final(self).limit() == old(self).limit()
                &&& final(self).frames() == old(self).frames()
                &&& final(self).root() == old(self).root()
                &&& old(self).position() < final(self).position()
            },
    {
        let ghost s = self.cursor.data@;
        let ghost limit = self.limit;
        let ghost frames = self.frames@;
        let ghost p = self.cursor.pos as int;
        let ghost outer = frames.drop_last();
        proof {
            lemma_array_sep::<E>(s, p);
        }
        match continue_parse_list::<E>(&mut self.cursor) {
            Continuation::Failed(e) => {
                proof {
                    lemma_resume_err::<E>(s, limit, outer, e, self.cursor.pos as int);
                }
                self.phase = Phase::Finished;
                Some(Event::Failed(e, self.cursor.pos))
            },
            Continuation::Close => {
                self.kinds.pop();
                let ghost v = close(frames.last());
                proof {
                    self.frames@ = attach_to(outer, self.root@, v).0;
                    self.root@ = attach_to(outer, self.root@, v).1;
                    if outer.len() > 0 {
                        lemma_after_close::<E>(s, limit, outer, v, self.cursor.pos as int);
                    }
                    assert forall|i: int| 0 <= i < self.frames@.len() implies self.kinds@[i]
                        == kind_of(#[trigger] self.frames@[i]) by {
                        assert(self.kinds@[i] == old(self).kinds@[i]);
                        assert(kind_of(frames[i]) == kind_of(self.frames@[i]));
                    }
                }
                Some(Event::EndArray)
            },
            Continuation::Next => {
                proof {
                    let items = frames.last()->Array_0;
                    lemma_array_step::<E>(s, limit, outer, items, self.cursor.pos as int);
                    assert(outer.push(frames.last()) =~= frames);
                }
                self.phase = Phase::ExpectValue;
                None
            },
            Continuation::NextKey(_) => {
                assert(false);
                None
            },
        }
    }

    /// After a member of the innermost object: the object closes, the step
    /// fails, or the next key is read.
    fn after_member(&mut self) -> (ev: Event<E>)
        requires
            old(self).inv(),
            old(self).phase == Phase::AfterValue,
            old(self).frames().len() > 0,
            old(self).frames().last() is Object,
        ensures
            old(self).reports(*final(self), ev),
    {
        let ghost s = self.cursor.data@;
        let ghost limit = self.limit;
        let ghost frames = self.frames@;
        let ghost p = self.cursor.pos as int;
        let ghost outer = frames.drop_last();
        proof {
            lemma_object_sep::<E>(s, p);
        }
        match continue_parse_map::<E>(&mut self.cursor) {
            Continuation::Failed(e) => {
                proof {
                    lemma_resume_err::<E>(s, limit, outer, e, self.cursor.pos as int);
                }
                self.phase = Phase::Finished;
                Event::Failed(e, self.cursor.pos)
            },
            Continuation::Close => {
                self.kinds.pop();
                let ghost v = close(frames.last());
                proof {
                    self.frames@ = attach_to(outer, self.root@, v).0;
                    self.root@ = attach_to(outer, self.root@, v).1;
                    if outer.len() > 0 {
                        lemma_after_close::<E>(s, limit, outer, v, self.cursor.pos as int);
                    }
                    assert forall|i: int| 0 <= i < self.frames@.len() implies self.kinds@[i]
                        == kind_of(#[trigger] self.frames@[i]) by {
                        assert(self.kinds@[i] == old(self).kinds@[i]);
                        assert(kind_of(frames[i]) == kind_of(self.frames@[i]));
                    }
                }
                Event::EndObject
            },
            Continuation::NextKey(key) => {
                proof {
                    let entries = frames.last()->Object_0;
                    let f = Frame::Object(entries, key@);
                    lemma_object_step::<E>(s, limit, outer, entries, key@, self.cursor.pos as int);
                    self.frames@ = frames.update(frames.len() - 1, f);
                    assert(outer.push(f) =~= self.frames@);
                    assert(outer.push(frames.last()) =~= frames);
                }
                self.phase = Phase::ExpectValue;
                Event::Key(key)
            },
            Continuation::Next => {
                assert(false);
                Event::Done
            },
        }
    }

    /// Reads the first token of the value at the cursor.
    fn read_value(&mut self) -> (ev: Event<E>)
        requires
            old(self).inv(),
            old(self).phase == Phase::ExpectValue,
        ensures
            old(self).reports(*final(self), ev),
            !(ev is Key || ev is EndArray || ev is EndObject || ev is Done),
    {
        let ghost s = self.cursor.data@;
        let ghost limit = self.limit;
        let ghost frames = self.frames@;
        let ghost p = self.cursor.pos as int;
        let ghost d = frames.len() as nat;
        proof {
            lemma_value_head::<E>(s, p, d, limit);
        }
        match parse_any::<E>(&mut self.cursor, self.kinds.len(), self.limit) {
            TrampolineResult::Value(v) => {
                proof {
                    let (f2, r2) = attach_to(frames, self.root@, v@);
                    self.frames@ = f2;
                    self.root@ = r2;
                    if frames.len() > 0 {
                        assert(f2.drop_last() =~= frames.drop_last());
                        assert forall|i: int| 0 <= i < f2.len() implies self.kinds@[i] == kind_of(
                            #[trigger] f2[i],
                        ) by {
                            assert(kind_of(frames[i]) == kind_of(f2[i]));
                        }
                    }
                }
                self.phase = Phase::AfterValue;
                Event::Value(v)
            },
            TrampolineResult::Failed(e) => {
                proof {
                    lemma_resume_err::<E>(s, limit, frames, e, self.cursor.pos as int);
                }
                self.phase = Phase::Finished;
                Event::Failed(e, self.cursor.pos)
            },
            TrampolineResult::Incomplete(Trampoline::ParsingList) => {
                proof {
                    lemma_array_step::<E>(s, limit, frames, seq![], self.cursor.pos as int);
                    self.frames@ = frames.push(Frame::Array(seq![]));
                }
                self.kinds.push(FrameKind::Array);
                Event::BeginArray
            },
            TrampolineResult::Incomplete(Trampoline::ParsingMap { key }) => {
                proof {
                    lemma_object_step::<E>(s, limit, frames, seq![], key@, self.cursor.pos as int);
                    self.frames@ = frames.push(Frame::Object(seq![], key@));
                }
                self.kinds.push(FrameKind::Object);
                Event::BeginObject(key)
            },
        }
    }
}

/// An error inside the innermost container is the error of the whole.
pub proof fn lemma_resume_err<E>(
    s: Seq<u8>,
    limit: Option<usize>,
    frames: Seq<Frame>,
    e: ParseError<E>,
    p: int,
)
    ensures
        resume(s, limit, frames, Err((e, p))) == Err::<(JsonModel, int), (ParseError<E>, int)>(
            (e, p),
        ),
    decreases frames.len(),
{
    if frames.len() > 0 {
        lemma_resume_err::<E>(s, limit, frames.drop_last(), e, p);
    }
}

/// Closing the innermost container hands its value to the next one out.
proof fn lemma_after_close<E>(
    s: Seq<u8>,
    limit: Option<usize>,
    outer: Seq<Frame>,
    v: JsonModel,
    q: int,
)
    requires
        outer.len() > 0,
    ensures
        ({
            let f2 = outer.update(outer.len() - 1, attach(outer.last(), v));
            &&& f2.drop_last() == outer.drop_last()
            &&& f2.last() == attach(outer.last(), v)
        }),
{
    let f2 = outer.update(outer.len() - 1, attach(outer.last(), v));
    assert(f2.drop_last() =~= outer.drop_last());
}

/// Parsing the items of an array from `q` on is parsing one value with the
/// array open, then going on with it.
proof fn lemma_array_step<E>(
    s: Seq<u8>,
    limit: Option<usize>,
    outer: Seq<Frame>,
    items: Seq<JsonModel>,
    q: int,
)
    requires
        0 <= q <= s.len(),
    ensures
        resume(s, limit, outer, array_items::<E>(s, q, outer.len() + 1, limit, items)) == resume(
            s,
            limit,
            outer.push(Frame::Array(items)),
            value::<E>(s, q, outer.len() + 1, limit),
        ),
{
    let d = (outer.len() + 1) as nat;
    let frames = outer.push(Frame::Array(items));
    assert(frames.drop_last() =~= outer);
    lemma_value::<E>(s, q, d, limit);
    match value::<E>(s, q, d, limit) {
        Err((e, p)) => {
            lemma_resume_err::<E>(s, limit, outer, e, p);
        },
        Ok(_) => {},
    }
}

/// Parsing the member with key `key` of an object from `q` on is parsing
/// one value with the object open, then going on with it.
proof fn lemma_object_step<E>(
    s: Seq<u8>,
    limit: Option<usize>,
    outer: Seq<Frame>,
    entries: Seq<(Seq<char>, JsonModel)>,
    key: Seq<char>,
    q: int,
)
    requires
        0 <= q <= s.len(),
    ensures
        resume(s, limit, outer, object_member::<E>(s, q, outer.len() + 1, limit, entries, key))
            == resume(
            s,
            limit,
            outer.push(Frame::Object(entries, key)),
            value::<E>(s, q, outer.len() + 1, limit),
        ),
{
    let d = (outer.len() + 1) as nat;
    let frames = outer.push(Frame::Object(entries, key));
    assert(frames.drop_last() =~= outer);
    lemma_value::<E>(s, q, d, limit);
    match value::<E>(s, q, d, limit) {
        Err((e, p)) => {
            lemma_resume_err::<E>(s, limit, outer, e, p);
        },
        Ok(_) => {},
    }
}

} // verus!
