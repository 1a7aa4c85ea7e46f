//! A read position in the input, and the primitive moves on it.
use vstd::prelude::*;

use crate::error::ParseError;
use crate::grammar::{is_ws, skip_ws, starts_at, CARRIAGE_RETURN, NEWLINE, SPACE, TAB};

verus! {

/// The input and the position of the next byte to read.
pub struct Cursor<'a> {
    pub data: &'a [u8],
    pub pos: usize,
}

impl<'a> Cursor<'a> {
    /// The position lies inside the input or just after it.
    pub open spec fn wf(&self) -> bool {
        self.pos <= self.data.len()
    }

    /// The same input, at position `pos`.
    pub open spec fn moved(&self, old: Cursor<'a>, pos: int) -> bool {
        &&& self.data@ == old.data@
        &&& self.pos == pos
    }

    /// A cursor at the start of `data`.
    pub fn new(data: &'a [u8]) -> (c: Self)
        ensures
            c.data@ == data@,
            c.pos == 0,
            c.wf(),
    {
        Cursor { data, pos: 0 }
    }

    /// Whether every byte has been read.
    pub fn is_empty(&self) -> (b: bool)
        requires
            self.wf(),
        ensures
            b == (self.pos == self.data@.len()),
    {
        self.pos == self.data.len()
    }

    /// The next byte, without moving; `Eof` at the end.
    pub fn peek<E>(&self) -> (r: Result<u8, ParseError<E>>)
        requires
            self.wf(),
        ensures
            self.pos < self.data@.len() ==> r == Ok::<u8, ParseError<E>>(self.data@[self.pos as int]),
            self.pos == self.data@.len() ==> r == Err::<u8, ParseError<E>>(ParseError::Eof),
    {
        if self.pos < self.data.len() {
            Ok(self.data[self.pos])
        } else {
            Err(ParseError::Eof)
        }
    }

    /// Steps over one byte.
    pub fn skip(&mut self)
        requires
            old(self).wf(),
            old(self).pos < old(self).data@.len(),
        ensures
            final(self).moved(*old(self), old(self).pos + 1),
            final(self).wf(),
    {
        self.pos = self.pos + 1;
    }

    /// Steps over `n` bytes.
    pub fn skip_n(&mut self, n: usize)
        requires
            old(self).wf(),
            old(self).pos + n <= old(self).data@.len(),
        ensures
            final(self).moved(*old(self), old(self).pos + n),
            final(self).wf(),
    {
        self.pos = self.pos + n;
    }

    /// The next byte, moving past it; `Eof`, without moving, at the end.
    pub fn read<E>(&mut self) -> (r: Result<u8, ParseError<E>>)
        requires
            old(self).wf(),
        ensures
            final(self).wf(),
            old(self).pos < old(self).data@.len() ==> {
                &&& r == Ok::<u8, ParseError<E>>(old(self).data@[old(self).pos as int])
                &&& final(self).moved(*old(self), old(self).pos + 1)
            },
            old(self).pos == old(self).data@.len() ==> {
                &&& r == Err::<u8, ParseError<E>>(ParseError::Eof)
                &&& final(self).moved(*old(self), old(self).pos as int)
            },
    {
        if self.pos < self.data.len() {
            let b = self.data[self.pos];
            self.pos = self.pos + 1;
            Ok(b)
        } else {
            Err(ParseError::Eof)
        }
    }

    /// Steps over spaces, tabs, line feeds and carriage returns.
    pub fn consume_whitespace(&mut self)
        requires
            old(self).wf(),
        ensures
            final(self).moved(*old(self), skip_ws(old(self).data@, old(self).pos as int)),
            final(self).wf(),
    {
        let ghost start = self.pos as int;
        while self.pos < self.data.len() && is_ws_byte(self.data[self.pos])
            invariant
                self.wf(),
                self.data@ == old(self).data@,
                skip_ws(self.data@, start) == skip_ws(self.data@, self.pos as int),
            decreases self.data@.len() - self.pos,
        {
            self.pos = self.pos + 1;
        }
    }

    /// Whether the bytes of `lit` come next.
    pub fn starts_with(&self, lit: &[u8]) -> (b: bool)
        requires
            self.wf(),
        ensures
            b == starts_at(self.data@, self.pos as int, lit@),
    {
        if self.data.len() - self.pos < lit.len() {
            return false;
        }
        let mut i: usize = 0;
        while i < lit.len()
            invariant
                self.wf(),
                self.pos + lit@.len() <= self.data@.len(),
                i <= lit@.len(),
                forall|j: int| 0 <= j < i ==> self.data@[self.pos + j] == lit@[j],
            decreases lit@.len() - i,
        {
            if self.data[self.pos + i] != lit[i] {
                assert(self.data@.subrange(self.pos as int, self.pos + lit@.len())[i as int]
                    != lit@[i as int]);
                return false;
            }
            i = i + 1;
        }
        assert(self.data@.subrange(self.pos as int, self.pos + lit@.len()) =~= lit@);
        true
    }
}

/// Whether `b` is whitespace between tokens.
pub fn is_ws_byte(b: u8) -> (r: bool)
    ensures
        r == is_ws(b),
{
    b == SPACE || b == NEWLINE || b == CARRIAGE_RETURN || b == TAB
}

/// Steps over `lit` if it comes next; otherwise fails with `err`, without
/// moving.
pub fn expect_literal<E>(cur: &mut Cursor, lit: &[u8], err: ParseError<E>) -> (r: Result<
    (),
    ParseError<E>,
>)
    requires
        old(cur).wf(),
    ensures
        final(cur).wf(),
        starts_at(old(cur).data@, old(cur).pos as int, lit@) ==> {
            &&& r is Ok
            &&& final(cur).moved(*old(cur), old(cur).pos + lit@.len())
        },
        !starts_at(old(cur).data@, old(cur).pos as int, lit@) ==> {
            &&& r == Err::<(), ParseError<E>>(err)
            &&& final(cur).moved(*old(cur), old(cur).pos as int)
        },
{
    if cur.starts_with(lit) {
        cur.skip_n(lit.len());
        Ok(())
    } else {
        Err(err)
    }
}

/// Reads one byte and fails with `err` unless it is `b`.  The byte is
/// consumed either way; at the end of the input nothing is.
pub fn expect_byte<E>(cur: &mut Cursor, b: u8, err: ParseError<E>) -> (r: Result<(), ParseError<E>>)
    requires
        old(cur).wf(),
    ensures
        final(cur).wf(),
        old(cur).pos < old(cur).data@.len() ==> {
            &&& final(cur).moved(*old(cur), old(cur).pos + 1)
            &&& (r is Ok <==> old(cur).data@[old(cur).pos as int] == b)
            &&& (r is Err ==> r == Err::<(), ParseError<E>>(err))
        },
        old(cur).pos == old(cur).data@.len() ==> {
            &&& final(cur).moved(*old(cur), old(cur).pos as int)
            &&& r == Err::<(), ParseError<E>>(err)
        },
{
    match cur.read::<()>() {
        Ok(v) => if v == b {
            Ok(())
        } else {
            Err(err)
        },
        Err(_) => Err(err),
    }
}

} // verus!
