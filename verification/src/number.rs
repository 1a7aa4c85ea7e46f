//! Numbers: their syntax, and the value of integers that fit in 64 bits.
use vstd::prelude::*;
use vstd::slice::slice_subrange;
use vstd::slice::slice_to_vec;

use crate::cursor::Cursor;
use crate::error::ParseError;
use crate::grammar::{
    digits, fraction_part, integer_part, is_digit, number, skip_digits,
    DIGIT_NINE, DIGIT_ONE, DIGIT_ZERO, DOT, LOWER_E, MINUS, PLUS, UPPER_E,
};
use crate::value::JsonNumber;

verus! {

/// Whether `b` is a decimal digit.
pub fn is_digit_byte(b: u8) -> (r: bool)
    ensures
        r == is_digit(b),
{
    DIGIT_ZERO <= b && b <= DIGIT_NINE
}

/// Steps over decimal digits.
pub fn skip_digit_run(cur: &mut Cursor)
    requires
        old(cur).wf(),
    ensures
        final(cur).moved(*old(cur), skip_digits(old(cur).data@, old(cur).pos as int)),
        final(cur).wf(),
        old(cur).pos <= final(cur).pos,
{
    let ghost start = cur.pos as int;
    while cur.pos < cur.data.len() && is_digit_byte(cur.data[cur.pos])
        invariant
            cur.wf(),
            start <= cur.pos,
            start == old(cur).pos,
            cur.data@ == old(cur).data@,
            skip_digits(cur.data@, start) == skip_digits(cur.data@, cur.pos as int),
        decreases cur.data@.len() - cur.pos,
    {
        cur.pos = cur.pos + 1;
    }
}

/// One or more digits, as [`digits`] says.
fn parse_digits<E>(cur: &mut Cursor) -> (r: Result<(), ParseError<E>>)
    requires
        old(cur).wf(),
    ensures
        final(cur).wf(),
        final(cur).data@ == old(cur).data@,
        old(cur).pos <= final(cur).pos,
        match digits::<E>(old(cur).data@, old(cur).pos as int) {
            Ok(q) => r is Ok && final(cur).pos == q,
            Err((e, q)) => r == Err::<(), ParseError<E>>(e) && final(cur).pos == q,
        },
{
    match cur.read::<E>() {
        Ok(c) => if is_digit_byte(c) {
            skip_digit_run(cur);
            Ok(())
        } else {
            Err(ParseError::ExpectedDigit)
        },
        Err(e) => Err(e),
    }
}

/// Reads a number that starts with `-` or a digit, as [`number`] says: its
/// text, and whether it has a fraction or an exponent part.
pub fn parse_number<E>(cur: &mut Cursor) -> (r: Result<JsonNumber, ParseError<E>>)
    requires
        old(cur).wf(),
    ensures
        final(cur).wf(),
        final(cur).data@ == old(cur).data@,
        match number::<E>(old(cur).data@, old(cur).pos as int) {
            Ok(((text, is_float), q)) => r matches Ok(n) && n.text@ == text && n.is_float
                == is_float && final(cur).pos == q,
            Err((e, q)) => r == Err::<JsonNumber, ParseError<E>>(e) && final(cur).pos == q,
        },
{
    let ghost s = cur.data@;
    let start = cur.pos;
    let mut is_float = false;
    let mut c = match cur.read::<E>() {
        Ok(c) => c,
        Err(e) => return Err(e),
    };
    if c == MINUS {
        c = match cur.read::<E>() {
            Ok(c) => c,
            Err(e) => return Err(e),
        };
    }
    if DIGIT_ONE <= c && c <= DIGIT_NINE {
        skip_digit_run(cur);
    } else if c != DIGIT_ZERO {
        return Err(ParseError::ExpectedDigit);
    }
    let ghost i = cur.pos as int;
    assert(integer_part::<E>(s, if s[start as int] == MINUS { start + 1 } else { start as int })
        == Ok::<int, (ParseError<E>, int)>(i));
    if cur.pos < cur.data.len() && cur.data[cur.pos] == DOT {
        cur.skip();
        is_float = true;
        match parse_digits::<E>(cur) {
            Ok(()) => {},
            Err(e) => return Err(e),
        }
    }
    let ghost f = cur.pos as int;
    assert(fraction_part::<E>(s, i) == Ok::<(int, bool), (ParseError<E>, int)>((f, is_float)));
    if cur.pos < cur.data.len() && (cur.data[cur.pos] == LOWER_E || cur.data[cur.pos]
        == UPPER_E) {
        cur.skip();
        is_float = true;
        if cur.pos < cur.data.len() && (cur.data[cur.pos] == PLUS || cur.data[cur.pos] == MINUS) {
            cur.skip();
        }
        match parse_digits::<E>(cur) {
            Ok(()) => {},
            Err(e) => return Err(e),
        }
    }
    let text = slice_to_vec(slice_subrange(cur.data, start, cur.pos));
    Ok(JsonNumber { text, is_float })
}

// ---------------------------------------------------------------------------
// Integer values
// ---------------------------------------------------------------------------
/// The value of a sequence of decimal digits.
pub open spec fn decimal_value(d: Seq<u8>) -> int
    decreases d.len(),
{
    if d.len() == 0 {
        0
    } else {
        decimal_value(d.drop_last()) * 10 + (d.last() - DIGIT_ZERO)
    }
}

/// The digits of an integer's text, after the minus sign if there is one.
pub open spec fn integer_digits(t: Seq<u8>) -> Seq<u8> {
    if t.len() > 0 && t[0] == MINUS {
        t.subrange(1, t.len() as int)
    } else {
        t
    }
}

/// Whether `t` is the text of an integer: an optional minus sign, then one
/// or more decimal digits.
pub open spec fn is_integer_text(t: Seq<u8>) -> bool {
    let d = integer_digits(t);
    &&& d.len() > 0
    &&& forall|i: int| 0 <= i < d.len() ==> is_digit(#[trigger] d[i])
}

/// The value of the text of a JSON integer.
pub open spec fn integer_value(t: Seq<u8>) -> int {
    if t.len() > 0 && t[0] == MINUS {
        -decimal_value(integer_digits(t))
    } else {
        decimal_value(integer_digits(t))
    }
}

/// An integer of a document, in the narrowest form that holds it: a negative
/// one that fits `i64`, another one that fits `u64`, or neither.
#[derive(Debug, PartialEq)]
pub enum Integer {
    Signed(i64),
    Unsigned(u64),
    Big,
}

/// Which form fits the integer whose text is `t`.  A text with a minus sign
/// is tried as `i64` only, one without as `u64` only.
pub open spec fn integer_form(t: Seq<u8>) -> Integer {
    let v = integer_value(t);
    if t.len() > 0 && t[0] == MINUS {
        if i64::MIN <= v {
            Integer::Signed(v as i64)
        } else {
            Integer::Big
        }
    } else if v <= u64::MAX {
        Integer::Unsigned(v as u64)
    } else {
        Integer::Big
    }
}

impl JsonNumber {
    /// Whether the text is that of an integer.
    pub fn is_integer(&self) -> (r: bool)
        ensures
            r == (!self.is_float && is_integer_text(self.text@)),
    {
        if self.is_float {
            return false;
        }
        let t = &self.text;
        let start: usize = if t.len() > 0 && t[0] == MINUS {
            1
        } else {
            0
        };
        if start >= t.len() {
            return false;
        }
        let ghost d = t@.subrange(start as int, t@.len() as int);
        assert(d =~= integer_digits(t@));
        let mut i: usize = start;
        while i < t.len()
            invariant
                start <= i <= t@.len(),
                start < t@.len(),
                t@ == self.text@,
                !self.is_float,
                d == t@.subrange(start as int, t@.len() as int),
                d == integer_digits(self.text@),
                forall|j: int| 0 <= j < i - start ==> is_digit(#[trigger] d[j]),
            decreases t@.len() - i,
        {
            if !is_digit_byte(t[i]) {
                assert(!is_digit(d[i - start]));
                return false;
            }
            i = i + 1;
        }
        true
    }

    /// The value of this number in 64 bits, for an integer that fits; `None`
    /// for a number with a fraction or an exponent part.
    pub fn integer(&self) -> (r: Option<Integer>)
        ensures
            r == if !self.is_float && is_integer_text(self.text@) {
                Some(integer_form(self.text@))
            } else {
                None
            },
    {
        if !self.is_integer() {
            return None;
        }
        Some(self.integer_value())
    }

    fn integer_value(&self) -> (r: Integer)
        requires
            !self.is_float,
            is_integer_text(self.text@),
        ensures
            r == integer_form(self.text@),
    {
        let t = &self.text;
        let negative = t[0] == MINUS;
        let start: usize = if negative {
            1
        } else {
            0
        };
        let ghost d = t@.subrange(start as int, t@.len() as int);
        assert(d =~= integer_digits(t@));
        let mut acc: u64 = 0;
        let mut i: usize = start;
        assert(d.subrange(0, 0) =~= Seq::<u8>::empty());
        while i < t.len()
            invariant
                start <= i <= t@.len(),
                start <= 1,
                d == t@.subrange(start as int, t@.len() as int),
                d == integer_digits(self.text@),
                t@ == self.text@,
                negative == (t@.len() > 0 && t@[0] == MINUS),
                forall|j: int| 0 <= j < d.len() ==> is_digit(#[trigger] d[j]),
                acc == decimal_value(d.subrange(0, i - start)),
            decreases t@.len() - i,
        {
            assert(d.subrange(0, i + 1 - start).drop_last() =~= d.subrange(0, i - start));
            assert(is_digit(d[i - start]));
            let digit = (t[i] - DIGIT_ZERO) as u64;
            if acc > (u64::MAX - digit) / 10 {
                proof {
                    assert(acc * 10 + digit > u64::MAX) by (nonlinear_arith)
                        requires
                            acc > (u64::MAX - digit) / 10,
                            digit <= 9,
                    ;
                    assert(decimal_value(d.subrange(0, i + 1 - start)) == acc * 10 + digit);
                    lemma_decimal_grows(d, i + 1 - start);
                }
                return Integer::Big;
            }
            acc = acc * 10 + digit;
            i = i + 1;
        }
        assert(d.subrange(0, t@.len() - start) =~= d);
        if negative {
            if acc <= 0x8000_0000_0000_0000 {
                if acc == 0x8000_0000_0000_0000 {
                    Integer::Signed(i64::MIN)
                } else {
                    Integer::Signed(-(acc as i64))
                }
            } else {
                Integer::Big
            }
        } else {
            Integer::Unsigned(acc)
        }
    }
}

/// The value of a run of digits is at least that of each of its prefixes.
pub proof fn lemma_decimal_grows(d: Seq<u8>, n: int)
    requires
        0 <= n <= d.len(),
        forall|j: int| 0 <= j < d.len() ==> is_digit(#[trigger] d[j]),
    ensures
        decimal_value(d.subrange(0, n)) <= decimal_value(d),
        0 <= decimal_value(d),
    decreases d.len(),
{
    if d.len() > 0 {
        let e = d.drop_last();
        assert forall|j: int| 0 <= j < e.len() implies is_digit(#[trigger] e[j]) by {
            assert(e[j] == d[j]);
        }
        if n == d.len() {
            assert(d.subrange(0, n) =~= d);
            lemma_decimal_grows(e, 0);
        } else {
            assert(d.subrange(0, n) =~= e.subrange(0, n));
            lemma_decimal_grows(e, n);
        }
    }
}

} // verus!
