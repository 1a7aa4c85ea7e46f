//! Strings: characters, escapes and whole string literals.
use vstd::prelude::*;
use vstd::slice::slice_subrange;

use crate::cursor::{expect_literal, Cursor};
use crate::error::ParseError;
use crate::grammar::{
    continuation, ends_plain_run, utf8_finish, escape_hex, escape_number, hex_digit, hex_value,
    plain_run_end, simple_escape, string, string_tail,
    unicode_escape, utf8_char, BACKSLASH, LOWER_U, PLUS, QUOTE,
};
use crate::progress::{lemma_unicode_escape, lemma_utf8_char};
use crate::text::{char_from_u32, push_char, str_from_utf8};

verus! {

/// Whether `cur` moved from `old` as `spec` says, giving `r`.
pub open spec fn follows<T, E>(
    cur: Cursor,
    old: Cursor,
    r: Result<T, ParseError<E>>,
    spec: Result<(T, int), (ParseError<E>, int)>,
) -> bool {
    &&& cur.wf()
    &&& cur.data@ == old.data@
    &&& match spec {
        Ok((v, q)) => r == Ok::<T, ParseError<E>>(v) && cur.pos == q,
        Err((e, q)) => r == Err::<T, ParseError<E>>(e) && cur.pos == q,
    }
}

/// Reads one UTF-8 encoded character, as [`utf8_char`] says.
pub fn read_utf8_char<E>(cur: &mut Cursor) -> (r: Result<char, ParseError<E>>)
    requires
        old(cur).wf(),
    ensures
        follows(*final(cur), *old(cur), r, utf8_char::<E>(old(cur).data@, old(cur).pos as int)),
{
    let ghost s = cur.data@;
    let ghost p = cur.pos as int;
    let first = match cur.read::<E>() {
        Ok(b) => b,
        Err(e) => return Err(e),
    };
    if first < 0x80 {
        return Ok(first as char);
    }
    let (lead, additional): (u32, usize) = if 0xc0 <= first && first <= 0xdf {
        ((first - 0xc0) as u32, 1)
    } else if 0xe0 <= first && first <= 0xef {
        ((first - 0xe0) as u32, 2)
    } else if 0xf0 <= first && first <= 0xf7 {
        ((first - 0xf0) as u32, 3)
    } else {
        return Err(ParseError::InvalidUtf8);
    };
    let mut val: u32 = lead;
    let mut i: usize = 0;
    while i < additional
        invariant
            cur.wf(),
            cur.data@ == s,
            s == old(cur).data@,
            p == old(cur).pos,
            1 <= additional <= 3,
            i <= additional,
            cur.pos == p + 1 + i,
            i == 0 ==> val < 32,
            i == 1 ==> val < 2048,
            i == 2 ==> val < 0x20000,
            i == 3 ==> val < 0x800000,
            utf8_char::<E>(s, p) == utf8_finish(
                continuation::<E>(s, p + 1, lead as int, additional as nat),
            ),
            continuation::<E>(s, p + 1, lead as int, additional as nat) == continuation::<E>(
                s,
                cur.pos as int,
                val as int,
                (additional - i) as nat,
            ),
        decreases additional - i,
    {
        let c = match cur.read::<()>() {
            Ok(c) => c,
            Err(_) => return Err(ParseError::InvalidUtf8),
        };
        if c < 0x80 || c > 0xbf {
            return Err(ParseError::InvalidUtf8);
        }
        val = val * 64 + (c - 0x80) as u32;
        i = i + 1;
    }
    match char_from_u32(val) {
        Some(ch) => Ok(ch),
        None => Err(ParseError::InvalidUtf8),
    }
}

/// The value of a hexadecimal digit, as [`hex_digit`] says.
pub fn hex_digit_value(b: u8) -> (r: Option<u32>)
    ensures
        match hex_digit(b) {
            Some(v) => r == Some(v as u32) && v < 16,
            None => r is None,
        },
{
    if 0x30 <= b && b <= 0x39 {
        Some((b - 0x30) as u32)
    } else if 0x61 <= b && b <= 0x66 {
        Some((b - 0x61 + 10) as u32)
    } else if 0x41 <= b && b <= 0x46 {
        Some((b - 0x41 + 10) as u32)
    } else {
        None
    }
}

/// Reads the four bytes after `\u` and the number they give, as
/// [`escape_hex`] says.
pub fn parse_unicode_escape<E>(cur: &mut Cursor) -> (r: Result<u16, ParseError<E>>)
    requires
        old(cur).wf(),
    ensures
        final(cur).wf(),
        final(cur).data@ == old(cur).data@,
        match escape_hex::<E>(old(cur).data@, old(cur).pos as int) {
            Ok((v, q)) => r == Ok::<u16, ParseError<E>>(v as u16) && final(cur).pos == q && 0 <= v
                <= 0xffff,
            Err((e, q)) => r == Err::<u16, ParseError<E>>(e) && final(cur).pos == q,
        },
{
    let ghost s = cur.data@;
    if cur.data.len() - cur.pos < 4 {
        return Err(ParseError::Eof);
    }
    let hex = slice_subrange(cur.data, cur.pos, cur.pos + 4);
    if str_from_utf8(hex).is_none() {
        return Err(ParseError::InvalidUtf8);
    }
    cur.skip_n(4);
    let start: usize = if hex[0] == PLUS {
        1
    } else {
        0
    };
    let ghost d = hex@.subrange(start as int, 4);
    let mut acc: Option<u32> = Some(0);
    let mut i: usize = start;
    assert(d.subrange(0, 0) =~= Seq::<u8>::empty());
    while i < 4
        invariant
            hex@.len() == 4,
            start <= i <= 4,
            start <= 1,
            d == hex@.subrange(start as int, 4),
            match hex_value(d.subrange(0, i - start)) {
                Some(v) => 0 <= v < pow16(i - start) && acc == Some(v as u32),
                None => acc is None,
            },
        decreases 4 - i,
    {
        let digit = hex_digit_value(hex[i]);
        assert(d.subrange(0, i + 1 - start).drop_last() =~= d.subrange(0, i - start));
        assert(d.subrange(0, i + 1 - start).last() == hex@[i as int]);
        acc = match (acc, digit) {
            (Some(a), Some(x)) => Some(a * 16 + x),
            _ => None,
        };
        i = i + 1;
    }
    assert(d.subrange(0, 4 - start) =~= d);
    proof {
        assert(escape_number(hex@) == hex_value(d)) by {
            if start == 0 {
                assert(d =~= hex@);
            }
        }
    }
    match acc {
        Some(v) => Ok(v as u16),
        None => Err(ParseError::InvalidStringEscape),
    }
}

/// `16` to the power `n`, for the few digits of an escape.
pub open spec fn pow16(n: int) -> int {
    if n <= 0 {
        1
    } else if n == 1 {
        16
    } else if n == 2 {
        256
    } else if n == 3 {
        4096
    } else {
        65536
    }
}

/// Reads the character of a `\u` escape, whose digits come next, as
/// [`unicode_escape`] says.
pub fn parse_unicode_char<E>(cur: &mut Cursor) -> (r: Result<char, ParseError<E>>)
    requires
        old(cur).wf(),
    ensures
        follows(*final(cur), *old(cur), r, unicode_escape::<E>(old(cur).data@, old(cur).pos as int)),
{
    let c1 = match parse_unicode_escape::<E>(cur) {
        Ok(c) => c,
        Err(e) => return Err(e),
    };
    match char_from_u32(c1 as u32) {
        Some(c) => Ok(c),
        None => {
            if 0xd800 <= c1 && c1 <= 0xdbff {
                let ghost q = cur.pos as int;
                let lit: [u8; 2] = [BACKSLASH, LOWER_U];
                let lit_slice = lit.as_slice();
                assert(lit_slice@ =~= seq![BACKSLASH, LOWER_U]);
                match expect_literal::<E>(cur, lit_slice, ParseError::InvalidStringEscape) {
                    Ok(()) => {},
                    Err(e) => return Err(e),
                }
                let c2 = match parse_unicode_escape::<E>(cur) {
                    Ok(c) => c,
                    Err(e) => return Err(e),
                };
                if !(0xdc00 <= c2 && c2 <= 0xdfff) {
                    return Err(ParseError::InvalidStringEscape);
                }
                let v: u32 = 0x10000 + ((c1 - 0xd800) as u32) * 1024 + (c2 - 0xdc00) as u32;
                match char_from_u32(v) {
                    Some(c) => Ok(c),
                    None => Err(ParseError::InvalidStringEscape),
                }
            } else {
                Err(ParseError::InvalidStringEscape)
            }
        },
    }
}

/// Whether `b` ends the run of plain bytes at the start of a string.
pub fn ends_plain_run_byte(b: u8) -> (r: bool)
    ensures
        r == ends_plain_run(b),
{
    b == QUOTE || b == BACKSLASH || b < 0x20
}

/// Reads the rest of a string whose opening quote was just read, as
/// [`string`] says.  The run up to the first backslash is checked as UTF-8
/// in one piece; after a backslash the string is decoded character by
/// character.
pub fn parse_str<E>(cur: &mut Cursor) -> (r: Result<String, ParseError<E>>)
    requires
        old(cur).wf(),
    ensures
        final(cur).wf(),
        final(cur).data@ == old(cur).data@,
        match string::<E>(old(cur).data@, old(cur).pos as int) {
            Ok((text, q)) => r matches Ok(t) && t@ == text && final(cur).pos == q,
            Err((e, q)) => r == Err::<String, ParseError<E>>(e) && final(cur).pos == q,
        },
{
    let ghost s = cur.data@;
    let start = cur.pos;
    while cur.pos < cur.data.len() && !ends_plain_run_byte(cur.data[cur.pos])
        invariant
            cur.wf(),
            cur.data@ == s,
            start <= cur.pos,
            plain_run_end(s, start as int) == plain_run_end(s, cur.pos as int),
        decreases s.len() - cur.pos,
    {
        cur.pos = cur.pos + 1;
    }
    if cur.pos == cur.data.len() {
        return Err(ParseError::Eof);
    }
    let i = cur.pos;
    let b = cur.data[i];
    if b == QUOTE {
        cur.skip();
        return match str_from_utf8(slice_subrange(cur.data, start, i)) {
            Some(t) => Ok(t.to_owned()),
            None => Err(ParseError::InvalidUtf8),
        };
    } else if b != BACKSLASH {
        return Err(ParseError::UnescapedControlCharacter);
    }
    let mut buf = match str_from_utf8(slice_subrange(cur.data, start, i)) {
        Some(t) => t.to_owned(),
        None => return Err(ParseError::InvalidUtf8),
    };
    let ghost total = string_tail::<E>(s, i as int, buf@);
    assert(total == string::<E>(s, start as int));
    loop
        invariant
            cur.wf(),
            cur.data@ == s,
            s == old(cur).data@,
            total == string::<E>(s, old(cur).pos as int),
            string_tail::<E>(s, cur.pos as int, buf@) == total,
        decreases s.len() - cur.pos,
    {
        let ghost p = cur.pos as int;
        proof {
            lemma_utf8_char::<E>(s, p);
        }
        let c = match read_utf8_char::<E>(cur) {
            Ok(c) => c,
            Err(e) => return Err(e),
        };
        if c == '\\' {
            let ghost q = cur.pos as int;
            proof {
                lemma_utf8_char::<E>(s, q);
            }
            let esc = match read_utf8_char::<E>(cur) {
                Ok(c) => c,
                Err(e) => return Err(e),
            };
            if esc == 'u' {
                let ghost r = cur.pos as int;
                proof {
                    lemma_unicode_escape::<E>(s, r);
                }
                let ch = match parse_unicode_char::<E>(cur) {
                    Ok(ch) => ch,
                    Err(e) => return Err(e),
                };
                push_char(&mut buf, ch);
            } else {
                let ch = match escaped_char(esc) {
                    Some(ch) => ch,
                    None => return Err(ParseError::InvalidStringEscape),
                };
                push_char(&mut buf, ch);
            }
        } else if c == '"' {
            return Ok(buf);
        } else if (c as u32) < 0x20 {
            return Err(ParseError::UnescapedControlCharacter);
        } else {
            push_char(&mut buf, c);
        }
    }
}

/// What a simple escape stands for, as [`simple_escape`] says.
pub fn escaped_char(c: char) -> (r: Option<char>)
    ensures
        r == simple_escape(c),
{
    if c == 'b' {
        Some('\x08')
    } else if c == 'f' {
        Some('\x0c')
    } else if c == 'n' {
        Some('\n')
    } else if c == 'r' {
        Some('\r')
    } else if c == 't' {
        Some('\t')
    } else if c == '\\' || c == '/' || c == '"' {
        Some(c)
    } else {
        None
    }
}

} // verus!
