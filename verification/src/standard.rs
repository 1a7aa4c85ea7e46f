//! How the string and character readers relate to JSON's string syntax, to
//! standard UTF-8 and to `\u` escapes, and exactly where they accept more.
use vstd::prelude::*;
use vstd::utf8::{
    decode_first_codepoint, decode_first_scalar, length_of_first_codepoint,
    length_of_first_scalar, pop_first_scalar, valid_first_scalar,
    valid_leading_and_continuation_bytes_first_codepoint, valid_utf8, decode_utf8,
};

use crate::error::ParseError;
use crate::grammar::{
    ends_plain_run, plain_run_end, string, string_tail, BACKSLASH, LOWER_N, QUOTE,
    continuation, escape_hex, escape_number, hex_digit, hex_value, is_scalar_value, utf8_char,
    simple_escape, unicode_escape, LOWER_U, PLUS,
};

verus! {

/// Whether every byte of `d` is a hexadecimal digit.
pub open spec fn all_hex(d: Seq<u8>) -> bool {
    forall|i: int| 0 <= i < d.len() ==> #[trigger] hex_digit(d[i]) is Some
}

proof fn lemma_hex_value_some(d: Seq<u8>)
    ensures
        hex_value(d) is Some <==> all_hex(d),
    decreases d.len(),
{
    if d.len() > 0 {
        let e = d.drop_last();
        lemma_hex_value_some(e);
        if all_hex(d) {
            assert forall|i: int| 0 <= i < e.len() implies #[trigger] hex_digit(e[i]) is Some by {
                assert(e[i] == d[i]);
            }
            assert(hex_digit(d[d.len() - 1]) is Some);
        }
        if hex_value(d) is Some {
            assert forall|i: int| 0 <= i < d.len() implies #[trigger] hex_digit(d[i]) is Some by {
                if i < d.len() - 1 {
                    assert(e[i] == d[i]);
                }
            }
        }
    }
}

/// Bytes below `0x80` are valid UTF-8.
proof fn lemma_ascii_valid(d: Seq<u8>)
    requires
        forall|i: int| 0 <= i < d.len() ==> #[trigger] d[i] < 0x80,
    ensures
        valid_utf8(d),
    decreases d.len(),
{
    if d.len() > 0 {
        let b = d[0];
        assert(b < 0x80);
        assert((b & 0x7f) as u32 == b as u32) by (bit_vector)
            requires
                b < 0x80,
        ;
        assert(valid_first_scalar(d));
        let rest = pop_first_scalar(d);
        assert(rest =~= d.subrange(1, d.len() as int));
        assert forall|i: int| 0 <= i < rest.len() implies #[trigger] rest[i] < 0x80 by {
            assert(rest[i] == d[i + 1]);
        }
        lemma_ascii_valid(rest);
    }
}

/// The four bytes of a `\u` escape, when the first is not `+`: at the end
/// of the input they are missing (`Eof`); otherwise the escape is read
/// exactly when all four are hexadecimal digits, and its number is their
/// value in base 16.
pub proof fn law_escape_digits<E>(s: Seq<u8>, p: int)
    requires
        0 <= p <= s.len(),
        !(p < s.len() && s[p] == PLUS),
    ensures
        p + 4 > s.len() ==> escape_hex::<E>(s, p) == Err::<(int, int), (ParseError<E>, int)>(
            (ParseError::Eof, p),
        ),
        p + 4 <= s.len() ==> (escape_hex::<E>(s, p) is Ok <==> all_hex(s.subrange(p, p + 4))),
        escape_hex::<E>(s, p) matches Ok((v, q)) ==> q == p + 4 && Some(v) == hex_value(
            s.subrange(p, p + 4),
        ),
{
    if p + 4 <= s.len() {
        let d = s.subrange(p, p + 4);
        lemma_hex_value_some(d);
        assert(escape_number(d) == hex_value(d));
        if all_hex(d) {
            assert forall|i: int| 0 <= i < d.len() implies #[trigger] d[i] < 0x80 by {
                assert(hex_digit(d[i]) is Some);
            }
            lemma_ascii_valid(d);
        }
    }
}

/// The code that `continuation` builds from a lead and 1 to 3 continuation
/// bytes is the code point that the UTF-8 bit patterns give.
proof fn lemma_codepoint<E>(s: Seq<u8>, p: int)
    requires
        0 <= p < s.len(),
        valid_leading_and_continuation_bytes_first_codepoint(s.subrange(p, s.len() as int)),
    ensures
        ({
            let r = s.subrange(p, s.len() as int);
            let b = s[p];
            let n = (length_of_first_codepoint(r) - 1) as nat;
            let lead = if b < 0x80 {
                b as int
            } else if b <= 0xdf {
                b - 0xc0
            } else if b <= 0xef {
                b - 0xe0
            } else {
                b - 0xf0
            };
            continuation::<E>(s, p + 1, lead, n) == Ok::<(int, int), (ParseError<E>, int)>(
                (decode_first_codepoint(r) as int, p + 1 + n),
            )
        }),
{
    let r = s.subrange(p, s.len() as int);
    let b = s[p];
    assert(r[0] == b);
    reveal_with_fuel(continuation, 4);
    if b < 0x80 {
        assert((b & 0x7f) as u32 == b as u32) by (bit_vector)
            requires
                b < 0x80,
        ;
    } else if b <= 0xdf {
        let c = s[p + 1];
        assert(r[1] == c);
        assert(((b & 0x1f) as u32) << 6u32 | ((c & 0x3f) as u32) == ((b - 0xc0) * 64 + (c
            - 0x80)) as u32) by (bit_vector)
            requires
                0xc0 <= b <= 0xdf,
                0x80 <= c <= 0xbf,
        ;
    } else if b <= 0xef {
        let c = s[p + 1];
        let e = s[p + 2];
        assert(r[1] == c && r[2] == e);
        assert(((b & 0x0f) as u32) << 12u32 | ((c & 0x3f) as u32) << 6u32 | ((e & 0x3f) as u32)
            == (((b - 0xe0) * 64 + (c - 0x80)) * 64 + (e - 0x80)) as u32) by (bit_vector)
            requires
                0xe0 <= b <= 0xef,
                0x80 <= c <= 0xbf,
                0x80 <= e <= 0xbf,
        ;
    } else {
        let c = s[p + 1];
        let e = s[p + 2];
        let f = s[p + 3];
        assert(r[1] == c && r[2] == e && r[3] == f);
        assert(((b & 0x07) as u32) << 18u32 | ((c & 0x3f) as u32) << 12u32 | ((e & 0x3f) as u32)
            << 6u32 | ((f & 0x3f) as u32) == ((((b - 0xf0) * 64 + (c - 0x80)) * 64 + (e - 0x80))
            * 64 + (f - 0x80)) as u32) by (bit_vector)
            requires
                0xf0 <= b <= 0xf7,
                0x80 <= c <= 0xbf,
                0x80 <= e <= 0xbf,
                0x80 <= f <= 0xbf,
        ;
    }
}

/// Reading one character after a backslash: at the end of the input it is
/// missing (`Eof`); otherwise a character is read exactly when the bytes
/// follow the UTF-8 bit patterns for a leading byte and its continuation
/// bytes and the number they encode is a Unicode scalar value, and the
/// character is that number.  So every well-formed (shortest) UTF-8
/// character is read as UTF-8 reads it; the one kind of input read beyond
/// that is an over-long encoding of a character.
pub proof fn law_read_char_standard<E>(s: Seq<u8>, p: int)
    requires
        0 <= p <= s.len(),
    ensures
        p == s.len() ==> utf8_char::<E>(s, p) == Err::<(char, int), (ParseError<E>, int)>(
            (ParseError::Eof, p),
        ),
        p < s.len() ==> ({
            let r = s.subrange(p, s.len() as int);
            &&& utf8_char::<E>(s, p) is Ok <==> valid_leading_and_continuation_bytes_first_codepoint(r)
                && is_scalar_value(decode_first_codepoint(r) as int)
            &&& utf8_char::<E>(s, p) is Ok ==> utf8_char::<E>(s, p) == Ok::<
                (char, int),
                (ParseError<E>, int),
            >(((decode_first_codepoint(r) as char), p + length_of_first_codepoint(r)))
            &&& valid_first_scalar(r) ==> utf8_char::<E>(s, p) == Ok::<
                (char, int),
                (ParseError<E>, int),
            >(((decode_first_scalar(r) as char), p + length_of_first_scalar(r)))
        }),
{
    if p < s.len() {
        let r = s.subrange(p, s.len() as int);
        let b = s[p];
        assert(r[0] == b);
        reveal_with_fuel(continuation, 4);
        assert forall|i: int| 0 <= i < r.len() implies #[trigger] r[i] == s[p + i] by {}
        if valid_leading_and_continuation_bytes_first_codepoint(r) {
            lemma_codepoint::<E>(s, p);
        }
    }
}

/// An escape does not change how the bytes after it are decoded: a body of
/// valid UTF-8 without quotes, backslashes and control characters decodes
/// to the same characters whether or not `\n` comes before it.
pub proof fn law_escape_keeps_utf8<E>(t: Seq<u8>)
    requires
        forall|k: int| 0 <= k < t.len() ==> !ends_plain_run(#[trigger] t[k]),
        valid_utf8(t),
    ensures
        string::<E>(t + seq![QUOTE], 0) == Ok::<(Seq<char>, int), (ParseError<E>, int)>(
            (decode_utf8(t), t.len() as int + 1),
        ),
        string::<E>(seq![BACKSLASH, LOWER_N] + t + seq![QUOTE], 0) == Ok::<
            (Seq<char>, int),
            (ParseError<E>, int),
        >((seq!['\n'] + decode_utf8(t), t.len() as int + 3)),
{
    let plain = t + seq![QUOTE];
    crate::progress::lemma_plain_run_end(plain, 0);
    assert forall|k: int| 0 <= k < t.len() implies !ends_plain_run(#[trigger] plain[k]) by {
        assert(plain[k] == t[k]);
    }
    assert(plain_run_end(plain, 0) == t.len()) by {
        lemma_run_to(plain, 0, t.len() as int);
    }
    assert(plain.subrange(0, t.len() as int) =~= t);

    let esc = seq![BACKSLASH, LOWER_N] + t + seq![QUOTE];
    assert(plain_run_end(esc, 0) == 0);
    assert(esc.subrange(0, 0) =~= Seq::<u8>::empty());
    assert(decode_utf8(Seq::<u8>::empty()) =~= Seq::<char>::empty());
    assert(valid_utf8(Seq::<u8>::empty()));
    reveal_with_fuel(string_tail, 2);
    assert(esc[0] == BACKSLASH && esc[1] == LOWER_N);
    assert((BACKSLASH & 0x7f) as u32 == BACKSLASH as u32) by (bit_vector);
    assert((LOWER_N & 0x7f) as u32 == LOWER_N as u32) by (bit_vector);
    assert(utf8_char::<E>(esc, 0) == Ok::<(char, int), (ParseError<E>, int)>(('\\', 1)));
    assert(utf8_char::<E>(esc, 1) == Ok::<(char, int), (ParseError<E>, int)>(('n', 2)));
    assert forall|k: int| 2 <= k < t.len() as int + 2 implies !ends_plain_run(#[trigger] esc[k]) by {
        assert(esc[k] == t[k - 2]);
    }
    assert(esc.subrange(2, t.len() as int + 2) =~= t);
    assert(esc[t.len() as int + 2] == QUOTE);
    lemma_run_tail::<E>(esc, 2, t.len() as int + 2, seq!['\n']);
    assert(utf8_char::<E>(esc, t.len() as int + 2) == Ok::<(char, int), (ParseError<E>, int)>(
        ('"', t.len() as int + 3),
    ));
}

/// The plain run from `p` reaches `i` when no byte before `i` ends it.
proof fn lemma_run_to(s: Seq<u8>, p: int, i: int)
    requires
        0 <= p <= i < s.len(),
        forall|k: int| p <= k < i ==> !ends_plain_run(#[trigger] s[k]),
        ends_plain_run(s[i]),
    ensures
        plain_run_end(s, p) == i,
    decreases i - p,
{
    if p < i {
        lemma_run_to(s, p + 1, i);
    }
}


/// What the byte after `\` stands for in a two-byte escape of JSON:
/// `\"`, `\\`, `\/`, `\b`, `\f`, `\n`, `\r` and `\t`.
pub open spec fn escaped_byte(b: u8) -> Option<char> {
    if b == 0x22 {
        Some('"')
    } else if b == 0x5c {
        Some('\\')
    } else if b == 0x2f {
        Some('/')
    } else if b == 0x62 {
        Some('\x08')
    } else if b == 0x66 {
        Some('\x0c')
    } else if b == 0x6e {
        Some('\n')
    } else if b == 0x72 {
        Some('\r')
    } else if b == 0x74 {
        Some('\t')
    } else {
        None
    }
}

/// `c` followed by the characters of `rest`, when there are any.
pub open spec fn prepend(c: char, rest: Option<Seq<char>>) -> Option<Seq<char>> {
    match rest {
        Some(cs) => Some(seq![c] + cs),
        None => None,
    }
}

/// The characters that `b` stands for as the body of a JSON string, or
/// `None` if it is no such body.  A body is a sequence of well-formed UTF-8
/// characters other than `"`, `\` and U+0000 to U+001F, of two-byte escapes,
/// and of `\u` escapes with four hexadecimal digits; a `\u` escape of a
/// leading surrogate must be followed by one of a trailing surrogate, and
/// the two stand for one character, while a trailing surrogate may not stand
/// alone.
pub open spec fn body_chars(b: Seq<u8>) -> Option<Seq<char>>
    decreases b.len(),
{
    if b.len() == 0 {
        Some(seq![])
    } else if b[0] == BACKSLASH {
        if b.len() >= 2 && escaped_byte(b[1]) is Some {
            prepend(escaped_byte(b[1])->0, body_chars(b.subrange(2, b.len() as int)))
        } else if b.len() >= 6 && b[1] == LOWER_U && hex_value(b.subrange(2, 6)) is Some {
            let v = hex_value(b.subrange(2, 6))->0;
            if is_scalar_value(v) {
                prepend(v as char, body_chars(b.subrange(6, b.len() as int)))
            } else if 0xd800 <= v <= 0xdbff && b.len() >= 12 && b[6] == BACKSLASH && b[7]
                == LOWER_U && hex_value(b.subrange(8, 12)) is Some && 0xdc00 <= hex_value(
                b.subrange(8, 12),
            )->0 <= 0xdfff {
                let w = hex_value(b.subrange(8, 12))->0;
                prepend(
                    (0x10000 + (v - 0xd800) * 1024 + (w - 0xdc00)) as char,
                    body_chars(b.subrange(12, b.len() as int)),
                )
            } else {
                None
            }
        } else {
            None
        }
    } else if b[0] == QUOTE || b[0] < 0x20 {
        None
    } else if valid_first_scalar(b) {
        prepend(decode_first_scalar(b) as char, body_chars(pop_first_scalar(b)))
    } else {
        None
    }
}

/// Two inputs that agree on the bytes of a well-formed first character have
/// that same first character.
proof fn lemma_first_scalar_same(x: Seq<u8>, y: Seq<u8>)
    requires
        valid_first_scalar(x),
        length_of_first_scalar(x) <= y.len(),
        forall|j: int| 0 <= j < length_of_first_scalar(x) ==> #[trigger] y[j] == x[j],
    ensures
        valid_first_scalar(y),
        decode_first_scalar(y) == decode_first_scalar(x),
        length_of_first_scalar(y) == length_of_first_scalar(x),
{
    let n = length_of_first_scalar(x);
    assert(y[0] == x[0]);
    if n >= 2 {
        assert(y[1] == x[1]);
    }
    if n >= 3 {
        assert(y[2] == x[2]);
    }
    if n >= 4 {
        assert(y[3] == x[3]);
    }
}

/// The bytes of a well-formed character that is neither `"`, `\` nor a
/// control character do not end the plain run of a string, and it decodes
/// to a character that the string reader keeps as it is.
proof fn lemma_plain_scalar(x: Seq<u8>)
    requires
        valid_first_scalar(x),
        !ends_plain_run(x[0]),
    ensures
        forall|j: int| 0 <= j < length_of_first_scalar(x) ==> !ends_plain_run(#[trigger] x[j]),
        0x20 <= decode_first_scalar(x),
        decode_first_scalar(x) != 0x22,
        decode_first_scalar(x) != 0x5c,
{
    let b = x[0];
    if b < 0x80 {
        assert((b & 0x7f) as u32 == b as u32) by (bit_vector)
            requires
                b < 0x80,
        ;
    }
}

/// The plain run from `p` reaches `q` when the bytes in between do not end
/// it.
proof fn lemma_run_skip(s: Seq<u8>, p: int, q: int)
    requires
        0 <= p <= q <= s.len(),
        forall|k: int| p <= k < q ==> !ends_plain_run(#[trigger] s[k]),
    ensures
        plain_run_end(s, p) == plain_run_end(s, q),
    decreases q - p,
{
    if p < q {
        lemma_run_skip(s, p + 1, q);
    }
}

/// In a string whose body is `b`, the plain run is valid UTF-8 and stops at
/// the closing quote or at a backslash.
proof fn lemma_body_run(s: Seq<u8>, p: int, b: Seq<u8>)
    requires
        0 <= p,
        p + b.len() < s.len(),
        forall|j: int| 0 <= j < b.len() ==> #[trigger] s[p + j] == b[j],
        s[p + b.len()] == QUOTE,
        body_chars(b) is Some,
    ensures
        p <= plain_run_end(s, p) <= p + b.len(),
        valid_utf8(s.subrange(p, plain_run_end(s, p))),
        plain_run_end(s, p) == p + b.len() || s[plain_run_end(s, p)] == BACKSLASH,
    decreases b.len(),
{
    if b.len() == 0 || b[0] == BACKSLASH {
        assert(s[p + 0] == b[0] || b.len() == 0);
        assert(s.subrange(p, p) =~= Seq::<u8>::empty());
    } else {
        let n = length_of_first_scalar(b);
        let rest = pop_first_scalar(b);
        lemma_plain_scalar(b);
        assert forall|j: int| 0 <= j < rest.len() implies #[trigger] s[p + n + j] == rest[j] by {
            assert(s[p + (n + j)] == b[n + j]);
        }
        lemma_body_run(s, p + n, rest);
        assert forall|k: int| p <= k < p + n implies !ends_plain_run(#[trigger] s[k]) by {
            assert(s[p + (k - p)] == b[k - p]);
        }
        lemma_run_skip(s, p, p + n);
        let i = plain_run_end(s, p);
        let run = s.subrange(p, i);
        assert forall|j: int| 0 <= j < n implies #[trigger] run[j] == b[j] by {
            assert(s[p + j] == b[j]);
        }
        lemma_first_scalar_same(b, run);
        assert(pop_first_scalar(run) =~= s.subrange(p + n, i));
    }
}

/// Reading a plain run character by character gives what UTF-8 decoding of
/// the run gives.
proof fn lemma_run_tail<E>(s: Seq<u8>, p: int, i: int, acc: Seq<char>)
    requires
        0 <= p <= i < s.len(),
        forall|k: int| p <= k < i ==> !ends_plain_run(#[trigger] s[k]),
        valid_utf8(s.subrange(p, i)),
    ensures
        string_tail::<E>(s, p, acc) == string_tail::<E>(s, i, acc + decode_utf8(s.subrange(p, i))),
    decreases i - p,
{
    let sub = s.subrange(p, i);
    if p == i {
        assert(acc + decode_utf8(sub) =~= acc);
    } else {
        let r = s.subrange(p, s.len() as int);
        law_read_char_standard::<E>(s, p);
        assert forall|j: int| 0 <= j < sub.len() implies #[trigger] r[j] == sub[j] by {}
        lemma_first_scalar_same(sub, r);
        lemma_plain_scalar(sub);
        let cp = decode_first_scalar(sub);
        let n = length_of_first_scalar(sub);
        let c = cp as char;
        vstd::utf8::char_u32_cast(c, c as u32);
        let rest = pop_first_scalar(sub);
        assert(rest =~= s.subrange(p + n, i));
        lemma_run_tail::<E>(s, p + n, i, acc.push(c));
        assert(acc.push(c) + decode_utf8(rest) =~= acc + (seq![c] + decode_utf8(rest)));
    }
}

/// A two-byte escape adds the character it stands for.
proof fn lemma_simple_escape_step<E>(s: Seq<u8>, p: int, acc: Seq<char>)
    requires
        0 <= p,
        p + 2 < s.len(),
        s[p] == BACKSLASH,
        escaped_byte(s[p + 1]) is Some,
    ensures
        string_tail::<E>(s, p, acc) == string_tail::<E>(s, p + 2, acc.push(escaped_byte(s[p + 1])->0)),
{
    let e = s[p + 1];
    assert(utf8_char::<E>(s, p + 1) == Ok::<(char, int), (ParseError<E>, int)>((e as char, p + 2)));
    assert(simple_escape(e as char) == escaped_byte(e));
}

/// The four bytes after `\u` are read as a number when they are hexadecimal
/// digits.
proof fn lemma_hex_escape<E>(s: Seq<u8>, p: int)
    requires
        0 <= p,
        p + 4 <= s.len(),
        hex_value(s.subrange(p, p + 4)) is Some,
    ensures
        escape_hex::<E>(s, p) == Ok::<(int, int), (ParseError<E>, int)>(
            (hex_value(s.subrange(p, p + 4))->0, p + 4),
        ),
{
    let d = s.subrange(p, p + 4);
    lemma_hex_value_some(d);
    assert(hex_digit(d[0]) is Some);
    assert(d[0] == s[p]);
    law_escape_digits::<E>(s, p);
}

/// A `\u` escape of a scalar value adds that character.
proof fn lemma_unicode_step<E>(s: Seq<u8>, p: int, acc: Seq<char>)
    requires
        0 <= p,
        p + 6 < s.len(),
        s[p] == BACKSLASH,
        s[p + 1] == LOWER_U,
        hex_value(s.subrange(p + 2, p + 6)) is Some,
        is_scalar_value(hex_value(s.subrange(p + 2, p + 6))->0),
    ensures
        string_tail::<E>(s, p, acc) == string_tail::<E>(
            s,
            p + 6,
            acc.push((hex_value(s.subrange(p + 2, p + 6))->0) as char),
        ),
{
    assert(utf8_char::<E>(s, p + 1) == Ok::<(char, int), (ParseError<E>, int)>(('u', p + 2)));
    lemma_hex_escape::<E>(s, p + 2);
}

/// A `\u` escape of a leading surrogate followed by one of a trailing
/// surrogate adds the character the pair stands for.
proof fn lemma_pair_step<E>(s: Seq<u8>, p: int, acc: Seq<char>)
    requires
        0 <= p,
        p + 12 < s.len(),
        s[p] == BACKSLASH,
        s[p + 1] == LOWER_U,
        s[p + 6] == BACKSLASH,
        s[p + 7] == LOWER_U,
        hex_value(s.subrange(p + 2, p + 6)) is Some,
        hex_value(s.subrange(p + 8, p + 12)) is Some,
        0xd800 <= hex_value(s.subrange(p + 2, p + 6))->0 <= 0xdbff,
        0xdc00 <= hex_value(s.subrange(p + 8, p + 12))->0 <= 0xdfff,
    ensures
        ({
            let v = hex_value(s.subrange(p + 2, p + 6))->0;
            let w = hex_value(s.subrange(p + 8, p + 12))->0;
            string_tail::<E>(s, p, acc) == string_tail::<E>(
                s,
                p + 12,
                acc.push((0x10000 + (v - 0xd800) * 1024 + (w - 0xdc00)) as char),
            )
        }),
{
    assert(utf8_char::<E>(s, p + 1) == Ok::<(char, int), (ParseError<E>, int)>(('u', p + 2)));
    lemma_hex_escape::<E>(s, p + 2);
    lemma_hex_escape::<E>(s, p + 8);
    assert(s.subrange(p + 6, p + 8) =~= seq![BACKSLASH, LOWER_U]);
}

/// A well-formed plain character adds itself.
proof fn lemma_plain_step<E>(s: Seq<u8>, p: int, acc: Seq<char>)
    requires
        0 <= p < s.len(),
        valid_first_scalar(s.subrange(p, s.len() as int)),
        !ends_plain_run(s[p]),
    ensures
        ({
            let r = s.subrange(p, s.len() as int);
            string_tail::<E>(s, p, acc) == string_tail::<E>(
                s,
                p + length_of_first_scalar(r),
                acc.push(decode_first_scalar(r) as char),
            )
        }),
{
    let r = s.subrange(p, s.len() as int);
    law_read_char_standard::<E>(s, p);
    assert(r[0] == s[p]);
    lemma_plain_scalar(r);
    let c = decode_first_scalar(r) as char;
    vstd::utf8::char_u32_cast(c, c as u32);
}

/// The first piece of a body, read from `p` on: it has `k` bytes and stands
/// for the character `c`.
proof fn lemma_first_piece<E>(s: Seq<u8>, p: int, b: Seq<u8>, acc: Seq<char>) -> (kc: (int, char))
    requires
        0 <= p,
        p + b.len() < s.len(),
        forall|j: int| 0 <= j < b.len() ==> #[trigger] s[p + j] == b[j],
        b.len() > 0,
        body_chars(b) is Some,
    ensures
        1 <= kc.0 <= b.len(),
        body_chars(b) == prepend(kc.1, body_chars(b.subrange(kc.0, b.len() as int))),
        string_tail::<E>(s, p, acc) == string_tail::<E>(s, p + kc.0, acc.push(kc.1)),
{
    if b[0] == BACKSLASH {
        assert(s[p + 0] == b[0] && s[p + 1] == b[1]);
        if escaped_byte(b[1]) is Some {
            lemma_simple_escape_step::<E>(s, p, acc);
            (2int, escaped_byte(b[1])->0)
        } else {
            assert(b.len() >= 6);
            assert forall|j: int| 0 <= j < 4 implies s.subrange(p + 2, p + 6)[j] == b.subrange(
                2,
                6,
            )[j] by {
                assert(s[p + (2 + j)] == b[2 + j]);
            }
            assert(s.subrange(p + 2, p + 6) =~= b.subrange(2, 6));
            let v = hex_value(b.subrange(2, 6))->0;
            if is_scalar_value(v) {
                lemma_unicode_step::<E>(s, p, acc);
                (6int, v as char)
            } else {
                assert(b.len() >= 12);
                assert(s[p + 6] == b[6] && s[p + 7] == b[7]);
                assert forall|j: int| 0 <= j < 4 implies s.subrange(p + 8, p + 12)[j]
                    == b.subrange(8, 12)[j] by {
                    assert(s[p + (8 + j)] == b[8 + j]);
                }
                assert(s.subrange(p + 8, p + 12) =~= b.subrange(8, 12));
                let w = hex_value(b.subrange(8, 12))->0;
                lemma_pair_step::<E>(s, p, acc);
                (12int, (0x10000 + (v - 0xd800) * 1024 + (w - 0xdc00)) as char)
            }
        }
    } else {
        let r = s.subrange(p, s.len() as int);
        assert forall|j: int| 0 <= j < length_of_first_scalar(b) implies #[trigger] r[j]
            == b[j] by {
            assert(s[p + j] == b[j]);
        }
        lemma_first_scalar_same(b, r);
        assert(s[p + 0] == b[0]);
        lemma_plain_step::<E>(s, p, acc);
        (length_of_first_scalar(b), decode_first_scalar(b) as char)
    }
}

/// Reading the body `b` of a string from `p` on, up to its closing quote,
/// gives the characters that `b` stands for.
proof fn lemma_tail_body<E>(s: Seq<u8>, p: int, b: Seq<u8>, acc: Seq<char>)
    requires
        0 <= p,
        p + b.len() < s.len(),
        forall|j: int| 0 <= j < b.len() ==> #[trigger] s[p + j] == b[j],
        s[p + b.len()] == QUOTE,
        body_chars(b) is Some,
    ensures
        string_tail::<E>(s, p, acc) == Ok::<(Seq<char>, int), (ParseError<E>, int)>(
            (acc + body_chars(b)->0, p + b.len() + 1),
        ),
    decreases b.len(),
{
    if b.len() == 0 {
        assert(acc + body_chars(b)->0 =~= acc);
        assert(utf8_char::<E>(s, p) == Ok::<(char, int), (ParseError<E>, int)>(('"', p + 1)));
    } else {
        let (k, c) = lemma_first_piece::<E>(s, p, b, acc);
        let rest = b.subrange(k, b.len() as int);
        assert forall|j: int| 0 <= j < rest.len() implies #[trigger] s[p + k + j] == rest[j] by {
            assert(s[p + (k + j)] == b[k + j]);
        }
        lemma_tail_body::<E>(s, p + k, rest, acc.push(c));
        assert(acc.push(c) + body_chars(rest)->0 =~= acc + (seq![c] + body_chars(rest)->0));
    }
}

/// Every JSON string body is read as JSON says: when `b` is the body of a
/// string, a string made of `b` and a closing quote, whatever follows it,
/// reads as the characters that `b` stands for, and ends just after the
/// quote.
pub proof fn law_string_body<E>(b: Seq<u8>, rest: Seq<u8>)
    requires
        body_chars(b) is Some,
    ensures
        string::<E>(b + seq![QUOTE] + rest, 0) == Ok::<(Seq<char>, int), (ParseError<E>, int)>(
            (body_chars(b)->0, b.len() as int + 1),
        ),
{
    let s = b + seq![QUOTE] + rest;
    assert forall|j: int| 0 <= j < b.len() implies #[trigger] s[0 + j] == b[j] by {}
    assert(s[b.len() as int] == QUOTE);
    lemma_body_run(s, 0, b);
    let i = plain_run_end(s, 0);
    crate::progress::lemma_plain_run_end(s, 0);
    lemma_run_tail::<E>(s, 0, i, seq![]);
    lemma_tail_body::<E>(s, 0, b, seq![]);
    assert(Seq::<char>::empty() + decode_utf8(s.subrange(0, i)) =~= decode_utf8(
        s.subrange(0, i),
    ));
    assert(Seq::<char>::empty() + body_chars(b)->0 =~= body_chars(b)->0);
}


/// Whether an over-long UTF-8 form starts at `k` in `u`: a leading byte
/// `C0` or `C1`, or `E0` or `F0` followed by a byte that makes the form
/// longer than the character needs.
pub open spec fn overlong_at(u: Seq<u8>, k: int) -> bool {
    ||| u[k] == 0xc0
    ||| u[k] == 0xc1
    ||| k + 1 < u.len() && u[k] == 0xe0 && u[k + 1] < 0xa0
    ||| k + 1 < u.len() && u[k] == 0xf0 && u[k + 1] < 0x90
}

/// Whether an over-long UTF-8 form starts anywhere in `u`.
pub open spec fn has_overlong(u: Seq<u8>) -> bool {
    exists|k: int| 0 <= k < u.len() && #[trigger] overlong_at(u, k)
}

/// Whether the bytes `\u+` stand at `k` in `u`.
pub open spec fn plus_escape_at(u: Seq<u8>, k: int) -> bool {
    0 <= k && k + 2 < u.len() && u[k] == BACKSLASH && u[k + 1] == LOWER_U && u[k + 2] == PLUS
}

/// Whether the bytes `\u+` stand anywhere in `u`.
pub open spec fn has_plus_escape(u: Seq<u8>) -> bool {
    exists|k: int| #[trigger] plus_escape_at(u, k)
}

/// A character whose leading byte is not one of an over-long form is
/// well-formed UTF-8 when its bit patterns are right and it is a scalar.
proof fn lemma_shortest(r: Seq<u8>)
    requires
        valid_leading_and_continuation_bytes_first_codepoint(r),
        is_scalar_value(decode_first_codepoint(r) as int),
        r[0] != 0xc0 && r[0] != 0xc1,
        r[0] == 0xe0 ==> r[1] >= 0xa0,
        r[0] == 0xf0 ==> r[1] >= 0x90,
    ensures
        valid_first_scalar(r),
{
    let b = r[0];
    if 0xc0 <= b <= 0xdf {
        let c = r[1];
        assert(vstd::utf8::codepoint_width_2(b, c) >= 0x80) by (bit_vector)
            requires
                0xc2 <= b <= 0xdf,
                0x80 <= c <= 0xbf,
        ;
    } else if 0xe0 <= b <= 0xef {
        let c = r[1];
        let e = r[2];
        assert(vstd::utf8::codepoint_width_3(b, c, e) >= 0x800) by (bit_vector)
            requires
                0xe0 <= b <= 0xef,
                0x80 <= c <= 0xbf,
                0x80 <= e <= 0xbf,
                b == 0xe0 ==> c >= 0xa0,
        ;
    } else if 0xf0 <= b <= 0xf7 {
        let c = r[1];
        let e = r[2];
        let f = r[3];
        assert(vstd::utf8::codepoint_width_4(b, c, e, f) >= 0x10000) by (bit_vector)
            requires
                0xf0 <= b <= 0xf7,
                0x80 <= c <= 0xbf,
                0x80 <= e <= 0xbf,
                0x80 <= f <= 0xbf,
                b == 0xf0 ==> c >= 0x90,
        ;
    }
}

/// A character read at `p`, inside `u = s[p..hi]`, that does not start an
/// over-long form is a well-formed UTF-8 character; one below `0x80` is the
/// byte itself.
proof fn lemma_char_shortest<E>(s: Seq<u8>, p: int, hi: int)
    requires
        0 <= p < hi <= s.len(),
        utf8_char::<E>(s, p) matches Ok((_, q)) && q <= hi,
        !overlong_at(s.subrange(p, hi), 0),
    ensures
        ({
            let r = s.subrange(p, s.len() as int);
            &&& valid_first_scalar(r)
            &&& utf8_char::<E>(s, p) == Ok::<(char, int), (ParseError<E>, int)>(
                ((decode_first_scalar(r) as char), p + length_of_first_scalar(r)),
            )
            &&& decode_first_scalar(r) < 0x80 ==> length_of_first_scalar(r) == 1 && s[p] as u32
                == decode_first_scalar(r)
            &&& decode_first_scalar(r) >= 0x80 ==> s[p] >= 0x80
            &&& is_scalar_value(decode_first_scalar(r) as int)
            &&& (decode_first_scalar(r) as char) as u32 == decode_first_scalar(r)
        }),
{
    let r = s.subrange(p, s.len() as int);
    let u = s.subrange(p, hi);
    law_read_char_standard::<E>(s, p);
    assert(r[0] == s[p] && u[0] == s[p]);
    if s[p] >= 0xc0 {
        assert(r[1] == s[p + 1] && u[1] == s[p + 1]);
    }
    lemma_shortest(r);
    let b = s[p];
    if b < 0x80 {
        assert((b & 0x7f) as u32 == b as u32) by (bit_vector)
            requires
                b < 0x80,
        ;
    }
}

/// Bad patterns found in a later part of a range are found in the range.
proof fn lemma_bad_shift(s: Seq<u8>, p: int, p1: int, q: int)
    requires
        0 <= p <= p1 <= q <= s.len(),
    ensures
        has_overlong(s.subrange(p1, q)) ==> has_overlong(s.subrange(p, q)),
        has_plus_escape(s.subrange(p1, q)) ==> has_plus_escape(s.subrange(p, q)),
{
    let u = s.subrange(p, q);
    let v = s.subrange(p1, q);
    if has_overlong(v) {
        let k = choose|k: int| 0 <= k < v.len() && #[trigger] overlong_at(v, k);
        assert(u[k + p1 - p] == v[k]);
        if k + 1 < v.len() {
            assert(u[k + p1 - p + 1] == v[k + 1]);
        }
        assert(overlong_at(u, k + p1 - p));
    }
    if has_plus_escape(v) {
        let k = choose|k: int| #[trigger] plus_escape_at(v, k);
        assert(u[k + p1 - p] == v[k] && u[k + p1 - p + 1] == v[k + 1] && u[k + p1 - p + 2] == v[k
            + 2]);
        assert(plus_escape_at(u, k + p1 - p));
    }
}

/// A plain run of well-formed characters at the front of a body stands for
/// what UTF-8 decoding gives.
proof fn lemma_plain_body(run: Seq<u8>, x: Seq<u8>)
    requires
        valid_utf8(run),
        forall|k: int| 0 <= k < run.len() ==> !ends_plain_run(#[trigger] run[k]),
    ensures
        body_chars(run + x) == match body_chars(x) {
            Some(cs) => Some(decode_utf8(run) + cs),
            None => None::<Seq<char>>,
        },
    decreases run.len(),
{
    if run.len() == 0 {
        assert(run + x =~= x);
        if let Some(cs) = body_chars(x) {
            assert(decode_utf8(run) + cs =~= cs);
        }
    } else {
        let b = run + x;
        assert forall|j: int| 0 <= j < length_of_first_scalar(run) implies #[trigger] b[j]
            == run[j] by {}
        lemma_first_scalar_same(run, b);
        assert(b[0] == run[0]);
        let rest = pop_first_scalar(run);
        assert(pop_first_scalar(b) =~= rest + x);
        assert forall|k: int| 0 <= k < rest.len() implies !ends_plain_run(#[trigger] rest[k]) by {
            assert(rest[k] == run[k + length_of_first_scalar(run)]);
        }
        lemma_plain_body(rest, x);
        if let Some(cs) = body_chars(x) {
            let c = decode_first_scalar(run) as char;
            assert(seq![c] + (decode_utf8(rest) + cs) =~= (seq![c] + decode_utf8(rest)) + cs);
        }
    }
}

/// Whether the bytes from `p` to `q` are a body of JSON and its closing
/// quote, and `cs` is `acc` followed by the characters of the body.
pub open spec fn closes_body(s: Seq<u8>, p: int, q: int, acc: Seq<char>, cs: Seq<char>) -> bool {
    &&& p < q
    &&& s[q - 1] == QUOTE
    &&& match body_chars(s.subrange(p, q - 1)) {
        Some(b) => cs == acc + b,
        None => false,
    }
}

/// One step of [`string_tail`] that succeeds, taken apart.
proof fn lemma_tail_unfold<E>(s: Seq<u8>, p: int, acc: Seq<char>)
    requires
        0 <= p <= s.len(),
        string_tail::<E>(s, p, acc) is Ok,
    ensures
        ({
            let (cs, q) = string_tail::<E>(s, p, acc)->Ok_0;
            let (c, p1) = utf8_char::<E>(s, p)->Ok_0;
            &&& utf8_char::<E>(s, p) is Ok
            &&& p < p1 <= q <= s.len()
            &&& c == '"' ==> q == p1 && cs == acc
            &&& c == '\\' ==> {
                let (esc, r) = utf8_char::<E>(s, p1)->Ok_0;
                &&& utf8_char::<E>(s, p1) is Ok
                &&& p1 < r < q
                &&& esc == 'u' ==> {
                    let (ch, t) = unicode_escape::<E>(s, r)->Ok_0;
                    &&& unicode_escape::<E>(s, r) is Ok
                    &&& r < t < q
                    &&& string_tail::<E>(s, t, acc.push(ch)) == Ok::<
                        (Seq<char>, int),
                        (ParseError<E>, int),
                    >((cs, q))
                }
                &&& esc != 'u' ==> {
                    &&& simple_escape(esc) is Some
                    &&& string_tail::<E>(s, r, acc.push(simple_escape(esc)->0)) == Ok::<
                        (Seq<char>, int),
                        (ParseError<E>, int),
                    >((cs, q))
                }
            }
            &&& c != '"' && c != '\\' ==> {
                &&& (c as u32) >= 0x20
                &&& p1 < q
                &&& string_tail::<E>(s, p1, acc.push(c)) == Ok::<
                    (Seq<char>, int),
                    (ParseError<E>, int),
                >((cs, q))
            }
        }),
{
    crate::progress::lemma_utf8_char::<E>(s, p);
    let (c, p1) = utf8_char::<E>(s, p)->Ok_0;
    if c == '\\' {
        crate::progress::lemma_utf8_char::<E>(s, p1);
        let (esc, r) = utf8_char::<E>(s, p1)->Ok_0;
        if esc == 'u' {
            crate::progress::lemma_unicode_escape::<E>(s, r);
            let (ch, t) = unicode_escape::<E>(s, r)->Ok_0;
            crate::progress::lemma_string_tail::<E>(s, t, acc.push(ch));
        } else {
            crate::progress::lemma_string_tail::<E>(s, r, acc.push(simple_escape(esc)->0));
        }
    } else if c != '"' {
        crate::progress::lemma_string_tail::<E>(s, p1, acc.push(c));
    }
}

/// What the string reader accepts from `p` on, after a backslash, is a
/// body of JSON, unless an over-long form or `\u+` stands in it.
#[verifier::rlimit(60)]
proof fn lemma_tail_only_bodies<E>(s: Seq<u8>, p: int, acc: Seq<char>)
    requires
        0 <= p <= s.len(),
    ensures
        string_tail::<E>(s, p, acc) matches Ok((cs, q)) ==> {
            ||| has_overlong(s.subrange(p, q))
            ||| has_plus_escape(s.subrange(p, q))
            ||| closes_body(s, p, q, acc, cs)
        },
    decreases s.len() - p,
{
    if let Ok((cs, q)) = string_tail::<E>(s, p, acc) {
        lemma_tail_unfold::<E>(s, p, acc);
        let u = s.subrange(p, q);
        let (c, p1) = utf8_char::<E>(s, p)->Ok_0;
        if overlong_at(u, 0) {
            assert(has_overlong(u));
            return;
        }
        lemma_char_shortest::<E>(s, p, q);
        if c == '"' {
            assert(s.subrange(p, q - 1) =~= Seq::<u8>::empty());
            assert(acc + Seq::<char>::empty() =~= acc);
            return;
        }
        if c == '\\' {
            let (esc, r) = utf8_char::<E>(s, p1)->Ok_0;
            assert(p1 == p + 1);
            assert(u[1] == s[p + 1]);
            if overlong_at(u, 1) {
                assert(has_overlong(u));
                return;
            }
            let v = s.subrange(p1, q);
            assert(v[0] == u[1]);
            if v.len() > 1 {
                assert(v[1] == u[2]);
            }
            lemma_char_shortest::<E>(s, p1, q);
            if esc == 'u' {
                assert(r == p + 2);
                assert(u[2] == s[p + 2]);
                if s[p + 2] == PLUS {
                    assert(plus_escape_at(u, 0));
                    return;
                }
                lemma_unicode_back::<E>(s, p, q, acc);
            } else {
                let ch = simple_escape(esc)->0;
                assert(r == p + 2);
                lemma_tail_only_bodies::<E>(s, r, acc.push(ch));
                lemma_bad_shift(s, p, r, q);
                assert(escaped_byte(s[p + 1]) == Some(ch));
                lemma_body_step(s, p, q, 2, ch);
                if let Some(b) = body_chars(s.subrange(r, q - 1)) {
                    assert(acc.push(ch) + b =~= acc + (seq![ch] + b));
                }
            }
        } else {
            lemma_tail_only_bodies::<E>(s, p1, acc.push(c));
            lemma_bad_shift(s, p, p1, q);
            let rr = s.subrange(p, s.len() as int);
            let b = s.subrange(p, q - 1);
            assert forall|j: int| 0 <= j < length_of_first_scalar(rr) implies #[trigger] b[j]
                == rr[j] by {}
            lemma_first_scalar_same(rr, b);
            assert(b[0] == s[p]);
            assert(pop_first_scalar(b) =~= s.subrange(p1, q - 1));
            if let Some(bb) = body_chars(s.subrange(p1, q - 1)) {
                assert(acc.push(c) + bb =~= acc + (seq![c] + bb));
            }
        }
    }
}

/// The first `k` bytes of the body from `p` on stand for `ch` when they are
/// the two-byte escape of it.
proof fn lemma_body_step(s: Seq<u8>, p: int, q: int, k: int, ch: char)
    requires
        0 <= p,
        p + k < q <= s.len(),
        k == 2,
        s[p] == BACKSLASH,
        escaped_byte(s[p + 1]) == Some(ch),
    ensures
        body_chars(s.subrange(p, q - 1)) == prepend(ch, body_chars(s.subrange(p + k, q - 1))),
{
    let b = s.subrange(p, q - 1);
    assert(b[0] == s[p] && b[1] == s[p + 1]);
    assert(b.subrange(2, b.len() as int) =~= s.subrange(p + 2, q - 1));
}

/// The `\u` case of [`lemma_tail_only_bodies`].
#[verifier::rlimit(60)]
proof fn lemma_unicode_back<E>(s: Seq<u8>, p: int, q: int, acc: Seq<char>)
    requires
        0 <= p,
        p + 2 <= s.len(),
        s[p] == BACKSLASH,
        s[p + 1] == LOWER_U,
        s[p + 2] != PLUS || p + 2 >= s.len(),
        string_tail::<E>(s, p, acc) matches Ok((_, qq)) && qq == q,
    ensures
        string_tail::<E>(s, p, acc) matches Ok((cs, q)) ==> {
            ||| has_overlong(s.subrange(p, q))
            ||| has_plus_escape(s.subrange(p, q))
            ||| closes_body(s, p, q, acc, cs)
        },
    decreases s.len() - p, 0int,
{
    assert(utf8_char::<E>(s, p) == Ok::<(char, int), (ParseError<E>, int)>(('\\', p + 1)));
    assert(utf8_char::<E>(s, p + 1) == Ok::<(char, int), (ParseError<E>, int)>(('u', p + 2)));
    crate::progress::lemma_unicode_escape::<E>(s, p + 2);
    let (ch, t) = unicode_escape::<E>(s, p + 2)->Ok_0;
    crate::progress::lemma_string_tail::<E>(s, t, acc.push(ch));
    let (cs, _) = string_tail::<E>(s, p, acc)->Ok_0;
    let u = s.subrange(p, q);
    let b = s.subrange(p, q - 1);
    let d = s.subrange(p + 2, p + 6);
    assert(escape_number(d) == hex_value(d));
    let v = hex_value(d)->0;
    assert(b[0] == s[p] && b[1] == s[p + 1]);
    assert(b.subrange(2, 6) =~= d);
    if is_scalar_value(v) {
        assert(t == p + 6);
        lemma_tail_only_bodies::<E>(s, t, acc.push(ch));
        lemma_bad_shift(s, p, t, q);
        assert(b.subrange(6, b.len() as int) =~= s.subrange(p + 6, q - 1));
        if let Some(bb) = body_chars(s.subrange(p + 6, q - 1)) {
            assert(acc.push(ch) + bb =~= acc + (seq![ch] + bb));
        }
    } else {
        assert(t == p + 12);
        assert(u[8] == s[p + 8] && u[6] == s[p + 6] && u[7] == s[p + 7]);
        if s[p + 8] == PLUS {
            assert(s.subrange(p + 6, p + 8) =~= seq![BACKSLASH, LOWER_U]);
            assert(s[p + 6] == BACKSLASH && s[p + 7] == LOWER_U);
            assert(plus_escape_at(u, 6));
            return;
        }
        let e = s.subrange(p + 8, p + 12);
        assert(escape_number(e) == hex_value(e));
        assert(s.subrange(p + 6, p + 8) =~= seq![BACKSLASH, LOWER_U]);
        assert(b[6] == s[p + 6] && b[7] == s[p + 7]);
        assert(b.subrange(8, 12) =~= e);
        lemma_tail_only_bodies::<E>(s, t, acc.push(ch));
        lemma_bad_shift(s, p, t, q);
        assert(b.subrange(12, b.len() as int) =~= s.subrange(p + 12, q - 1));
        if let Some(bb) = body_chars(s.subrange(p + 12, q - 1)) {
            assert(acc.push(ch) + bb =~= acc + (seq![ch] + bb));
        }
    }
}

/// A string that the reader accepts is a body of JSON closed by a quote,
/// unless what it read holds an over-long UTF-8 form or the bytes `\u+`:
/// those two are the only inputs it accepts beyond JSON.
pub proof fn law_string_only_bodies<E>(s: Seq<u8>)
    ensures
        string::<E>(s, 0) matches Ok((cs, q)) ==> {
            ||| has_overlong(s.subrange(0, q))
            ||| has_plus_escape(s.subrange(0, q))
            ||| 0 < q && s[q - 1] == QUOTE && body_chars(s.subrange(0, q - 1)) == Some(cs)
        },
{
    if let Ok((cs, q)) = string::<E>(s, 0) {
        crate::progress::lemma_plain_run_end(s, 0);
        let i = plain_run_end(s, 0);
        let run = s.subrange(0, i);
        assert forall|k: int| 0 <= k < run.len() implies !ends_plain_run(#[trigger] run[k]) by {}
        if s[i] == QUOTE {
            lemma_plain_body(run, Seq::<u8>::empty());
            assert(run + Seq::<u8>::empty() =~= run);
            assert(decode_utf8(run) + Seq::<char>::empty() =~= decode_utf8(run));
        } else {
            let acc = decode_utf8(run);
            crate::progress::lemma_string_tail::<E>(s, i, acc);
            lemma_tail_only_bodies::<E>(s, i, acc);
            lemma_bad_shift(s, 0, i, q);
            let tail = s.subrange(i, q - 1);
            assert(s.subrange(0, q - 1) =~= run + tail);
            lemma_plain_body(run, tail);
        }
    }
}
} // verus!
