//! The tokens of JSON, stated byte by byte: hexadecimal digits, whitespace
//! between tokens, literals and the first byte of a number, and what the
//! grammar does with each of them wherever it stands.
use vstd::prelude::*;

use crate::error::ParseError;
use crate::grammar::{
    array_open, array_sep, escape_hex, hex_digit, number, object_key, object_open, object_sep,
    skip_ws, string, value, value_head, Head, Sep, MINUS,
};
use crate::value::JsonModel;

verus! {

/// The value of each of the 22 hexadecimal digits `0`-`9`, `a`-`f` and
/// `A`-`F`; `None` for every other byte.
pub open spec fn hex_table(b: u8) -> Option<int> {
    match b {
        0x30u8 => Some(0),
        0x31u8 => Some(1),
        0x32u8 => Some(2),
        0x33u8 => Some(3),
        0x34u8 => Some(4),
        0x35u8 => Some(5),
        0x36u8 => Some(6),
        0x37u8 => Some(7),
        0x38u8 => Some(8),
        0x39u8 => Some(9),
        0x61u8 => Some(10),
        0x62u8 => Some(11),
        0x63u8 => Some(12),
        0x64u8 => Some(13),
        0x65u8 => Some(14),
        0x66u8 => Some(15),
        0x41u8 => Some(10),
        0x42u8 => Some(11),
        0x43u8 => Some(12),
        0x44u8 => Some(13),
        0x45u8 => Some(14),
        0x46u8 => Some(15),
        _ => None,
    }
}

/// The four whitespace bytes of JSON: space, tab, line feed, carriage
/// return.
pub open spec fn json_ws(b: u8) -> bool {
    b == 0x20 || b == 0x09 || b == 0x0a || b == 0x0d
}

/// Whether the bytes of `s` from `a` up to `b` are all whitespace.
pub open spec fn ws_between(s: Seq<u8>, a: int, b: int) -> bool {
    forall|k: int| a <= k < b ==> json_ws(#[trigger] s[k])
}

/// A hexadecimal digit has the value the table gives it, in either case,
/// and no other byte is one.
pub proof fn law_hex_digits(b: u8)
    ensures
        hex_digit(b) == hex_table(b),
{
}

/// A `\u` escape with four hexadecimal digits, in either case, stands for
/// the number they write in base 16.
pub proof fn law_unicode_escape_value<E>(s: Seq<u8>, p: int)
    requires
        0 <= p,
        p + 4 <= s.len(),
        forall|i: int| 0 <= i < 4 ==> #[trigger] hex_table(s[p + i]) is Some,
    ensures
        escape_hex::<E>(s, p) == Ok::<(int, int), (ParseError<E>, int)>(
            (
                ((hex_table(s[p])->0 * 16 + hex_table(s[p + 1])->0) * 16 + hex_table(s[p + 2])->0)
                    * 16 + hex_table(s[p + 3])->0,
                p + 4,
            ),
        ),
{
    let d = s.subrange(p, p + 4);
    assert(hex_table(s[p + 0]) is Some);
    assert(hex_table(s[p + 1]) is Some);
    assert(hex_table(s[p + 2]) is Some);
    assert(hex_table(s[p + 3]) is Some);
    assert(d[0] == s[p] && d[1] == s[p + 1] && d[2] == s[p + 2] && d[3] == s[p + 3]);
    assert(d.drop_last() =~= seq![d[0], d[1], d[2]]);
    assert(d.drop_last().drop_last() =~= seq![d[0], d[1]]);
    assert(d.drop_last().drop_last().drop_last() =~= seq![d[0]]);
    assert(d.drop_last().drop_last().drop_last().drop_last() =~= Seq::<u8>::empty());
    reveal_with_fuel(crate::grammar::hex_value, 5);
    crate::standard::law_escape_digits::<E>(s, p);
    assert(crate::standard::all_hex(d));
}

proof fn lemma_skip_ws_over(s: Seq<u8>, a: int, b: int)
    requires
        0 <= a <= b <= s.len(),
        ws_between(s, a, b),
    ensures
        skip_ws(s, a) == skip_ws(s, b),
    decreases b - a,
{
    if a < b {
        lemma_skip_ws_over(s, a + 1, b);
    }
}

/// Whitespace after the opening brace of an object changes nothing: the
/// object opens at the first key or closes at the brace as if the
/// whitespace were not there.
pub proof fn law_object_open_ws<E>(s: Seq<u8>, p: int, k: int)
    requires
        0 <= p <= p + k <= s.len(),
        ws_between(s, p, p + k),
    ensures
        object_open::<E>(s, p) == object_open::<E>(s, p + k),
{
    lemma_skip_ws_over(s, p, p + k);
}

/// Whitespace after the opening bracket of an array changes nothing.
pub proof fn law_array_open_ws<E>(s: Seq<u8>, p: int, k: int)
    requires
        0 <= p <= p + k <= s.len(),
        ws_between(s, p, p + k),
    ensures
        array_open::<E>(s, p) == array_open::<E>(s, p + k),
{
    lemma_skip_ws_over(s, p, p + k);
}

/// After the comma between two items of an array, the whole run of
/// whitespace is skipped: the next item starts at the first byte after it.
pub proof fn law_array_comma_ws<E>(s: Seq<u8>, p: int, k: int)
    requires
        0 <= p,
        0 <= k,
        p + 1 + k <= s.len(),
        s[p] == 0x2c,
        ws_between(s, p + 1, p + 1 + k),
        p + 1 + k == s.len() || !json_ws(s[p + 1 + k]),
    ensures
        array_sep::<E>(s, p) == Sep::<E>::Next(p + 1 + k),
{
    lemma_skip_ws_over(s, p + 1, p + 1 + k);
}

/// Whitespace before an item separator, and after the comma between two
/// members of an object, changes nothing: the separator is found, and the
/// next key is read, as if the whitespace were not there.
pub proof fn law_separator_ws<E>(s: Seq<u8>, p: int, k: int)
    requires
        0 <= p <= p + k <= s.len(),
        ws_between(s, p, p + k),
    ensures
        array_sep::<E>(s, p) == array_sep::<E>(s, p + k),
        object_sep::<E>(s, p) == object_sep::<E>(s, p + k),
{
    lemma_skip_ws_over(s, p, p + k);
}

/// After the comma between two members of an object, the whole run of
/// whitespace is skipped and the next key is read from the quote after it.
pub proof fn law_object_comma_ws<E>(s: Seq<u8>, p: int, k: int)
    requires
        0 <= p,
        0 <= k,
        p + 1 + k < s.len(),
        s[p] == 0x2c,
        ws_between(s, p + 1, p + 1 + k),
        s[p + 1 + k] == 0x22,
    ensures
        object_sep::<E>(s, p) == match object_key::<E>(s, p + 2 + k) {
            Ok((key, r)) => Sep::<E>::NextKey(key, r),
            Err((e, r)) => Sep::<E>::Fail(e, r),
        },
{
    lemma_skip_ws_over(s, p + 1, p + 1 + k);
}

/// Whitespace around the colon of a member is skipped: after a key that
/// ends at `q`, a run of whitespace, a colon and another run of whitespace,
/// the member's value starts at the first byte after them.
pub proof fn law_colon_ws<E>(s: Seq<u8>, p: int, j: int, k: int)
    requires
        0 <= p <= s.len(),
        string::<E>(s, p) is Ok,
        0 <= j,
        0 <= k,
        ({
            let q = string::<E>(s, p)->Ok_0.1;
            &&& q + j + 1 + k <= s.len()
            &&& ws_between(s, q, q + j)
            &&& s[q + j] == 0x3a
            &&& ws_between(s, q + j + 1, q + j + 1 + k)
            &&& (q + j + 1 + k == s.len() || !json_ws(s[q + j + 1 + k]))
        }),
    ensures
        object_key::<E>(s, p) == Ok::<(Seq<char>, int), (ParseError<E>, int)>(
            (string::<E>(s, p)->Ok_0.0, string::<E>(s, p)->Ok_0.1 + j + 1 + k),
        ),
{
    let q = string::<E>(s, p)->Ok_0.1;
    crate::progress::lemma_string::<E>(s, p);
    lemma_skip_ws_over(s, q, q + j);
    lemma_skip_ws_over(s, q + j + 1, q + j + 1 + k);
}

/// The literals `null`, `true` and `false` have the same value wherever
/// they stand, at any depth and under any limit.
pub proof fn law_literals<E>(s: Seq<u8>, p: int, depth: nat, limit: Option<usize>)
    requires
        0 <= p,
    ensures
        p + 4 <= s.len() && s.subrange(p, p + 4) == seq![0x6eu8, 0x75u8, 0x6cu8, 0x6cu8]
            ==> value::<E>(s, p, depth, limit) == Ok::<(JsonModel, int), (ParseError<E>, int)>(
            (JsonModel::Null, p + 4),
        ),
        p + 4 <= s.len() && s.subrange(p, p + 4) == seq![0x74u8, 0x72u8, 0x75u8, 0x65u8]
            ==> value::<E>(s, p, depth, limit) == Ok::<(JsonModel, int), (ParseError<E>, int)>(
            (JsonModel::Bool(true), p + 4),
        ),
        p + 5 <= s.len() && s.subrange(p, p + 5) == seq![0x66u8, 0x61u8, 0x6cu8, 0x73u8, 0x65u8]
            ==> value::<E>(s, p, depth, limit) == Ok::<(JsonModel, int), (ParseError<E>, int)>(
            (JsonModel::Bool(false), p + 5),
        ),
{
    if p + 4 <= s.len() {
        let w = s.subrange(p, p + 4);
        if w == seq![0x6eu8, 0x75u8, 0x6cu8, 0x6cu8] {
            assert(s[p] == w[0]);
            assert(s.subrange(p + 1, p + 4) =~= seq![0x75u8, 0x6cu8, 0x6cu8]);
        }
        if w == seq![0x74u8, 0x72u8, 0x75u8, 0x65u8] {
            assert(s[p] == w[0]);
            assert(s.subrange(p + 1, p + 4) =~= seq![0x72u8, 0x75u8, 0x65u8]);
        }
    }
    if p + 5 <= s.len() {
        let w = s.subrange(p, p + 5);
        if w == seq![0x66u8, 0x61u8, 0x6cu8, 0x73u8, 0x65u8] {
            assert(s[p] == w[0]);
            assert(s.subrange(p + 1, p + 5) =~= seq![0x61u8, 0x6cu8, 0x73u8, 0x65u8]);
        }
    }
}

/// A value that starts with `-` or any decimal digit `0`-`9` is read as a
/// number, at any depth and under any limit.
pub proof fn law_number_dispatch<E>(s: Seq<u8>, p: int, depth: nat, limit: Option<usize>)
    requires
        0 <= p < s.len(),
        s[p] == MINUS || 0x30 <= s[p] <= 0x39,
    ensures
        value_head::<E>(s, p, depth, limit) == match number::<E>(s, p) {
            Ok(((text, is_float), q)) => Head::<E>::Complete(JsonModel::Number(text, is_float), q),
            Err((e, q)) => Head::<E>::Fail(e, q),
        },
{
}

} // verus!
