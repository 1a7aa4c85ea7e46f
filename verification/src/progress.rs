//! Every successful step of the grammar consumes input and stays inside it.
use vstd::prelude::*;

use crate::grammar::{
    advances, array_items, array_rest, array_sep, continuation, ends_plain_run, integer_part,
    fraction_part, is_digit, is_ws, number, object_key, object_member, object_rest, object_sep,
    plain_run_end, simple_escape, skip_digits, skip_ws, string, string_tail, unicode_escape,
    utf8_char, value, value_head, Head, Sep, SpecResult, BACKSLASH, DOT, MINUS, OPEN_BRACE, OPEN_BRACKET,
    QUOTE,
};

verus! {

/// A result that moved forward and stayed inside the input if it is a
/// success, and that is located between `p` and the end if it is an error.
pub open spec fn stays_in<T, E>(s: Seq<u8>, p: int, r: SpecResult<T, E>) -> bool {
    match r {
        Ok((_, q)) => advances(s, p, q),
        Err((_, q)) => p <= q <= s.len(),
    }
}

pub proof fn lemma_skip_ws(s: Seq<u8>, p: int)
    requires
        0 <= p <= s.len(),
    ensures
        p <= skip_ws(s, p) <= s.len(),
        skip_ws(s, p) < s.len() ==> !is_ws(s[skip_ws(s, p)]),
        forall|i: int| p <= i < skip_ws(s, p) ==> is_ws(#[trigger] s[i]),
    decreases s.len() - p,
{
    if p < s.len() && is_ws(s[p]) {
        lemma_skip_ws(s, p + 1);
    }
}

pub proof fn lemma_skip_digits(s: Seq<u8>, p: int)
    requires
        0 <= p <= s.len(),
    ensures
        p <= skip_digits(s, p) <= s.len(),
        skip_digits(s, p) < s.len() ==> !is_digit(s[skip_digits(s, p)]),
        forall|i: int| p <= i < skip_digits(s, p) ==> is_digit(#[trigger] s[i]),
    decreases s.len() - p,
{
    if p < s.len() && is_digit(s[p]) {
        lemma_skip_digits(s, p + 1);
    }
}

pub proof fn lemma_plain_run_end(s: Seq<u8>, p: int)
    requires
        0 <= p <= s.len(),
    ensures
        p <= plain_run_end(s, p) <= s.len(),
        plain_run_end(s, p) < s.len() ==> ends_plain_run(s[plain_run_end(s, p)]),
        forall|i: int| p <= i < plain_run_end(s, p) ==> !ends_plain_run(#[trigger] s[i]),
    decreases s.len() - p,
{
    if p < s.len() && !ends_plain_run(s[p]) {
        lemma_plain_run_end(s, p + 1);
    }
}

pub proof fn lemma_continuation<E>(s: Seq<u8>, p: int, acc: int, k: nat)
    requires
        0 <= p <= s.len(),
    ensures
        continuation::<E>(s, p, acc, k) matches Ok((_, q)) ==> q == p + k && q <= s.len(),
        continuation::<E>(s, p, acc, k) matches Err((_, q)) ==> p <= q <= s.len(),
    decreases k,
{
    if k > 0 && p < s.len() && 0x80 <= s[p] <= 0xbf {
        lemma_continuation::<E>(s, p + 1, acc * 64 + (s[p] - 0x80), (k - 1) as nat);
    }
}

pub proof fn lemma_utf8_char<E>(s: Seq<u8>, p: int)
    requires
        0 <= p <= s.len(),
    ensures
        stays_in(s, p, utf8_char::<E>(s, p)),
{
    if 0 <= p < s.len() {
        let b = s[p];
        if 0xc0 <= b <= 0xdf {
            lemma_continuation::<E>(s, p + 1, b - 0xc0, 1);
        } else if 0xe0 <= b <= 0xef {
            lemma_continuation::<E>(s, p + 1, b - 0xe0, 2);
        } else if 0xf0 <= b <= 0xf7 {
            lemma_continuation::<E>(s, p + 1, b - 0xf0, 3);
        }
    }
}

pub proof fn lemma_unicode_escape<E>(s: Seq<u8>, p: int)
    requires
        0 <= p <= s.len(),
    ensures
        stays_in(s, p, unicode_escape::<E>(s, p)),
{
}

pub proof fn lemma_string_tail<E>(s: Seq<u8>, p: int, acc: Seq<char>)
    requires
        0 <= p <= s.len(),
    ensures
        stays_in(s, p, string_tail::<E>(s, p, acc)),
    decreases s.len() - p,
{
    lemma_utf8_char::<E>(s, p);
    if let Ok((c, q)) = utf8_char::<E>(s, p) {
        if advances(s, p, q) {
            if c == '\\' {
                lemma_utf8_char::<E>(s, q);
                if let Ok((esc, r)) = utf8_char::<E>(s, q) {
                    if advances(s, q, r) {
                        if esc == 'u' {
                            lemma_unicode_escape::<E>(s, r);
                            if let Ok((ch, t)) = unicode_escape::<E>(s, r) {
                                lemma_string_tail::<E>(s, t, acc.push(ch));
                            }
                        } else if let Some(ch) = simple_escape(esc) {
                            lemma_string_tail::<E>(s, r, acc.push(ch));
                        }
                    }
                }
            } else if c != '"' && (c as u32) >= 0x20 {
                lemma_string_tail::<E>(s, q, acc.push(c));
            }
        }
    }
}

pub proof fn lemma_string<E>(s: Seq<u8>, p: int)
    requires
        0 <= p <= s.len(),
    ensures
        stays_in(s, p, string::<E>(s, p)),
{
    lemma_plain_run_end(s, p);
    let i = plain_run_end(s, p);
    if 0 <= i < s.len() && s[i] == BACKSLASH && valid_utf8_run(s, p, i) {
        lemma_string_tail::<E>(s, i, vstd::utf8::decode_utf8(s.subrange(p, i)));
    }
}

pub open spec fn valid_utf8_run(s: Seq<u8>, p: int, i: int) -> bool {
    vstd::utf8::valid_utf8(s.subrange(p, i))
}

pub proof fn lemma_number<E>(s: Seq<u8>, p: int)
    requires
        0 <= p <= s.len(),
    ensures
        stays_in(s, p, number::<E>(s, p)),
{
    if p < s.len() {
        let q = if s[p] == MINUS {
            p + 1
        } else {
            p
        };
        if q < s.len() {
            lemma_skip_digits(s, q + 1);
        }
        if let Ok(i) = integer_part::<E>(s, q) {
            if 0 <= i < s.len() && s[i] == DOT && i + 1 < s.len() {
                lemma_skip_digits(s, i + 2);
            }
            if let Ok((f, _)) = fraction_part::<E>(s, i) {
                if f + 2 < s.len() {
                    lemma_skip_digits(s, f + 3);
                }
                if f + 1 < s.len() {
                    lemma_skip_digits(s, f + 2);
                }
            }
        }
    }
}

pub proof fn lemma_object_key<E>(s: Seq<u8>, p: int)
    requires
        0 <= p <= s.len(),
    ensures
        stays_in(s, p, object_key::<E>(s, p)),
{
    lemma_string::<E>(s, p);
    if let Ok((k, q)) = string::<E>(s, p) {
        lemma_skip_ws(s, q);
        let c = skip_ws(s, q);
        if c < s.len() {
            lemma_skip_ws(s, c + 1);
        }
    }
}

pub proof fn lemma_value_head<E>(s: Seq<u8>, p: int, depth: nat, limit: Option<usize>)
    requires
        0 <= p <= s.len(),
    ensures
        value_head::<E>(s, p, depth, limit) matches Head::Complete(_, q) ==> advances(s, p, q),
        value_head::<E>(s, p, depth, limit) matches Head::OpenArray(q) ==> advances(s, p, q),
        value_head::<E>(s, p, depth, limit) matches Head::OpenObject(_, q) ==> advances(s, p, q),
        value_head::<E>(s, p, depth, limit) matches Head::Fail(_, q) ==> p <= q <= s.len(),
{
    if p < s.len() {
        let b = s[p];
        if b == QUOTE {
            lemma_string::<E>(s, p + 1);
        } else if b == OPEN_BRACKET || b == OPEN_BRACE {
            lemma_skip_ws(s, p + 1);
            let q = skip_ws(s, p + 1);
            if q < s.len() {
                lemma_object_key::<E>(s, q + 1);
            }
        } else if b == MINUS || is_digit(b) {
            lemma_number::<E>(s, p);
        }
    }
}

pub proof fn lemma_array_sep<E>(s: Seq<u8>, p: int)
    requires
        0 <= p <= s.len(),
    ensures
        array_sep::<E>(s, p) matches Sep::Close(q) ==> advances(s, p, q),
        array_sep::<E>(s, p) matches Sep::Next(q) ==> advances(s, p, q),
        !(array_sep::<E>(s, p) is NextKey),
        array_sep::<E>(s, p) matches Sep::Fail(_, q) ==> p <= q <= s.len(),
{
    lemma_skip_ws(s, p);
    let q = skip_ws(s, p);
    if q < s.len() {
        lemma_skip_ws(s, q + 1);
    }
}

pub proof fn lemma_object_sep<E>(s: Seq<u8>, p: int)
    requires
        0 <= p <= s.len(),
    ensures
        object_sep::<E>(s, p) matches Sep::Close(q) ==> advances(s, p, q),
        object_sep::<E>(s, p) matches Sep::NextKey(_, q) ==> advances(s, p, q),
        !(object_sep::<E>(s, p) is Next),
        object_sep::<E>(s, p) matches Sep::Fail(_, q) ==> p <= q <= s.len(),
{
    lemma_skip_ws(s, p);
    let q = skip_ws(s, p);
    if q < s.len() {
        lemma_skip_ws(s, q + 1);
        let k = skip_ws(s, q + 1);
        if k < s.len() {
            lemma_object_key::<E>(s, k + 1);
        }
    }
}

/// A value that parses ends after its start and inside the input.
pub proof fn lemma_value<E>(s: Seq<u8>, p: int, depth: nat, limit: Option<usize>)
    requires
        0 <= p <= s.len(),
    ensures
        stays_in(s, p, value::<E>(s, p, depth, limit)),
    decreases s.len() - p, 0int,
{
    lemma_value_head::<E>(s, p, depth, limit);
    match value_head::<E>(s, p, depth, limit) {
        Head::OpenArray(q) => {
            lemma_array_items::<E>(s, q, depth + 1, limit, seq![]);
        },
        Head::OpenObject(k, q) => {
            lemma_object_member::<E>(s, q, depth + 1, limit, seq![], k);
        },
        _ => {},
    }
}

pub proof fn lemma_array_items<E>(
    s: Seq<u8>,
    p: int,
    depth: nat,
    limit: Option<usize>,
    items: Seq<crate::value::JsonModel>,
)
    requires
        0 <= p <= s.len(),
    ensures
        stays_in(s, p, array_items::<E>(s, p, depth, limit, items)),
    decreases s.len() - p, 1int,
{
    lemma_value::<E>(s, p, depth, limit);
    if let Ok((v, q)) = value::<E>(s, p, depth, limit) {
        if advances(s, p, q) {
            lemma_array_rest::<E>(s, q, depth, limit, items.push(v));
        }
    }
}

pub proof fn lemma_array_rest<E>(
    s: Seq<u8>,
    p: int,
    depth: nat,
    limit: Option<usize>,
    items: Seq<crate::value::JsonModel>,
)
    requires
        0 <= p <= s.len(),
    ensures
        stays_in(s, p, array_rest::<E>(s, p, depth, limit, items)),
    decreases s.len() - p, 0int,
{
    lemma_array_sep::<E>(s, p);
    if let Sep::Next(q) = array_sep::<E>(s, p) {
        lemma_array_items::<E>(s, q, depth, limit, items);
    }
}

pub proof fn lemma_object_member<E>(
    s: Seq<u8>,
    p: int,
    depth: nat,
    limit: Option<usize>,
    entries: Seq<(Seq<char>, crate::value::JsonModel)>,
    key: Seq<char>,
)
    requires
        0 <= p <= s.len(),
    ensures
        stays_in(s, p, object_member::<E>(s, p, depth, limit, entries, key)),
    decreases s.len() - p, 1int,
{
    lemma_value::<E>(s, p, depth, limit);
    if let Ok((v, q)) = value::<E>(s, p, depth, limit) {
        if advances(s, p, q) {
            lemma_object_rest::<E>(s, q, depth, limit, entries.push((key, v)));
        }
    }
}

pub proof fn lemma_object_rest<E>(
    s: Seq<u8>,
    p: int,
    depth: nat,
    limit: Option<usize>,
    entries: Seq<(Seq<char>, crate::value::JsonModel)>,
)
    requires
        0 <= p <= s.len(),
    ensures
        stays_in(s, p, object_rest::<E>(s, p, depth, limit, entries)),
    decreases s.len() - p, 0int,
{
    lemma_object_sep::<E>(s, p);
    if let Sep::NextKey(k, q) = object_sep::<E>(s, p) {
        lemma_object_member::<E>(s, q, depth, limit, entries, k);
    }
}

} // verus!
