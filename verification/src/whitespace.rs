//! Whitespace after a well-formed document changes nothing.
//!
//! The lemmas compare the parse of `s` with the parse of a longer input `t`
//! that agrees with `s` on its bytes and holds only whitespace after them:
//! whatever succeeds on `s` succeeds on `t` with the same result.
use vstd::prelude::*;

use crate::grammar::{
    array_items, array_rest, array_sep, continuation, digits, document, escape_hex,
    exponent_part, fraction_part, integer_part, is_digit, is_ws, number, object_key, object_member,
    object_rest, object_sep, plain_run_end, simple_escape, skip_digits, skip_ws, starts_at, string,
    string_tail, unicode_escape, utf8_char, value, value_head, Head, Sep, BACKSLASH, LOWER_U,
    MINUS, OPEN_BRACE, OPEN_BRACKET, QUOTE,
};
use crate::progress::{lemma_skip_ws, lemma_value};
use crate::value::JsonModel;

verus! {

/// `t` is `s` followed by whitespace only.
pub open spec fn ws_extension(s: Seq<u8>, t: Seq<u8>) -> bool {
    &&& s.len() <= t.len()
    &&& forall|i: int| 0 <= i < s.len() ==> #[trigger] t[i] == s[i]
    &&& forall|i: int| s.len() <= i < t.len() ==> is_ws(#[trigger] t[i])
}

proof fn lemma_subrange(s: Seq<u8>, t: Seq<u8>, a: int, b: int)
    requires
        ws_extension(s, t),
        0 <= a <= b <= s.len(),
    ensures
        t.subrange(a, b) == s.subrange(a, b),
{
    assert(t.subrange(a, b) =~= s.subrange(a, b));
}

proof fn lemma_ext_skip_ws(s: Seq<u8>, t: Seq<u8>, p: int)
    requires
        ws_extension(s, t),
        0 <= p <= s.len(),
        skip_ws(s, p) < s.len(),
    ensures
        skip_ws(t, p) == skip_ws(s, p),
    decreases s.len() - p,
{
    if is_ws(s[p]) {
        lemma_ext_skip_ws(s, t, p + 1);
    }
}

/// A whitespace run that reaches the end of `s` reaches the end of `t`.
proof fn lemma_ext_skip_ws_to_end(s: Seq<u8>, t: Seq<u8>, p: int)
    requires
        ws_extension(s, t),
        0 <= p <= t.len(),
        skip_ws(s, p) == s.len() || p >= s.len(),
    ensures
        skip_ws(t, p) == t.len(),
    decreases t.len() - p,
{
    if p < t.len() {
        if p < s.len() {
            assert(is_ws(s[p]));
        }
        assert(is_ws(t[p]));
        lemma_ext_skip_ws_to_end(s, t, p + 1);
    }
}

proof fn lemma_ext_skip_digits(s: Seq<u8>, t: Seq<u8>, p: int)
    requires
        ws_extension(s, t),
        0 <= p <= s.len(),
    ensures
        skip_digits(t, p) == skip_digits(s, p),
    decreases s.len() - p,
{
    if p < s.len() && is_digit(s[p]) {
        lemma_ext_skip_digits(s, t, p + 1);
    } else if p == s.len() && p < t.len() {
        assert(is_ws(t[p]));
    }
}

proof fn lemma_ext_plain_run(s: Seq<u8>, t: Seq<u8>, p: int)
    requires
        ws_extension(s, t),
        0 <= p <= s.len(),
        plain_run_end(s, p) < s.len(),
    ensures
        plain_run_end(t, p) == plain_run_end(s, p),
    decreases s.len() - p,
{
    if !crate::grammar::ends_plain_run(s[p]) {
        lemma_ext_plain_run(s, t, p + 1);
    }
}

proof fn lemma_ext_continuation<E>(s: Seq<u8>, t: Seq<u8>, p: int, acc: int, k: nat)
    requires
        ws_extension(s, t),
        0 <= p <= s.len(),
    ensures
        continuation::<E>(s, p, acc, k) is Ok ==> continuation::<E>(t, p, acc, k)
            == continuation::<E>(s, p, acc, k),
    decreases k,
{
    if k > 0 && p < s.len() && 0x80 <= s[p] <= 0xbf {
        lemma_ext_continuation::<E>(s, t, p + 1, acc * 64 + (s[p] - 0x80), (k - 1) as nat);
    }
}

proof fn lemma_ext_utf8_char<E>(s: Seq<u8>, t: Seq<u8>, p: int)
    requires
        ws_extension(s, t),
        0 <= p <= s.len(),
    ensures
        utf8_char::<E>(s, p) is Ok ==> utf8_char::<E>(t, p) == utf8_char::<E>(s, p),
{
    if p < s.len() {
        let b = s[p];
        if 0xc0 <= b <= 0xdf {
            lemma_ext_continuation::<E>(s, t, p + 1, b - 0xc0, 1);
        } else if 0xe0 <= b <= 0xef {
            lemma_ext_continuation::<E>(s, t, p + 1, b - 0xe0, 2);
        } else if 0xf0 <= b <= 0xf7 {
            lemma_ext_continuation::<E>(s, t, p + 1, b - 0xf0, 3);
        }
    }
}

proof fn lemma_ext_escape_hex<E>(s: Seq<u8>, t: Seq<u8>, p: int)
    requires
        ws_extension(s, t),
        0 <= p <= s.len(),
    ensures
        escape_hex::<E>(s, p) is Ok ==> escape_hex::<E>(t, p) == escape_hex::<E>(s, p),
{
    if p + 4 <= s.len() {
        lemma_subrange(s, t, p, p + 4);
    }
}

proof fn lemma_ext_unicode_escape<E>(s: Seq<u8>, t: Seq<u8>, p: int)
    requires
        ws_extension(s, t),
        0 <= p <= s.len(),
    ensures
        unicode_escape::<E>(s, p) is Ok ==> unicode_escape::<E>(t, p) == unicode_escape::<E>(
            s,
            p,
        ),
{
    lemma_ext_escape_hex::<E>(s, t, p);
    if let Ok((c1, q)) = escape_hex::<E>(s, p) {
        if q + 2 <= s.len() {
            lemma_subrange(s, t, q, q + 2);
            lemma_ext_escape_hex::<E>(s, t, q + 2);
        }
        if starts_at(t, q, seq![BACKSLASH, LOWER_U]) && !starts_at(s, q, seq![BACKSLASH, LOWER_U]) {
            if q + 2 > s.len() {
                assert(!(escape_hex::<E>(s, q + 2) is Ok));
            }
        }
    }
}

proof fn lemma_ext_string_tail<E>(s: Seq<u8>, t: Seq<u8>, p: int, acc: Seq<char>)
    requires
        ws_extension(s, t),
        0 <= p <= s.len(),
    ensures
        string_tail::<E>(s, p, acc) is Ok ==> string_tail::<E>(t, p, acc) == string_tail::<E>(
            s,
            p,
            acc,
        ),
    decreases s.len() - p,
{
    lemma_ext_utf8_char::<E>(s, t, p);
    crate::progress::lemma_utf8_char::<E>(s, p);
    if let Ok((c, q)) = utf8_char::<E>(s, p) {
        crate::progress::lemma_utf8_char::<E>(t, p);
        if c == '\\' {
            lemma_ext_utf8_char::<E>(s, t, q);
            crate::progress::lemma_utf8_char::<E>(s, q);
            if let Ok((esc, r)) = utf8_char::<E>(s, q) {
                if esc == 'u' {
                    lemma_ext_unicode_escape::<E>(s, t, r);
                    crate::progress::lemma_unicode_escape::<E>(s, r);
                    if let Ok((ch, u)) = unicode_escape::<E>(s, r) {
                        lemma_ext_string_tail::<E>(s, t, u, acc.push(ch));
                    }
                } else if let Some(ch) = simple_escape(esc) {
                    lemma_ext_string_tail::<E>(s, t, r, acc.push(ch));
                }
            }
        } else if c != '"' && (c as u32) >= 0x20 {
            lemma_ext_string_tail::<E>(s, t, q, acc.push(c));
        }
    }
}

proof fn lemma_ext_string<E>(s: Seq<u8>, t: Seq<u8>, p: int)
    requires
        ws_extension(s, t),
        0 <= p <= s.len(),
    ensures
        string::<E>(s, p) is Ok ==> string::<E>(t, p) == string::<E>(s, p),
{
    crate::progress::lemma_plain_run_end(s, p);
    let i = plain_run_end(s, p);
    if i < s.len() {
        lemma_ext_plain_run(s, t, p);
        lemma_subrange(s, t, p, i);
        lemma_ext_string_tail::<E>(s, t, i, vstd::utf8::decode_utf8(s.subrange(p, i)));
    }
}

proof fn lemma_ext_digits<E>(s: Seq<u8>, t: Seq<u8>, p: int)
    requires
        ws_extension(s, t),
        0 <= p <= s.len(),
    ensures
        digits::<E>(s, p) is Ok ==> digits::<E>(t, p) == digits::<E>(s, p),
{
    if p < s.len() {
        lemma_ext_skip_digits(s, t, p + 1);
    }
}

proof fn lemma_ext_number<E>(s: Seq<u8>, t: Seq<u8>, p: int)
    requires
        ws_extension(s, t),
        0 <= p <= s.len(),
    ensures
        number::<E>(s, p) is Ok ==> number::<E>(t, p) == number::<E>(s, p),
{
    if number::<E>(s, p) is Ok {
        crate::progress::lemma_number::<E>(s, p);
        let q = if s[p] == MINUS {
            p + 1
        } else {
            p
        };
        if q + 1 <= s.len() {
            lemma_ext_skip_digits(s, t, q + 1);
            crate::progress::lemma_skip_digits(s, q + 1);
        }
        let i = integer_part::<E>(s, q)->Ok_0;
        if i == s.len() && i < t.len() {
            assert(is_ws(t[i]));
        }
        if i + 1 <= s.len() {
            lemma_ext_digits::<E>(s, t, i + 1);
            crate::progress::lemma_skip_digits(s, i + 1);
        }
        if i + 2 <= s.len() {
            crate::progress::lemma_skip_digits(s, i + 2);
        }
        let f = fraction_part::<E>(s, i)->Ok_0.0;
        if f == s.len() && f < t.len() {
            assert(is_ws(t[f]));
        }
        if f + 1 == s.len() && f + 1 < t.len() {
            assert(is_ws(t[f + 1]));
        }
        if f + 1 <= s.len() {
            lemma_ext_digits::<E>(s, t, f + 1);
        }
        if f + 2 <= s.len() {
            lemma_ext_digits::<E>(s, t, f + 2);
        }
        let x = exponent_part::<E>(s, f)->Ok_0.0;
        lemma_subrange(s, t, p, x);
    }
}

proof fn lemma_ext_object_key<E>(s: Seq<u8>, t: Seq<u8>, p: int)
    requires
        ws_extension(s, t),
        0 <= p <= s.len(),
    ensures
        object_key::<E>(s, p) matches Ok((_, r)) && r < s.len() ==> object_key::<E>(t, p)
            == object_key::<E>(s, p),
{
    lemma_ext_string::<E>(s, t, p);
    crate::progress::lemma_string::<E>(s, p);
    if let Ok((k, q)) = string::<E>(s, p) {
        lemma_skip_ws(s, q);
        let c = skip_ws(s, q);
        if c < s.len() {
            lemma_ext_skip_ws(s, t, q);
            lemma_skip_ws(s, c + 1);
            if skip_ws(s, c + 1) < s.len() {
                lemma_ext_skip_ws(s, t, c + 1);
            }
        }
    }
}

proof fn lemma_ext_head<E>(s: Seq<u8>, t: Seq<u8>, p: int, depth: nat, limit: Option<usize>)
    requires
        ws_extension(s, t),
        0 <= p <= s.len(),
    ensures
        value_head::<E>(s, p, depth, limit) is Complete ==> value_head::<E>(t, p, depth, limit)
            == value_head::<E>(s, p, depth, limit),
        value_head::<E>(s, p, depth, limit) matches Head::OpenArray(q) && q < s.len()
            ==> value_head::<E>(t, p, depth, limit) == value_head::<E>(s, p, depth, limit),
        value_head::<E>(s, p, depth, limit) matches Head::OpenObject(_, q) && q < s.len()
            ==> value_head::<E>(t, p, depth, limit) == value_head::<E>(s, p, depth, limit),
{
    if p < s.len() {
        let b = s[p];
        if b == crate::grammar::LOWER_N || b == crate::grammar::LOWER_T {
            if p + 4 <= s.len() {
                lemma_subrange(s, t, p + 1, p + 4);
            }
        } else if b == crate::grammar::LOWER_F {
            if p + 5 <= s.len() {
                lemma_subrange(s, t, p + 1, p + 5);
            }
        } else if b == QUOTE {
            lemma_ext_string::<E>(s, t, p + 1);
        } else if b == OPEN_BRACKET || b == OPEN_BRACE {
            lemma_skip_ws(s, p + 1);
            let q = skip_ws(s, p + 1);
            if q < s.len() {
                lemma_ext_skip_ws(s, t, p + 1);
                lemma_ext_object_key::<E>(s, t, q + 1);
            }
        } else if b == MINUS || is_digit(b) {
            lemma_ext_number::<E>(s, t, p);
        }
    }
}

proof fn lemma_ext_array_sep<E>(s: Seq<u8>, t: Seq<u8>, p: int)
    requires
        ws_extension(s, t),
        0 <= p <= s.len(),
    ensures
        array_sep::<E>(s, p) is Close ==> array_sep::<E>(t, p) == array_sep::<E>(s, p),
        array_sep::<E>(s, p) matches Sep::Next(q) && q < s.len() ==> array_sep::<E>(t, p)
            == array_sep::<E>(s, p),
{
    lemma_skip_ws(s, p);
    let q = skip_ws(s, p);
    if q < s.len() {
        lemma_ext_skip_ws(s, t, p);
        lemma_skip_ws(s, q + 1);
        if skip_ws(s, q + 1) < s.len() {
            lemma_ext_skip_ws(s, t, q + 1);
        }
    }
}

proof fn lemma_ext_object_sep<E>(s: Seq<u8>, t: Seq<u8>, p: int)
    requires
        ws_extension(s, t),
        0 <= p <= s.len(),
    ensures
        object_sep::<E>(s, p) is Close ==> object_sep::<E>(t, p) == object_sep::<E>(s, p),
        object_sep::<E>(s, p) matches Sep::NextKey(_, q) && q < s.len() ==> object_sep::<E>(t, p)
            == object_sep::<E>(s, p),
{
    lemma_skip_ws(s, p);
    let q = skip_ws(s, p);
    if q < s.len() {
        lemma_ext_skip_ws(s, t, p);
        lemma_skip_ws(s, q + 1);
        let k = skip_ws(s, q + 1);
        if k < s.len() {
            lemma_ext_skip_ws(s, t, q + 1);
            lemma_ext_object_key::<E>(s, t, k + 1);
        }
    }
}

proof fn lemma_ext_value<E>(s: Seq<u8>, t: Seq<u8>, p: int, depth: nat, limit: Option<usize>)
    requires
        ws_extension(s, t),
        0 <= p <= s.len(),
    ensures
        value::<E>(s, p, depth, limit) is Ok ==> value::<E>(t, p, depth, limit) == value::<E>(
            s,
            p,
            depth,
            limit,
        ),
    decreases s.len() - p, 0int,
{
    lemma_ext_head::<E>(s, t, p, depth, limit);
    crate::progress::lemma_value_head::<E>(s, p, depth, limit);
    match value_head::<E>(s, p, depth, limit) {
        Head::OpenArray(q) => {
            lemma_value::<E>(s, q, depth + 1, limit);
            lemma_ext_items::<E>(s, t, q, depth + 1, limit, seq![]);
        },
        Head::OpenObject(k, q) => {
            lemma_value::<E>(s, q, depth + 1, limit);
            lemma_ext_member::<E>(s, t, q, depth + 1, limit, seq![], k);
        },
        _ => {},
    }
}

proof fn lemma_ext_items<E>(
    s: Seq<u8>,
    t: Seq<u8>,
    p: int,
    depth: nat,
    limit: Option<usize>,
    items: Seq<JsonModel>,
)
    requires
        ws_extension(s, t),
        0 <= p <= s.len(),
    ensures
        array_items::<E>(s, p, depth, limit, items) is Ok ==> array_items::<E>(
            t,
            p,
            depth,
            limit,
            items,
        ) == array_items::<E>(s, p, depth, limit, items),
    decreases s.len() - p, 1int,
{
    lemma_ext_value::<E>(s, t, p, depth, limit);
    lemma_value::<E>(s, p, depth, limit);
    if let Ok((v, q)) = value::<E>(s, p, depth, limit) {
        lemma_ext_rest::<E>(s, t, q, depth, limit, items.push(v));
    }
}

proof fn lemma_ext_rest<E>(
    s: Seq<u8>,
    t: Seq<u8>,
    p: int,
    depth: nat,
    limit: Option<usize>,
    items: Seq<JsonModel>,
)
    requires
        ws_extension(s, t),
        0 <= p <= s.len(),
    ensures
        array_rest::<E>(s, p, depth, limit, items) is Ok ==> array_rest::<E>(
            t,
            p,
            depth,
            limit,
            items,
        ) == array_rest::<E>(s, p, depth, limit, items),
    decreases s.len() - p, 0int,
{
    lemma_ext_array_sep::<E>(s, t, p);
    crate::progress::lemma_array_sep::<E>(s, p);
    if let Sep::Next(q) = array_sep::<E>(s, p) {
        lemma_value::<E>(s, q, depth, limit);
        lemma_ext_items::<E>(s, t, q, depth, limit, items);
    }
}

proof fn lemma_ext_member<E>(
    s: Seq<u8>,
    t: Seq<u8>,
    p: int,
    depth: nat,
    limit: Option<usize>,
    entries: Seq<(Seq<char>, JsonModel)>,
    key: Seq<char>,
)
    requires
        ws_extension(s, t),
        0 <= p <= s.len(),
    ensures
        object_member::<E>(s, p, depth, limit, entries, key) is Ok ==> object_member::<E>(
            t,
            p,
            depth,
            limit,
            entries,
            key,
        ) == object_member::<E>(s, p, depth, limit, entries, key),
    decreases s.len() - p, 1int,
{
    lemma_ext_value::<E>(s, t, p, depth, limit);
    lemma_value::<E>(s, p, depth, limit);
    if let Ok((v, q)) = value::<E>(s, p, depth, limit) {
        lemma_ext_object_rest::<E>(s, t, q, depth, limit, entries.push((key, v)));
    }
}

proof fn lemma_ext_object_rest<E>(
    s: Seq<u8>,
    t: Seq<u8>,
    p: int,
    depth: nat,
    limit: Option<usize>,
    entries: Seq<(Seq<char>, JsonModel)>,
)
    requires
        ws_extension(s, t),
        0 <= p <= s.len(),
    ensures
        object_rest::<E>(s, p, depth, limit, entries) is Ok ==> object_rest::<E>(
            t,
            p,
            depth,
            limit,
            entries,
        ) == object_rest::<E>(s, p, depth, limit, entries),
    decreases s.len() - p, 0int,
{
    lemma_ext_object_sep::<E>(s, t, p);
    crate::progress::lemma_object_sep::<E>(s, p);
    if let Sep::NextKey(k, q) = object_sep::<E>(s, p) {
        lemma_value::<E>(s, q, depth, limit);
        lemma_ext_member::<E>(s, t, q, depth, limit, entries, k);
    }
}

/// Whitespace after a well-formed document changes nothing: with `w` made
/// of spaces, tabs, line feeds and carriage returns only, `s` followed by
/// `w` decodes to the same value as `s`.
pub proof fn law_trailing_whitespace<E>(s: Seq<u8>, w: Seq<u8>, limit: Option<usize>)
    requires
        forall|i: int| 0 <= i < w.len() ==> is_ws(#[trigger] w[i]),
    ensures
        document::<E>(s, limit) is Ok ==> document::<E>(s + w, limit) == document::<E>(s, limit),
{
    let t = s + w;
    assert forall|i: int| s.len() <= i < t.len() implies is_ws(#[trigger] t[i]) by {
        assert(t[i] == w[i - s.len()]);
    }
    assert(ws_extension(s, t));
    lemma_skip_ws(s, 0);
    let p = skip_ws(s, 0);
    if document::<E>(s, limit) is Ok {
        lemma_value::<E>(s, p, 0, limit);
        lemma_ext_skip_ws(s, t, 0);
        lemma_ext_value::<E>(s, t, p, 0, limit);
        if let Ok((v, q)) = value::<E>(s, p, 0, limit) {
            lemma_ext_skip_ws_to_end(s, t, q);
        }
    }
}

} // verus!
