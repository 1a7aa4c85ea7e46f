//! Parsing does not depend on what comes before the parser's position: the
//! same bytes at a later position give the same results, with every position
//! moved by the same amount.  Whitespace in front of a document therefore
//! changes nothing but the locations of errors.
use vstd::prelude::*;

use crate::error::ParseError;
use crate::grammar::{
    array_items, array_open, array_rest, array_sep, continuation, digits, document, escape_hex,
    exponent_part, fraction_part, integer_part, is_ws, number, object_key, object_member,
    object_open, object_rest, object_sep, plain_run_end, simple_escape, skip_digits, skip_ws,
    starts_at, string, string_tail, unicode_escape, utf8_char, value, value_head, Head, Sep,
    SpecResult, BACKSLASH, LOWER_U,
};
use crate::progress::{lemma_skip_ws, lemma_value};
use crate::value::JsonModel;

verus! {

/// `t` holds the bytes of `s` from position `k` on, and nothing after them.
pub open spec fn shifted(s: Seq<u8>, t: Seq<u8>, k: int) -> bool {
    &&& k >= 0
    &&& t.len() == s.len() + k
    &&& forall|j: int| k <= j < t.len() ==> #[trigger] t[j] == s[j - k]
}

/// `r` with every position moved by `k`.
pub open spec fn shift<T, E>(r: SpecResult<T, E>, k: int) -> SpecResult<T, E> {
    match r {
        Ok((v, q)) => Ok((v, q + k)),
        Err((e, q)) => Err((e, q + k)),
    }
}

pub open spec fn shift_pos<T, E>(r: Result<T, (ParseError<E>, int)>, k: int, f: spec_fn(T) -> T) -> Result<
    T,
    (ParseError<E>, int),
> {
    match r {
        Ok(v) => Ok(f(v)),
        Err((e, q)) => Err((e, q + k)),
    }
}

pub open spec fn shift_head<E>(h: Head<E>, k: int) -> Head<E> {
    match h {
        Head::Complete(v, q) => Head::Complete(v, q + k),
        Head::OpenArray(q) => Head::OpenArray(q + k),
        Head::OpenObject(key, q) => Head::OpenObject(key, q + k),
        Head::Fail(e, q) => Head::Fail(e, q + k),
    }
}

pub open spec fn shift_sep<E>(sp: Sep<E>, k: int) -> Sep<E> {
    match sp {
        Sep::Close(q) => Sep::Close(q + k),
        Sep::Next(q) => Sep::Next(q + k),
        Sep::NextKey(key, q) => Sep::NextKey(key, q + k),
        Sep::Fail(e, q) => Sep::Fail(e, q + k),
    }
}

proof fn lemma_sub(s: Seq<u8>, t: Seq<u8>, k: int, a: int, b: int)
    requires
        shifted(s, t, k),
        0 <= a <= b <= s.len(),
    ensures
        t.subrange(a + k, b + k) == s.subrange(a, b),
{
    assert forall|i: int| 0 <= i < b - a implies #[trigger] t.subrange(a + k, b + k)[i]
        == s.subrange(a, b)[i] by {
        assert(t[a + k + i] == s[a + k + i - k]);
    }
    assert(t.subrange(a + k, b + k) =~= s.subrange(a, b));
}

proof fn lemma_shift_starts_at(s: Seq<u8>, t: Seq<u8>, k: int, p: int, lit: Seq<u8>)
    requires
        shifted(s, t, k),
        0 <= p <= s.len(),
    ensures
        starts_at(t, p + k, lit) == starts_at(s, p, lit),
{
    if p + lit.len() <= s.len() {
        lemma_sub(s, t, k, p, p + lit.len());
    }
}

proof fn lemma_shift_skip_ws(s: Seq<u8>, t: Seq<u8>, k: int, p: int)
    requires
        shifted(s, t, k),
        0 <= p <= s.len(),
    ensures
        skip_ws(t, p + k) == skip_ws(s, p) + k,
    decreases s.len() - p,
{
    if p < s.len() {
        assert(t[p + k] == s[p]);
        if is_ws(s[p]) {
            lemma_shift_skip_ws(s, t, k, p + 1);
        }
    }
}

proof fn lemma_shift_skip_digits(s: Seq<u8>, t: Seq<u8>, k: int, p: int)
    requires
        shifted(s, t, k),
        0 <= p <= s.len(),
    ensures
        skip_digits(t, p + k) == skip_digits(s, p) + k,
    decreases s.len() - p,
{
    if p < s.len() {
        assert(t[p + k] == s[p]);
        lemma_shift_skip_digits(s, t, k, p + 1);
    }
}

proof fn lemma_shift_plain_run(s: Seq<u8>, t: Seq<u8>, k: int, p: int)
    requires
        shifted(s, t, k),
        0 <= p <= s.len(),
    ensures
        plain_run_end(t, p + k) == plain_run_end(s, p) + k,
    decreases s.len() - p,
{
    if p < s.len() {
        assert(t[p + k] == s[p]);
        lemma_shift_plain_run(s, t, k, p + 1);
    }
}

proof fn lemma_shift_continuation<E>(s: Seq<u8>, t: Seq<u8>, k: int, p: int, acc: int, n: nat)
    requires
        shifted(s, t, k),
        0 <= p <= s.len(),
    ensures
        continuation::<E>(t, p + k, acc, n) == shift(continuation::<E>(s, p, acc, n), k),
    decreases n,
{
    if n > 0 && p < s.len() {
        assert(t[p + k] == s[p]);
        if 0x80 <= s[p] <= 0xbf {
            lemma_shift_continuation::<E>(s, t, k, p + 1, acc * 64 + (s[p] - 0x80), (n - 1) as nat);
        }
    }
}

proof fn lemma_shift_utf8_char<E>(s: Seq<u8>, t: Seq<u8>, k: int, p: int)
    requires
        shifted(s, t, k),
        0 <= p <= s.len(),
    ensures
        utf8_char::<E>(t, p + k) == shift(utf8_char::<E>(s, p), k),
{
    if p < s.len() {
        let b = s[p];
        assert(t[p + k] == b);
        if 0xc0 <= b <= 0xdf {
            lemma_shift_continuation::<E>(s, t, k, p + 1, b - 0xc0, 1);
        } else if 0xe0 <= b <= 0xef {
            lemma_shift_continuation::<E>(s, t, k, p + 1, b - 0xe0, 2);
        } else if 0xf0 <= b <= 0xf7 {
            lemma_shift_continuation::<E>(s, t, k, p + 1, b - 0xf0, 3);
        }
    }
}

proof fn lemma_shift_escape_hex<E>(s: Seq<u8>, t: Seq<u8>, k: int, p: int)
    requires
        shifted(s, t, k),
        0 <= p <= s.len(),
    ensures
        escape_hex::<E>(t, p + k) == shift(escape_hex::<E>(s, p), k),
{
    if p + 4 <= s.len() {
        lemma_sub(s, t, k, p, p + 4);
    }
}

proof fn lemma_shift_unicode_escape<E>(s: Seq<u8>, t: Seq<u8>, k: int, p: int)
    requires
        shifted(s, t, k),
        0 <= p <= s.len(),
    ensures
        unicode_escape::<E>(t, p + k) == shift(unicode_escape::<E>(s, p), k),
{
    lemma_shift_escape_hex::<E>(s, t, k, p);
    if let Ok((c1, q)) = escape_hex::<E>(s, p) {
        lemma_shift_starts_at(s, t, k, q, seq![BACKSLASH, LOWER_U]);
        if q + 2 <= s.len() {
            lemma_shift_escape_hex::<E>(s, t, k, q + 2);
        }
    }
}

proof fn lemma_shift_string_tail<E>(s: Seq<u8>, t: Seq<u8>, k: int, p: int, acc: Seq<char>)
    requires
        shifted(s, t, k),
        0 <= p <= s.len(),
    ensures
        string_tail::<E>(t, p + k, acc) == shift(string_tail::<E>(s, p, acc), k),
    decreases s.len() - p,
{
    lemma_shift_utf8_char::<E>(s, t, k, p);
    crate::progress::lemma_utf8_char::<E>(s, p);
    if let Ok((c, q)) = utf8_char::<E>(s, p) {
        if c == '\\' {
            lemma_shift_utf8_char::<E>(s, t, k, q);
            crate::progress::lemma_utf8_char::<E>(s, q);
            if let Ok((esc, r)) = utf8_char::<E>(s, q) {
                if esc == 'u' {
                    lemma_shift_unicode_escape::<E>(s, t, k, r);
                    crate::progress::lemma_unicode_escape::<E>(s, r);
                    if let Ok((ch, u)) = unicode_escape::<E>(s, r) {
                        lemma_shift_string_tail::<E>(s, t, k, u, acc.push(ch));
                    }
                } else if let Some(ch) = simple_escape(esc) {
                    lemma_shift_string_tail::<E>(s, t, k, r, acc.push(ch));
                }
            }
        } else if c != '"' && (c as u32) >= 0x20 {
            lemma_shift_string_tail::<E>(s, t, k, q, acc.push(c));
        }
    }
}

proof fn lemma_shift_string<E>(s: Seq<u8>, t: Seq<u8>, k: int, p: int)
    requires
        shifted(s, t, k),
        0 <= p <= s.len(),
    ensures
        string::<E>(t, p + k) == shift(string::<E>(s, p), k),
{
    lemma_shift_plain_run(s, t, k, p);
    crate::progress::lemma_plain_run_end(s, p);
    let i = plain_run_end(s, p);
    lemma_sub(s, t, k, p, i);
    if i < s.len() {
        assert(t[i + k] == s[i]);
        lemma_shift_string_tail::<E>(s, t, k, i, vstd::utf8::decode_utf8(s.subrange(p, i)));
    }
}

proof fn lemma_shift_digits<E>(s: Seq<u8>, t: Seq<u8>, k: int, p: int)
    requires
        shifted(s, t, k),
        0 <= p <= s.len(),
    ensures
        digits::<E>(t, p + k) == shift_pos(digits::<E>(s, p), k, |q: int| q + k),
        integer_part::<E>(t, p + k) == shift_pos(integer_part::<E>(s, p), k, |q: int| q + k),
{
    if p < s.len() {
        assert(t[p + k] == s[p]);
        lemma_shift_skip_digits(s, t, k, p + 1);
    }
}

proof fn lemma_shift_number<E>(s: Seq<u8>, t: Seq<u8>, k: int, p: int)
    requires
        shifted(s, t, k),
        0 <= p <= s.len(),
    ensures
        number::<E>(t, p + k) == shift(number::<E>(s, p), k),
{
    if p < s.len() {
        assert(t[p + k] == s[p]);
        let q = if s[p] == crate::grammar::MINUS {
            p + 1
        } else {
            p
        };
        lemma_shift_digits::<E>(s, t, k, q);
        if let Ok(i) = integer_part::<E>(s, q) {
            crate::progress::lemma_skip_digits(s, q + 1);
            if i < s.len() {
                assert(t[i + k] == s[i]);
                lemma_shift_digits::<E>(s, t, k, i + 1);
            }
            assert(fraction_part::<E>(t, i + k) == shift_pos(
                fraction_part::<E>(s, i),
                k,
                |r: (int, bool)| (r.0 + k, r.1),
            ));
            if let Ok((f, _)) = fraction_part::<E>(s, i) {
                if i + 1 <= s.len() {
                    crate::progress::lemma_skip_digits(s, i + 1);
                }
                if i + 2 <= s.len() {
                    crate::progress::lemma_skip_digits(s, i + 2);
                }
                if f < s.len() {
                    assert(t[f + k] == s[f]);
                }
                if f + 1 < s.len() {
                    assert(t[f + 1 + k] == s[f + 1]);
                }
                if f + 1 <= s.len() {
                    lemma_shift_digits::<E>(s, t, k, f + 1);
                }
                if f + 2 <= s.len() {
                    lemma_shift_digits::<E>(s, t, k, f + 2);
                }
                assert(exponent_part::<E>(t, f + k) == shift_pos(
                    exponent_part::<E>(s, f),
                    k,
                    |r: (int, bool)| (r.0 + k, r.1),
                ));
                if let Ok((x, _)) = exponent_part::<E>(s, f) {
                    crate::progress::lemma_number::<E>(s, p);
                    lemma_sub(s, t, k, p, x);
                }
            }
        }
    }
}

proof fn lemma_shift_object_key<E>(s: Seq<u8>, t: Seq<u8>, k: int, p: int)
    requires
        shifted(s, t, k),
        0 <= p <= s.len(),
    ensures
        object_key::<E>(t, p + k) == shift(object_key::<E>(s, p), k),
{
    lemma_shift_string::<E>(s, t, k, p);
    crate::progress::lemma_string::<E>(s, p);
    if let Ok((key, q)) = string::<E>(s, p) {
        lemma_shift_skip_ws(s, t, k, q);
        lemma_skip_ws(s, q);
        let c = skip_ws(s, q);
        if c < s.len() {
            assert(t[c + k] == s[c]);
            lemma_shift_skip_ws(s, t, k, c + 1);
        }
    }
}

proof fn lemma_shift_head<E>(s: Seq<u8>, t: Seq<u8>, k: int, p: int, depth: nat, limit: Option<usize>)
    requires
        shifted(s, t, k),
        0 <= p <= s.len(),
    ensures
        value_head::<E>(t, p + k, depth, limit) == shift_head(value_head::<E>(s, p, depth, limit), k),
{
    if p < s.len() {
        let b = s[p];
        assert(t[p + k] == b);
        lemma_shift_starts_at(s, t, k, p + 1, seq![0x75u8, 0x6cu8, 0x6cu8]);
        lemma_shift_starts_at(s, t, k, p + 1, seq![0x61u8, 0x6cu8, 0x73u8, 0x65u8]);
        lemma_shift_starts_at(s, t, k, p + 1, seq![0x72u8, 0x75u8, 0x65u8]);
        lemma_shift_string::<E>(s, t, k, p + 1);
        lemma_shift_number::<E>(s, t, k, p);
        lemma_shift_skip_ws(s, t, k, p + 1);
        lemma_skip_ws(s, p + 1);
        let q = skip_ws(s, p + 1);
        if q < s.len() {
            assert(t[q + k] == s[q]);
            lemma_shift_object_key::<E>(s, t, k, q + 1);
        }
        assert(array_open::<E>(t, p + 1 + k) == shift_head(array_open::<E>(s, p + 1), k));
        assert(object_open::<E>(t, p + 1 + k) == shift_head(object_open::<E>(s, p + 1), k));
    }
}

proof fn lemma_shift_array_sep<E>(s: Seq<u8>, t: Seq<u8>, k: int, p: int)
    requires
        shifted(s, t, k),
        0 <= p <= s.len(),
    ensures
        array_sep::<E>(t, p + k) == shift_sep(array_sep::<E>(s, p), k),
{
    lemma_shift_skip_ws(s, t, k, p);
    lemma_skip_ws(s, p);
    let q = skip_ws(s, p);
    if q < s.len() {
        assert(t[q + k] == s[q]);
        lemma_shift_skip_ws(s, t, k, q + 1);
    }
}

proof fn lemma_shift_object_sep<E>(s: Seq<u8>, t: Seq<u8>, k: int, p: int)
    requires
        shifted(s, t, k),
        0 <= p <= s.len(),
    ensures
        object_sep::<E>(t, p + k) == shift_sep(object_sep::<E>(s, p), k),
{
    lemma_shift_skip_ws(s, t, k, p);
    lemma_skip_ws(s, p);
    let q = skip_ws(s, p);
    if q < s.len() {
        assert(t[q + k] == s[q]);
        lemma_shift_skip_ws(s, t, k, q + 1);
        lemma_skip_ws(s, q + 1);
        let c = skip_ws(s, q + 1);
        if c < s.len() {
            assert(t[c + k] == s[c]);
            lemma_shift_object_key::<E>(s, t, k, c + 1);
        }
    }
}

proof fn lemma_shift_value<E>(s: Seq<u8>, t: Seq<u8>, k: int, p: int, depth: nat, limit: Option<usize>)
    requires
        shifted(s, t, k),
        0 <= p <= s.len(),
    ensures
        value::<E>(t, p + k, depth, limit) == shift(value::<E>(s, p, depth, limit), k),
    decreases s.len() - p, 0int,
{
    lemma_shift_head::<E>(s, t, k, p, depth, limit);
    crate::progress::lemma_value_head::<E>(s, p, depth, limit);
    match value_head::<E>(s, p, depth, limit) {
        Head::OpenArray(q) => {
            lemma_shift_items::<E>(s, t, k, q, depth + 1, limit, seq![]);
        },
        Head::OpenObject(key, q) => {
            lemma_shift_member::<E>(s, t, k, q, depth + 1, limit, seq![], key);
        },
        _ => {},
    }
}

proof fn lemma_shift_items<E>(
    s: Seq<u8>,
    t: Seq<u8>,
    k: int,
    p: int,
    depth: nat,
    limit: Option<usize>,
    items: Seq<JsonModel>,
)
    requires
        shifted(s, t, k),
        0 <= p <= s.len(),
    ensures
        array_items::<E>(t, p + k, depth, limit, items) == shift(
            array_items::<E>(s, p, depth, limit, items),
            k,
        ),
    decreases s.len() - p, 1int,
{
    lemma_shift_value::<E>(s, t, k, p, depth, limit);
    lemma_value::<E>(s, p, depth, limit);
    if let Ok((v, q)) = value::<E>(s, p, depth, limit) {
        lemma_shift_rest::<E>(s, t, k, q, depth, limit, items.push(v));
    }
}

proof fn lemma_shift_rest<E>(
    s: Seq<u8>,
    t: Seq<u8>,
    k: int,
    p: int,
    depth: nat,
    limit: Option<usize>,
    items: Seq<JsonModel>,
)
    requires
        shifted(s, t, k),
        0 <= p <= s.len(),
    ensures
        array_rest::<E>(t, p + k, depth, limit, items) == shift(
            array_rest::<E>(s, p, depth, limit, items),
            k,
        ),
    decreases s.len() - p, 0int,
{
    lemma_shift_array_sep::<E>(s, t, k, p);
    crate::progress::lemma_array_sep::<E>(s, p);
    if let Sep::Next(q) = array_sep::<E>(s, p) {
        lemma_shift_items::<E>(s, t, k, q, depth, limit, items);
    }
}

proof fn lemma_shift_member<E>(
    s: Seq<u8>,
    t: Seq<u8>,
    k: int,
    p: int,
    depth: nat,
    limit: Option<usize>,
    entries: Seq<(Seq<char>, JsonModel)>,
    key: Seq<char>,
)
    requires
        shifted(s, t, k),
        0 <= p <= s.len(),
    ensures
        object_member::<E>(t, p + k, depth, limit, entries, key) == shift(
            object_member::<E>(s, p, depth, limit, entries, key),
            k,
        ),
    decreases s.len() - p, 1int,
{
    lemma_shift_value::<E>(s, t, k, p, depth, limit);
    lemma_value::<E>(s, p, depth, limit);
    if let Ok((v, q)) = value::<E>(s, p, depth, limit) {
        lemma_shift_object_rest::<E>(s, t, k, q, depth, limit, entries.push((key, v)));
    }
}

proof fn lemma_shift_object_rest<E>(
    s: Seq<u8>,
    t: Seq<u8>,
    k: int,
    p: int,
    depth: nat,
    limit: Option<usize>,
    entries: Seq<(Seq<char>, JsonModel)>,
)
    requires
        shifted(s, t, k),
        0 <= p <= s.len(),
    ensures
        object_rest::<E>(t, p + k, depth, limit, entries) == shift(
            object_rest::<E>(s, p, depth, limit, entries),
            k,
        ),
    decreases s.len() - p, 0int,
{
    lemma_shift_object_sep::<E>(s, t, k, p);
    crate::progress::lemma_object_sep::<E>(s, p);
    if let Sep::NextKey(key, q) = object_sep::<E>(s, p) {
        lemma_shift_member::<E>(s, t, k, q, depth, limit, entries, key);
    }
}

/// Whitespace in front of a document changes nothing but the locations of
/// errors: with `w` made of spaces, tabs, line feeds and carriage returns
/// only, `w` followed by `s` decodes to the value `s` decodes to, and an
/// error of `s` at location `loc` is the same error at `loc + w.len()`.
pub proof fn law_leading_whitespace<E>(w: Seq<u8>, s: Seq<u8>, limit: Option<usize>)
    requires
        forall|i: int| 0 <= i < w.len() ==> is_ws(#[trigger] w[i]),
    ensures
        document::<E>(w + s, limit) == match document::<E>(s, limit) {
            Ok(v) => Ok(v),
            Err((e, loc)) => Err((e, loc + w.len())),
        },
{
    let t = w + s;
    let k = w.len() as int;
    assert forall|j: int| k <= j < t.len() implies #[trigger] t[j] == s[j - k] by {}
    assert(shifted(s, t, k));
    lemma_skip_ws(s, 0);
    let p = skip_ws(s, 0);
    lemma_shift_skip_ws(s, t, k, 0);
    lemma_skip_ws_prefix(w, s, 0);
    lemma_shift_value::<E>(s, t, k, p, 0, limit);
    lemma_value::<E>(s, p, 0, limit);
    if let Ok((v, q)) = value::<E>(s, p, 0, limit) {
        lemma_shift_skip_ws(s, t, k, q);
    }
}

/// Whitespace at the start of `w + s` is skipped up to the start of `s`.
proof fn lemma_skip_ws_prefix(w: Seq<u8>, s: Seq<u8>, i: int)
    requires
        forall|j: int| 0 <= j < w.len() ==> is_ws(#[trigger] w[j]),
        0 <= i <= w.len(),
    ensures
        skip_ws(w + s, i) == skip_ws(w + s, w.len() as int),
    decreases w.len() - i,
{
    if i < w.len() {
        assert((w + s)[i] == w[i]);
        lemma_skip_ws_prefix(w, s, i + 1);
    }
}

} // verus!
